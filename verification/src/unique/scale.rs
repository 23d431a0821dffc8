//! The parameters of the nodes are unique.
use vstd::prelude::*;

use crate::dichotomy::{is_solution, DichotomyError};
use crate::entropy::scales_of;
use crate::graph::{KGraph, OutEdge};
use crate::laplacian::edge_lists;
use crate::number::{
    are_casts, casts_once, is_at_most, is_below, is_cast, is_count, is_deterministic, is_greatest, is_one, is_prod,
    is_quot, is_ratio, is_total, is_zero, CastTo, Real,
};
use crate::scale::{
    are_affinities, are_nearest, are_params_of, are_umap_probas, is_adjusted_scale, is_affinity, is_doubled,
    is_enough, is_least, is_nearest_mean,
    is_normalized, is_param, is_param_of, is_proba, is_raw_proba, is_refused, is_umap_proba,
    is_umap_end, is_umap_scale, is_uniform, same_targets, umap_sums, weights, NodeParam, ScaleError,
    MAX_DOUBLINGS,
};
use crate::unique::law_total_unique;
use crate::unique::search::{is_function, law_solution_unique};

verus! {

/// The two outcomes are the same: the same refusal, or the same scale and edges.
pub open spec fn same_param<W>(
    a: Result<NodeParam<W>, ScaleError>,
    b: Result<NodeParam<W>, ScaleError>,
) -> bool {
    match (a, b) {
        (Ok(p), Ok(q)) => p.scale == q.scale && p.edges@ == q.edges@,
        (Err(e), Err(f)) => e == f,
        _ => false,
    }
}

/// Numbers that are converted one by one give the same numbers.
pub proof fn law_casts_unique<A: CastTo<B>, B>(src: Seq<A>, r: Seq<B>, s: Seq<B>)
    requires
        casts_once::<A, B>(),
        are_casts(src, r),
        are_casts(src, s),
    ensures
        r == s,
{
    assert forall|k: int| 0 <= k < src.len() implies r[k] == s[k] by {
        assert(is_cast(src[k], r[k]) && is_cast(src[k], s[k]));
    }
    assert(r =~= s);
}

proof fn lemma_mean_unique<F: CastTo<W>, W: Real>(
    graph: &KGraph<F>,
    neighbours: Seq<OutEdge<F>>,
    first: W,
    r: W,
    s: W,
)
    requires
        is_deterministic::<W>(),
        casts_once::<F, W>(),
        is_nearest_mean(graph, neighbours, first, r),
        is_nearest_mean(graph, neighbours, first, s),
    ensures
        r == s,
{
    let (p, ps, pn) = choose|rho: Seq<W>, sum: W, n: W|
        #![trigger is_total(rho, sum), is_quot(sum, n, r)]
        are_nearest(graph, neighbours, first, rho) && is_total(rho, sum) && is_count(
            rho.len() as usize,
            n,
        ) && is_quot(sum, n, r);
    let (q, qs, qn) = choose|rho: Seq<W>, sum: W, n: W|
        #![trigger is_total(rho, sum), is_quot(sum, n, s)]
        are_nearest(graph, neighbours, first, rho) && is_total(rho, sum) && is_count(
            rho.len() as usize,
            n,
        ) && is_quot(sum, n, s);
    assert forall|k: int| 0 <= k < p.len() implies p[k] == q[k] by {
        if k < neighbours.len() {
            let w = graph.neighbours@[neighbours[k].node as int]@[0].weight;
            assert(is_cast(w, p[k]) && is_cast(w, q[k]));
        }
    }
    assert(p =~= q);
    law_total_unique(p, ps, qs);
}

proof fn lemma_affinities_unique<W: Real>(dist: Seq<W>, scale: W, r: Seq<W>, s: Seq<W>)
    requires
        is_deterministic::<W>(),
        are_affinities(dist, scale, r),
        are_affinities(dist, scale, s),
    ensures
        r == s,
{
    assert forall|k: int| 0 <= k < dist.len() implies r[k] == s[k] by {
        assert(is_affinity(dist[k], scale, r[k]) && is_affinity(dist[k], scale, s[k]));
    }
    assert(r =~= s);
}

proof fn lemma_raw_proba_unique<W: Real>(
    dist: Seq<W>,
    mean: W,
    r: Seq<W>,
    r_in: bool,
    s: Seq<W>,
    s_in: bool,
)
    requires
        is_deterministic::<W>(),
        is_raw_proba(dist, mean, r, r_in),
        is_raw_proba(dist, mean, s, s_in),
    ensures
        r == s,
        r_in == s_in,
{
    let (a, at, ar, al) = choose|scale: W, stretched: bool, ratio: W, least: W|
        #![trigger are_affinities(dist, scale, r), is_least(stretched, least), is_at_most(least, ratio, r_in)]
        is_adjusted_scale(dist.first(), dist.last(), mean, scale, stretched) && are_affinities(
            dist,
            scale,
            r,
        ) && is_quot(r.last(), r.first(), ratio) && is_least(stretched, least) && is_at_most(
            least,
            ratio,
            r_in,
        );
    let (b, bt, br, bl) = choose|scale: W, stretched: bool, ratio: W, least: W|
        #![trigger are_affinities(dist, scale, s), is_least(stretched, least), is_at_most(least, ratio, s_in)]
        is_adjusted_scale(dist.first(), dist.last(), mean, scale, stretched) && are_affinities(
            dist,
            scale,
            s,
        ) && is_quot(s.last(), s.first(), ratio) && is_least(stretched, least) && is_at_most(
            least,
            ratio,
            s_in,
        );
    assert(at == bt && a == b);
    lemma_affinities_unique(dist, a, r, s);
}

/// Normalized probabilities are unique.
pub proof fn lemma_normalized_unique<W: Real>(raw: Seq<W>, r: Seq<W>, s: Seq<W>)
    requires
        is_deterministic::<W>(),
        is_normalized(raw, r),
        is_normalized(raw, s),
    ensures
        r == s,
{
    let a = choose|sum: W|
        #![trigger is_total(raw, sum)]
        is_total(raw, sum) && forall|k: int|
            0 <= k < raw.len() ==> is_quot(raw[k], sum, #[trigger] r[k]);
    let b = choose|sum: W|
        #![trigger is_total(raw, sum)]
        is_total(raw, sum) && forall|k: int|
            0 <= k < raw.len() ==> is_quot(raw[k], sum, #[trigger] s[k]);
    law_total_unique(raw, a, b);
    assert forall|k: int| 0 <= k < raw.len() implies r[k] == s[k] by {
        assert(is_quot(raw[k], a, r[k]) && is_quot(raw[k], a, s[k]));
    }
    assert(r =~= s);
}

proof fn lemma_proba_unique<W: Real>(dist: Seq<W>, mean: W, r: Seq<W>, s: Seq<W>)
    requires
        is_deterministic::<W>(),
        r.len() == s.len(),
        is_proba(dist, mean, r),
        is_proba(dist, mean, s),
    ensures
        r == s,
{
    if exists|raw: Seq<W>|
        #![trigger is_normalized(raw, r)]
        is_raw_proba(dist, mean, raw, true) && is_normalized(raw, r) {
        let a = choose|raw: Seq<W>|
            #![trigger is_normalized(raw, r)]
            is_raw_proba(dist, mean, raw, true) && is_normalized(raw, r);
        if is_uniform(r) && is_uniform(s) {
            assert(r =~= s);
        } else {
            let b = choose|raw: Seq<W>|
                #![trigger is_normalized(raw, s)]
                is_raw_proba(dist, mean, raw, true) && is_normalized(raw, s);
            lemma_raw_proba_unique(dist, mean, a, true, b, true);
            lemma_normalized_unique(a, r, s);
        }
    } else {
        assert(r =~= s);
    }
}

/// What is given to a node is unique.
pub proof fn law_param_unique<F: CastTo<W>, W: Real>(
    graph: &KGraph<F>,
    neighbours: Seq<OutEdge<F>>,
    a: Result<NodeParam<W>, ScaleError>,
    b: Result<NodeParam<W>, ScaleError>,
)
    requires
        is_deterministic::<W>(),
        casts_once::<F, W>(),
        is_param_of(graph, neighbours, a),
        is_param_of(graph, neighbours, b),
    ensures
        same_param(a, b),
{
    let (ad, am) = choose|dist: Seq<W>, mean: W|
        #![trigger is_param(neighbours, dist, mean, a)]
        are_casts(weights(neighbours), dist) && is_nearest_mean(
            graph,
            neighbours,
            dist.first(),
            mean,
        ) && is_param(neighbours, dist, mean, a);
    let (bd, bm) = choose|dist: Seq<W>, mean: W|
        #![trigger is_param(neighbours, dist, mean, b)]
        are_casts(weights(neighbours), dist) && is_nearest_mean(
            graph,
            neighbours,
            dist.first(),
            mean,
        ) && is_param(neighbours, dist, mean, b);
    law_casts_unique(weights(neighbours), ad, bd);
    lemma_mean_unique(graph, neighbours, ad.first(), am, bm);
    match (a, b) {
        (Ok(p), Ok(q)) => {
            assert(same_targets(p.edges@, neighbours) && same_targets(q.edges@, neighbours));
            lemma_proba_unique(ad, am, weights(p.edges@), weights(q.edges@));
            assert forall|k: int| 0 <= k < p.edges@.len() implies p.edges@[k] == q.edges@[k] by {
                assert(p.edges@[k].node == q.edges@[k].node);
                assert(weights(p.edges@)[k] == p.edges@[k].weight);
                assert(weights(q.edges@)[k] == q.edges@[k].weight);
            }
            assert(p.edges@ =~= q.edges@);
        },
        (Ok(p), Err(ScaleError::RangeTooWide)) => {
            let raw = choose|raw: Seq<W>| is_raw_proba(ad, am, raw, false);
            lemma_proba_in_range(ad, am, weights(p.edges@), raw);
        },
        (Err(ScaleError::RangeTooWide), Ok(q)) => {
            let raw = choose|raw: Seq<W>| is_raw_proba(ad, am, raw, false);
            lemma_proba_in_range(ad, am, weights(q.edges@), raw);
        },
        _ => {},
    }
}

/// Probabilities that are given are not out of range.
proof fn lemma_proba_in_range<W: Real>(dist: Seq<W>, mean: W, probas: Seq<W>, raw: Seq<W>)
    requires
        is_deterministic::<W>(),
        is_proba(dist, mean, probas),
        is_below(dist.first(), dist.last(), true),
    ensures
        !is_raw_proba(dist, mean, raw, false),
{
    if is_raw_proba(dist, mean, raw, false) {
        let a = choose|a: Seq<W>|
            #![trigger is_normalized(a, probas)]
            is_raw_proba(dist, mean, a, true) && is_normalized(a, probas);
        lemma_raw_proba_unique(dist, mean, a, true, raw, false);
    }
}

/// The parameters of the nodes of a graph are unique.
pub proof fn law_params_unique<F: CastTo<W>, W: Real>(
    graph: &KGraph<F>,
    p: Seq<NodeParam<W>>,
    q: Seq<NodeParam<W>>,
)
    requires
        is_deterministic::<W>(),
        casts_once::<F, W>(),
        are_params_of(graph, p),
        are_params_of(graph, q),
    ensures
        edge_lists(p) == edge_lists(q),
        scales_of(p) == scales_of(q),
{
    assert forall|i: int| 0 <= i < p.len() implies p[i].scale == q[i].scale && p[i].edges@
        == q[i].edges@ by {
        law_param_unique(graph, graph.neighbours@[i]@, Ok(p[i]), Ok(q[i]));
    }
    assert(edge_lists(p) =~= edge_lists(q));
    assert(scales_of(p) =~= scales_of(q));
}

/// A graph is refused for one reason.
pub proof fn law_refusal_unique<F: CastTo<W>, W: Real>(
    graph: &KGraph<F>,
    a: ScaleError,
    b: ScaleError,
)
    requires
        is_deterministic::<W>(),
        casts_once::<F, W>(),
        is_refused::<F, W>(graph, a),
        is_refused::<F, W>(graph, b),
    ensures
        a == b,
{
    let p = refused_after::<F, W>(graph, a);
    let q = refused_after::<F, W>(graph, b);
    let (m, n) = (p.len() as int, q.len() as int);
    if m < n {
        law_param_unique(graph, graph.neighbours@[m]@, Err(a), Ok(q[m]));
    } else if n < m {
        law_param_unique(graph, graph.neighbours@[n]@, Err(b), Ok(p[n]));
    } else {
        law_param_unique::<F, W>(graph, graph.neighbours@[m]@, Err(a), Err(b));
    }
}

/// A graph whose nodes have parameters is not refused.
pub proof fn law_params_or_refusal<F: CastTo<W>, W: Real>(
    graph: &KGraph<F>,
    p: Seq<NodeParam<W>>,
    error: ScaleError,
)
    requires
        is_deterministic::<W>(),
        casts_once::<F, W>(),
        are_params_of(graph, p),
    ensures
        !is_refused::<F, W>(graph, error),
{
    if is_refused::<F, W>(graph, error) {
        let q = refused_after::<F, W>(graph, error);
        let n = q.len() as int;
        law_param_unique(graph, graph.neighbours@[n]@, Err(error), Ok(p[n]));
    }
}

/// The parameters of the nodes before the one that is refused.
proof fn refused_after<F: CastTo<W>, W: Real>(graph: &KGraph<F>, error: ScaleError) -> (p: Seq<
    NodeParam<W>,
>)
    requires
        is_refused::<F, W>(graph, error),
    ensures
        p.len() < graph.neighbours@.len(),
        forall|i: int|
            0 <= i < p.len() ==> is_param_of(graph, graph.neighbours@[i]@, Ok(#[trigger] p[i])),
        is_param_of(
            graph,
            graph.neighbours@[p.len() as int]@,
            Err::<NodeParam<W>, ScaleError>(error),
        ),
{
    choose|params: Seq<NodeParam<W>>|
        params.len() < graph.neighbours@.len() && (forall|i: int|
            0 <= i < params.len() ==> is_param_of(
                graph,
                graph.neighbours@[i]@,
                Ok(#[trigger] params[i]),
            )) && #[trigger] is_param_of(
            graph,
            graph.neighbours@[params.len() as int]@,
            Err::<NodeParam<W>, ScaleError>(error),
        )
}

proof fn lemma_umap_probas_unique<W: Real>(dist: Seq<W>, beta: W, r: Seq<W>, s: Seq<W>)
    requires
        is_deterministic::<W>(),
        are_umap_probas(dist, beta, r),
        are_umap_probas(dist, beta, s),
    ensures
        r == s,
{
    assert forall|k: int| 0 <= k < dist.len() implies r[k] == s[k] by {
        assert(is_umap_proba(dist[k], dist.first(), beta, r[k]));
        assert(is_umap_proba(dist[k], dist.first(), beta, s[k]));
    }
    assert(r =~= s);
}

/// The sums of the probabilities have one value for each `beta`.
proof fn lemma_umap_function<W: Real>(dist: Seq<W>)
    requires
        is_deterministic::<W>(),
    ensures
        is_function(umap_sums(dist)),
{
    let f = umap_sums(dist);
    assert forall|x: W, y: W, z: W| #[trigger] f(x, y) && #[trigger] f(x, z) implies y == z by {
        let p = choose|probas: Seq<W>|
            #![trigger is_total(probas, y)]
            are_umap_probas(dist, x, probas) && is_total(probas, y);
        let q = choose|probas: Seq<W>|
            #![trigger is_total(probas, z)]
            are_umap_probas(dist, x, probas) && is_total(probas, z);
        lemma_umap_probas_unique(dist, x, p, q);
        law_total_unique(p, y, z);
    }
}

/// Whether the sum is at most the norm has one answer.
proof fn lemma_enough_unique<W: Real>(norm: W, dist: Seq<W>, beta: W)
    requires
        is_deterministic::<W>(),
        is_enough(norm, dist, beta, true),
    ensures
        !is_enough(norm, dist, beta, false),
{
    lemma_umap_function(dist);
}

proof fn lemma_doubled_unique<W: Real>(norm: W, dist: Seq<W>, n: nat, u: W, w: W)
    requires
        is_deterministic::<W>(),
        is_doubled(norm, dist, n, u),
        is_doubled(norm, dist, n, w),
    ensures
        u == w,
    decreases n,
{
    if n > 0 {
        let (p, s) = doubled_from(norm, dist, n, u);
        let (q, t) = doubled_from(norm, dist, n, w);
        lemma_doubled_unique(norm, dist, (n - 1) as nat, p, q);
    }
}

/// The power of two before a power of two, and the number 2.
proof fn doubled_from<W: Real>(norm: W, dist: Seq<W>, n: nat, u: W) -> (r: (W, W))
    requires
        n > 0,
        is_doubled(norm, dist, n, u),
    ensures
        is_doubled(norm, dist, (n - 1) as nat, r.0),
        is_enough(norm, dist, r.0, false),
        is_ratio(2, 1, r.1),
        is_prod(r.0, r.1, u),
{
    choose|p: W, two: W|
        #![trigger is_prod(p, two, u)]
        is_doubled(norm, dist, (n - 1) as nat, p) && is_enough(norm, dist, p, false) && is_ratio(
            2,
            1,
            two,
        ) && is_prod(p, two, u)
}

/// With the powers of two before one that is reached, the sum is above the norm.
proof fn lemma_not_enough_before<W: Real>(norm: W, dist: Seq<W>, m: nat, p: W, n: nat, u: W)
    requires
        is_deterministic::<W>(),
        m < n,
        is_doubled(norm, dist, m, p),
        is_doubled(norm, dist, n, u),
    ensures
        !is_enough(norm, dist, p, true),
    decreases n,
{
    let (q, t) = doubled_from(norm, dist, n, u);
    if m == n - 1 {
        lemma_doubled_unique(norm, dist, m, p, q);
        if is_enough(norm, dist, p, true) {
            lemma_enough_unique(norm, dist, p);
        }
    } else {
        lemma_not_enough_before(norm, dist, m, p, (n - 1) as nat, q);
    }
}

/// The upper end of the interval in which the scale is searched is unique.
pub proof fn law_umap_end_unique<W: Real>(norm: W, dist: Seq<W>, a: W, b: W)
    requires
        is_deterministic::<W>(),
        is_umap_end(norm, dist, a),
        is_umap_end(norm, dist, b),
    ensures
        a == b,
{
    let (m, p) = umap_end_from(norm, dist, a);
    let (n, q) = umap_end_from(norm, dist, b);
    if m < n {
        lemma_not_enough_before(norm, dist, m, p, n, q);
    } else if n < m {
        lemma_not_enough_before(norm, dist, n, q, m, p);
    } else {
        lemma_doubled_unique(norm, dist, m, p, q);
        if is_enough(norm, dist, p, true) {
            lemma_enough_unique(norm, dist, p);
        }
    }
}

/// How often 1 was doubled, and the last power of two that was tried.
proof fn umap_end_from<W: Real>(norm: W, dist: Seq<W>, upper: W) -> (r: (nat, W))
    requires
        is_umap_end(norm, dist, upper),
    ensures
        r.0 <= MAX_DOUBLINGS,
        is_doubled(norm, dist, r.0, r.1),
        (r.1 == upper && is_enough(norm, dist, upper, true)) || (r.0 == MAX_DOUBLINGS && is_enough(
            norm,
            dist,
            r.1,
            false,
        ) && is_greatest(upper)),
{
    if exists|n: nat|
        n <= MAX_DOUBLINGS && #[trigger] is_doubled(norm, dist, n, upper) && is_enough(
            norm,
            dist,
            upper,
            true,
        ) {
        let n = choose|n: nat|
            n <= MAX_DOUBLINGS && #[trigger] is_doubled(norm, dist, n, upper) && is_enough(
                norm,
                dist,
                upper,
                true,
            );
        (n, upper)
    } else {
        choose|n: nat, u: W|
            n == MAX_DOUBLINGS && #[trigger] is_doubled(norm, dist, n, u) && is_enough(
                norm,
                dist,
                u,
                false,
            )
    }
}

/// The scale and the probabilities that sum to a norm are unique.
pub proof fn law_umap_scale_unique<W: Real>(
    norm: W,
    dist: Seq<W>,
    a: Result<(W, Vec<W>), DichotomyError>,
    b: Result<(W, Vec<W>), DichotomyError>,
)
    requires
        is_deterministic::<W>(),
        is_umap_scale(norm, dist, a),
        is_umap_scale(norm, dist, b),
    ensures
        match (a, b) {
            (Ok((x, p)), Ok((y, q))) => x == y && p@ == q@,
            (Err(e), Err(f)) => e == f,
            _ => false,
        },
{
    let f = umap_sums(dist);
    lemma_umap_function(dist);
    let (az, ag, ar) = umap_root(norm, dist, a);
    let (bz, bg, br) = umap_root(norm, dist, b);
    law_umap_end_unique(norm, dist, ag, bg);
    law_solution_unique(false, f, az, ag, norm, ar, br);
    match (a, b) {
        (Ok((x, p)), Ok((y, q))) => {
            lemma_umap_probas_unique(dist, ar.unwrap(), p@, q@);
        },
        _ => {},
    }
}

/// The ends of the interval and the outcome of the search behind a scale.
proof fn umap_root<W: Real>(
    norm: W,
    dist: Seq<W>,
    res: Result<(W, Vec<W>), DichotomyError>,
) -> (r: (W, W, Result<W, DichotomyError>))
    requires
        is_umap_scale(norm, dist, res),
    ensures
        is_zero(r.0),
        is_umap_end(norm, dist, r.1),
        is_solution(false, umap_sums(dist), r.0, r.1, norm, r.2),
        match (r.2, res) {
            (Err(error), Err(refusal)) => refusal == error,
            (Ok(beta), Ok((scale, probas))) => are_umap_probas(dist, beta, probas@) && exists|
                one: W,
            |
                is_one(one) && is_quot(one, beta, scale),
            _ => false,
        },
{
    choose|zero: W, upper: W, root: Result<W, DichotomyError>|
        #![trigger is_solution(false, umap_sums(dist), zero, upper, norm, root)]
        is_zero(zero) && is_umap_end(norm, dist, upper) && is_solution(
            false,
            umap_sums(dist),
            zero,
            upper,
            norm,
            root,
        ) && match (root, res) {
            (Err(error), Err(refusal)) => refusal == error,
            (Ok(beta), Ok((scale, probas))) => are_umap_probas(dist, beta, probas@) && exists|
                one: W,
            |
                is_one(one) && is_quot(one, beta, scale),
            _ => false,
        }
}

} // verus!
