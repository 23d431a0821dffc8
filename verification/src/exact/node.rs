//! The parameters of the nodes in exact arithmetic, as formulas of the distances.
use vstd::prelude::*;

use crate::exact::laplacian::has_positive_exp;
use crate::exact::scale::{
    affinity_exponent, is_exponential, law_probabilities_sum_to_one, law_range_not_too_wide,
    lemma_exp_zero, lemma_raw_sum_positive,
};
use crate::exact::{is_exact, keeps_value, law_total_exact, value_sum};
use crate::graph::{KGraph, OutEdge};
use crate::number::{
    are_casts, is_below, is_cast, is_count, is_diff, is_ln, is_neg, is_one, is_positive, is_prod,
    is_quot, is_ratio, is_total, is_zero, CastTo, Real,
};
use crate::scale::{
    are_affinities, are_nearest, get_scale_from_proba_normalisation, is_adjusted_scale, is_affinity,
    is_nearest_mean, is_normalized, is_param, is_param_of, is_proba, is_raw_proba, is_refused,
    is_stretch, node_params, weights, NodeParam, NodeParams, ScaleError, PROBA_MIN_INVERSE,
};

verus! {

/// The sum of the distances from each of the first `n` neighbours to its own nearest neighbour.
pub open spec fn nearest_sum<F>(
    vf: spec_fn(F) -> real,
    graph: &KGraph<F>,
    neighbours: Seq<OutEdge<F>>,
    n: nat,
) -> real
    decreases n,
{
    if n == 0 {
        0 as real
    } else {
        nearest_sum(vf, graph, neighbours, (n - 1) as nat) + vf(
            graph.neighbours@[neighbours[n - 1].node as int]@[0].weight,
        )
    }
}

/// The mean distance to the nearest neighbour around a node: of the node itself and of each of its
/// neighbours.
pub open spec fn local_mean<F>(
    vf: spec_fn(F) -> real,
    graph: &KGraph<F>,
    neighbours: Seq<OutEdge<F>>,
) -> real {
    (vf(neighbours[0].weight) + nearest_sum(vf, graph, neighbours, neighbours.len())) / (
    neighbours.len() as real + 1 as real)
}

proof fn lemma_nearest_sum<F: CastTo<W>, W: Real>(
    vf: spec_fn(F) -> real,
    v: spec_fn(W) -> real,
    graph: &KGraph<F>,
    neighbours: Seq<OutEdge<F>>,
    first: W,
    rho: Seq<W>,
    n: nat,
)
    requires
        keeps_value(vf, v),
        are_nearest(graph, neighbours, first, rho),
        n <= neighbours.len(),
    ensures
        value_sum(v, rho.take(n as int)) == nearest_sum(vf, graph, neighbours, n),
    decreases n,
{
    if n > 0 {
        lemma_nearest_sum(vf, v, graph, neighbours, first, rho, (n - 1) as nat);
        assert(is_cast(graph.neighbours@[neighbours[n - 1].node as int]@[0].weight, rho[n - 1]));
        assert(rho.take(n as int).drop_last() =~= rho.take(n - 1));
        assert(rho.take(n as int).last() == rho[n - 1]);
    } else {
        assert(rho.take(0) =~= Seq::empty());
    }
}

/// The mean that was taken has the value of the mean.
proof fn lemma_local_mean<F: CastTo<W>, W: Real>(
    vf: spec_fn(F) -> real,
    v: spec_fn(W) -> real,
    graph: &KGraph<F>,
    neighbours: Seq<OutEdge<F>>,
    first: W,
    mean: W,
)
    requires
        is_exact(v),
        keeps_value(vf, v),
        0 < neighbours.len() < usize::MAX,
        v(first) == vf(neighbours[0].weight),
        is_nearest_mean(graph, neighbours, first, mean),
    ensures
        v(mean) == local_mean(vf, graph, neighbours),
{
    let (rho, sum, n) = choose|rho: Seq<W>, sum: W, n: W|
        #![trigger is_total(rho, sum), is_quot(sum, n, mean)]
        are_nearest(graph, neighbours, first, rho) && is_total(rho, sum) && is_count(
            rho.len() as usize,
            n,
        ) && is_quot(sum, n, mean);
    law_total_exact(v, rho, sum);
    lemma_nearest_sum(vf, v, graph, neighbours, first, rho, neighbours.len());
    assert(rho.drop_last() =~= rho.take(neighbours.len() as int));
    let (m, s, c) = (v(mean), v(sum), neighbours.len() as real + 1 as real);
    assert(v(n) == c);
    assert(m == s / c) by (nonlinear_arith)
        requires
            m * c == s,
            c > 0 as real,
    ;
}

/// The distances behind the parameters of a node, and the mean.
proof fn node_from<F: CastTo<W>, W: Real>(
    vf: spec_fn(F) -> real,
    v: spec_fn(W) -> real,
    graph: &KGraph<F>,
    neighbours: Seq<OutEdge<F>>,
    res: Result<NodeParam<W>, ScaleError>,
) -> (r: (Seq<W>, W))
    requires
        is_exact(v),
        keeps_value(vf, v),
        0 < neighbours.len() < usize::MAX,
        is_param_of(graph, neighbours, res),
    ensures
        is_param(neighbours, r.0, r.1, res),
        v(r.1) == local_mean(vf, graph, neighbours),
        r.0.len() == neighbours.len(),
        forall|k: int| 0 <= k < neighbours.len() ==> v(#[trigger] r.0[k]) == vf(neighbours[k].weight),
{
    let (dist, mean) = choose|dist: Seq<W>, mean: W|
        #![trigger is_param(neighbours, dist, mean, res)]
        are_casts(weights(neighbours), dist) && is_nearest_mean(
            graph,
            neighbours,
            dist.first(),
            mean,
        ) && is_param(neighbours, dist, mean, res);
    assert forall|k: int| 0 <= k < neighbours.len() implies v(#[trigger] dist[k]) == vf(
        neighbours[k].weight,
    ) by {
        assert(is_cast(weights(neighbours)[k], dist[k]));
        assert(weights(neighbours)[k] == neighbours[k].weight);
    }
    assert(v(dist[0]) == vf(neighbours[0].weight));
    lemma_local_mean(vf, v, graph, neighbours, dist.first(), mean);
    (dist, mean)
}

/// Why a node with these neighbours is given no parameters; `None` where it is given some.
pub open spec fn obstacle<F>(
    vf: spec_fn(F) -> real,
    graph: &KGraph<F>,
    neighbours: Seq<OutEdge<F>>,
) -> Option<ScaleError> {
    let (first, last) = (vf(neighbours[0].weight), vf(neighbours.last().weight));
    if local_mean(vf, graph, neighbours) <= 0 as real {
        Some(ScaleError::ScaleNotPositive)
    } else if first <= 0 as real || last <= 0 as real {
        Some(ScaleError::DistanceNotPositive)
    } else if last < first {
        Some(ScaleError::NotSorted)
    } else {
        None
    }
}

proof fn lemma_positive<W: Real>(v: spec_fn(W) -> real, a: W, r: bool)
    requires
        is_exact(v),
        is_positive(a, r),
    ensures
        r == (v(a) > 0 as real),
{
    let z = choose|z: W| is_zero(z) && is_below(z, a, r);
}

proof fn lemma_node_outcome<F: CastTo<W>, W: Real>(
    vf: spec_fn(F) -> real,
    v: spec_fn(W) -> real,
    e: spec_fn(real) -> real,
    graph: &KGraph<F>,
    neighbours: Seq<OutEdge<F>>,
    res: Result<NodeParam<W>, ScaleError>,
)
    requires
        is_exact(v),
        is_exponential(v, e),
        keeps_value(vf, v),
        0 < neighbours.len() < usize::MAX,
        is_param_of(graph, neighbours, res),
    ensures
        match res {
            Ok(param) => {
                &&& obstacle(vf, graph, neighbours) is None
                &&& v(param.scale) == local_mean(vf, graph, neighbours)
                &&& param.edges@.len() == neighbours.len()
                &&& forall|k: int|
                    0 <= k < neighbours.len() ==> (#[trigger] param.edges@[k]).node == neighbours[k].node
            },
            Err(error) => obstacle(vf, graph, neighbours) == Some(error),
        },
{
    let (dist, mean) = node_from(vf, v, graph, neighbours, res);
    law_range_not_too_wide(v, e, graph, neighbours, res);
    let n = neighbours.len() - 1;
    assert(v(dist[0]) == vf(neighbours[0].weight) && v(dist[n]) == vf(neighbours[n].weight));
    assert forall|a: W, r: bool| #[trigger] is_positive(a, r) implies r == (v(a) > 0 as real) by {
        lemma_positive(v, a, r);
    }
}

/// What a node is given: its scale is the mean of the distance to its nearest neighbour and of the
/// distances from each of its neighbours to theirs; its edges lead to its neighbours, in order. It
/// is refused where that mean is not positive, where the first or the last distance is not, and
/// where the last is below the first, in this order, and nowhere else.
pub proof fn law_node_scale<F: CastTo<W>, W: Real>(
    vf: spec_fn(F) -> real,
    v: spec_fn(W) -> real,
    e: spec_fn(real) -> real,
    graph: &KGraph<F>,
    neighbours: &Vec<OutEdge<F>>,
    res: Result<NodeParam<W>, ScaleError>,
)
    requires
        is_exact(v),
        is_exponential(v, e),
        keeps_value(vf, v),
        0 < neighbours@.len() < usize::MAX,
        call_ensures(get_scale_from_proba_normalisation::<F, W>, (graph, neighbours), res),
    ensures
        match res {
            Ok(param) => {
                &&& obstacle(vf, graph, neighbours@) is None
                &&& v(param.scale) * (neighbours@.len() as real + 1 as real) == vf(neighbours@[0].weight)
                    + nearest_sum(vf, graph, neighbours@, neighbours@.len())
                &&& param.edges@.len() == neighbours@.len()
                &&& forall|k: int|
                    0 <= k < neighbours@.len() ==> (#[trigger] param.edges@[k]).node
                        == neighbours@[k].node
            },
            Err(error) => obstacle(vf, graph, neighbours@) == Some(error),
        },
{
    lemma_node_outcome(vf, v, e, graph, neighbours@, res);
    let (s, c) = (
        vf(neighbours@[0].weight) + nearest_sum(vf, graph, neighbours@, neighbours@.len()),
        neighbours@.len() as real + 1 as real,
    );
    assert((s / c) * c == s) by (nonlinear_arith)
        requires
            c > 0 as real,
    ;
}

/// With everything else unchanged, the scale of a node grows with the distance to its nearest
/// neighbour, by as much as the mean of one more number does.
pub proof fn law_scale_grows_with_own_distance<F: CastTo<W>, W: Real>(
    vf: spec_fn(F) -> real,
    v: spec_fn(W) -> real,
    e: spec_fn(real) -> real,
    graph: &KGraph<F>,
    a: &Vec<OutEdge<F>>,
    p: NodeParam<W>,
    b: &Vec<OutEdge<F>>,
    q: NodeParam<W>,
)
    requires
        is_exact(v),
        is_exponential(v, e),
        keeps_value(vf, v),
        0 < a@.len() < usize::MAX,
        a@.len() == b@.len(),
        forall|k: int| 0 <= k < a@.len() ==> (#[trigger] a@[k]).node == b@[k].node,
        call_ensures(
            get_scale_from_proba_normalisation::<F, W>,
            (graph, a),
            Ok::<NodeParam<W>, ScaleError>(p),
        ),
        call_ensures(
            get_scale_from_proba_normalisation::<F, W>,
            (graph, b),
            Ok::<NodeParam<W>, ScaleError>(q),
        ),
    ensures
        (v(q.scale) - v(p.scale)) * (a@.len() as real + 1 as real) == vf(b@[0].weight) - vf(a@[0].weight),
{
    law_node_scale(vf, v, e, graph, a, Ok(p));
    law_node_scale(vf, v, e, graph, b, Ok(q));
    lemma_same_nearest(vf, graph, a@, b@, a@.len());
    let (x, y, c) = (v(p.scale), v(q.scale), a@.len() as real + 1 as real);
    assert((y - x) * c == y * c - x * c) by (nonlinear_arith);
}

proof fn lemma_same_nearest<F>(
    vf: spec_fn(F) -> real,
    graph: &KGraph<F>,
    a: Seq<OutEdge<F>>,
    b: Seq<OutEdge<F>>,
    n: nat,
)
    requires
        n <= a.len(),
        a.len() == b.len(),
        forall|k: int| 0 <= k < a.len() ==> (#[trigger] a[k]).node == b[k].node,
    ensures
        nearest_sum(vf, graph, a, n) == nearest_sum(vf, graph, b, n),
    decreases n,
{
    if n > 0 {
        lemma_same_nearest(vf, graph, a, b, (n - 1) as nat);
        assert(a[n - 1].node == b[n - 1].node);
    }
}

/// The scale that the probabilities of a node are taken with: the mean, or where the range of the
/// distances is more than `l` times the mean, the range over `l`.
pub open spec fn proba_scale(mean: real, range: real, l: real) -> real {
    if range > mean * l {
        range / l
    } else {
        mean
    }
}

proof fn lemma_adjusted_value<W: Real>(
    v: spec_fn(W) -> real,
    e: spec_fn(real) -> real,
    first: W,
    last: W,
    mean: W,
    scale: W,
    stretched: bool,
) -> (l: real)
    requires
        is_exact(v),
        is_exponential(v, e),
        v(mean) > 0 as real,
        v(first) < v(last),
        is_adjusted_scale(first, last, mean, scale, stretched),
    ensures
        l > 0 as real,
        e(-l) * (100000 as real) == 1 as real,
        v(scale) == proba_scale(v(mean), v(last) - v(first), l),
        v(scale) > 0 as real,
{
    let (lambda, one) = choose|lambda: W, one: W|
        is_stretch(first, last, mean, lambda) && is_one(one) && is_below(one, lambda, stretched) && (
        if stretched {
            is_prod(mean, lambda, scale)
        } else {
            scale == mean
        });
    let (range, least, ln, m, d) = choose|range: W, least: W, l: W, m: W, d: W|
        is_diff(last, first, range) && is_ratio(1, PROBA_MIN_INVERSE, least) && is_ln(least, l)
            && is_neg(l, m) && is_prod(mean, m, d) && is_quot(range, d, lambda);
    let l = -v(ln);
    assert(v(least) * (100000 as real) == 1 as real);
    assert(e(-l) * (100000 as real) == 1 as real);
    lemma_exp_zero(e);
    assert(l > 0 as real) by {
        if l <= 0 as real {
            assert(e(0 as real) <= e(-l));
        }
    }
    let (mv, lv, rv, sv) = (v(mean), v(lambda), v(range), v(scale));
    let dv = mv * l;
    assert(v(d) == dv);
    assert(dv > 0 as real) by (nonlinear_arith)
        requires
            dv == mv * l,
            mv > 0 as real,
            l > 0 as real,
    ;
    assert(lv * dv == rv);
    assert((lv > 1 as real) == (rv > dv)) by (nonlinear_arith)
        requires
            lv * dv == rv,
            dv > 0 as real,
    ;
    if stretched {
        assert(sv * l == rv) by (nonlinear_arith)
            requires
                sv == mv * lv,
                dv == mv * l,
                lv * dv == rv,
        ;
        assert(sv == rv / l) by (nonlinear_arith)
            requires
                sv * l == rv,
                l > 0 as real,
        ;
        assert(sv > 0 as real) by (nonlinear_arith)
            requires
                sv * l == rv,
                rv > 0 as real,
                l > 0 as real,
        ;
    }
    l
}

/// `l` is `-ln(0.00001)`, and the probabilities of the edges stand to one another as `exp(-d / s)`
/// of the distances `d` does, `s` being the scale that goes with `l`; they are equal where the
/// first and the last distance are.
pub open spec fn are_proportional<F, W>(
    vf: spec_fn(F) -> real,
    v: spec_fn(W) -> real,
    e: spec_fn(real) -> real,
    neighbours: Seq<OutEdge<F>>,
    param: NodeParam<W>,
    l: real,
) -> bool {
    let range = vf(neighbours.last().weight) - vf(neighbours[0].weight);
    let s = proba_scale(v(param.scale), range, l);
    &&& range > 0 as real ==> l > 0 as real && e(-l) * (100000 as real) == 1 as real
    &&& forall|j: int, k: int|
        0 <= j < neighbours.len() && 0 <= k < neighbours.len() ==> {
            let (p, q) = (v((#[trigger] param.edges@[j]).weight), v((#[trigger] param.edges@[k]).weight));
            if range > 0 as real {
                p * e(-vf(neighbours[k].weight) / s) == q * e(-vf(neighbours[j].weight) / s)
            } else {
                p == q
            }
        }
}

/// What a node with these neighbours has: its scale is the mean of the distance to its nearest
/// neighbour and of the distances from each of its neighbours to theirs. Its edges lead to its
/// neighbours, in order, and their probabilities sum to 1 and are proportional to `exp(-d / s)`.
pub open spec fn is_node_value<F, W>(
    vf: spec_fn(F) -> real,
    v: spec_fn(W) -> real,
    e: spec_fn(real) -> real,
    graph: &KGraph<F>,
    neighbours: Seq<OutEdge<F>>,
    param: NodeParam<W>,
) -> bool {
    &&& obstacle(vf, graph, neighbours) is None
    &&& v(param.scale) * (neighbours.len() as real + 1 as real) == vf(neighbours[0].weight) + nearest_sum(
        vf,
        graph,
        neighbours,
        neighbours.len(),
    )
    &&& param.edges@.len() == neighbours.len()
    &&& forall|k: int|
        0 <= k < neighbours.len() ==> (#[trigger] param.edges@[k]).node == neighbours[k].node
    &&& value_sum(v, weights(param.edges@)) == 1 as real
    &&& exists|l: real| are_proportional(vf, v, e, neighbours, param, l)
}

/// The probabilities of a node stand to one another as `exp(-d / s)` of the distances.
proof fn lemma_probabilities<F: CastTo<W>, W: Real>(
    vf: spec_fn(F) -> real,
    v: spec_fn(W) -> real,
    e: spec_fn(real) -> real,
    graph: &KGraph<F>,
    neighbours: Seq<OutEdge<F>>,
    param: NodeParam<W>,
) -> (l: real)
    requires
        is_exact(v),
        is_exponential(v, e),
        keeps_value(vf, v),
        0 < neighbours.len() < usize::MAX,
        is_param_of(graph, neighbours, Ok(param)),
    ensures
        value_sum(v, weights(param.edges@)) == 1 as real,
        are_proportional(vf, v, e, neighbours, param, l),
{
    let probas = weights(param.edges@);
    let (dist, mean) = node_from(vf, v, graph, neighbours, Ok(param));
    assert(has_positive_exp(v));
    law_probabilities_sum_to_one(v, graph, neighbours, param, 0);
    let n = neighbours.len() - 1;
    assert(v(dist[0]) == vf(neighbours[0].weight) && v(dist[n]) == vf(neighbours[n].weight));
    assert(is_proba(dist, mean, probas));
    lemma_positive(v, mean, true);
    assert(probas.len() == neighbours.len());
    assert forall|k: int| 0 <= k < neighbours.len() implies probas[k] == (#[trigger] param.edges@[k]).weight by {}
    if v(dist[0]) < v(dist[n]) {
        let raw = choose|raw: Seq<W>|
            #![trigger is_normalized(raw, probas)]
            is_raw_proba(dist, mean, raw, true) && is_normalized(raw, probas);
        let sum = choose|sum: W|
            #![trigger is_total(raw, sum)]
            is_total(raw, sum) && forall|a: int|
                0 <= a < raw.len() ==> is_quot(raw[a], sum, #[trigger] probas[a]);
        let (scale, stretched) = choose|scale: W, stretched: bool|
            is_adjusted_scale(dist.first(), dist.last(), mean, scale, stretched) && are_affinities(
                dist,
                scale,
                raw,
            );
        let l = lemma_adjusted_value(v, e, dist.first(), dist.last(), mean, scale, stretched);
        law_total_exact(v, raw, sum);
        lemma_raw_sum_positive(v, dist, mean, raw);
        let (s, t) = (v(scale), v(sum));
        assert forall|k: int| 0 <= k < neighbours.len() implies v((#[trigger] param.edges@[k]).weight) * t == e(
            -vf(neighbours[k].weight) / s,
        ) by {
            assert(probas[k] == param.edges@[k].weight);
            assert(v(dist[k]) == vf(neighbours[k].weight));
            assert(is_quot(raw[k], sum, probas[k]));
            assert(is_affinity(dist[k], scale, raw[k]));
            let a = affinity_exponent(v, e, dist[k], scale, raw[k]);
            let x = -v(dist[k]);
            assert(a == x / s) by (nonlinear_arith)
                requires
                    a * s == x,
                    s > 0 as real,
            ;
        }
        assert forall|j: int, k: int| 0 <= j < neighbours.len() && 0 <= k < neighbours.len() implies v(
            (#[trigger] param.edges@[j]).weight,
        ) * e(-vf(neighbours[k].weight) / s) == v((#[trigger] param.edges@[k]).weight) * e(
            -vf(neighbours[j].weight) / s,
        ) by {
            let (p, q) = (v(param.edges@[j].weight), v(param.edges@[k].weight));
            let (f, g) = (e(-vf(neighbours[j].weight) / s), e(-vf(neighbours[k].weight) / s));
            assert(p * g == q * f) by (nonlinear_arith)
                requires
                    p * t == f,
                    q * t == g,
            ;
        }
        l
    } else {
        assert forall|j: int, k: int| 0 <= j < neighbours.len() && 0 <= k < neighbours.len() implies v(
            (#[trigger] param.edges@[j]).weight,
        ) == v((#[trigger] param.edges@[k]).weight) by {
            assert(probas[j] == param.edges@[j].weight && probas[k] == param.edges@[k].weight);
            assert(probas[j] == probas[k]);
        }
        1 as real
    }
}

/// A node that is given parameters has them.
pub proof fn lemma_node_value<F: CastTo<W>, W: Real>(
    vf: spec_fn(F) -> real,
    v: spec_fn(W) -> real,
    e: spec_fn(real) -> real,
    graph: &KGraph<F>,
    neighbours: Seq<OutEdge<F>>,
    param: NodeParam<W>,
)
    requires
        is_exact(v),
        is_exponential(v, e),
        keeps_value(vf, v),
        0 < neighbours.len() < usize::MAX,
        is_param_of(graph, neighbours, Ok(param)),
    ensures
        is_node_value(vf, v, e, graph, neighbours, param),
        v(param.scale) > 0 as real,
{
    lemma_node_outcome(vf, v, e, graph, neighbours, Ok(param));
    let (s, c) = (
        vf(neighbours[0].weight) + nearest_sum(vf, graph, neighbours, neighbours.len()),
        neighbours.len() as real + 1 as real,
    );
    assert((s / c) * c == s) by (nonlinear_arith)
        requires
            c > 0 as real,
    ;
    let range = vf(neighbours.last().weight) - vf(neighbours[0].weight);
    let l = lemma_probabilities(vf, v, e, graph, neighbours, param);
    assert(are_proportional(vf, v, e, neighbours, param, l));
}

/// The probabilities of a node stand to one another as `exp(-d / s)` of the distances `d` does. The
/// scale `s` is the scale of the node, or the range of the distances over `-ln(0.00001)` where that
/// is greater; `l` is `-ln(0.00001)`. Where the first and the last distance are equal the
/// probabilities are equal. In either case they sum to 1.
pub proof fn law_node_probabilities<F: CastTo<W>, W: Real>(
    vf: spec_fn(F) -> real,
    v: spec_fn(W) -> real,
    e: spec_fn(real) -> real,
    graph: &KGraph<F>,
    neighbours: &Vec<OutEdge<F>>,
    param: NodeParam<W>,
    j: int,
    k: int,
) -> (l: real)
    requires
        is_exact(v),
        is_exponential(v, e),
        keeps_value(vf, v),
        0 < neighbours@.len() < usize::MAX,
        call_ensures(
            get_scale_from_proba_normalisation::<F, W>,
            (graph, neighbours),
            Ok::<NodeParam<W>, ScaleError>(param),
        ),
        0 <= j < neighbours@.len(),
        0 <= k < neighbours@.len(),
    ensures
        value_sum(v, weights(param.edges@)) == 1 as real,
        ({
            let range = vf(neighbours@.last().weight) - vf(neighbours@[0].weight);
            let (p, q) = (v(param.edges@[j].weight), v(param.edges@[k].weight));
            let s = proba_scale(v(param.scale), range, l);
            &&& range == 0 as real ==> p == q
            &&& range > 0 as real ==> l > 0 as real && e(-l) * (100000 as real) == 1 as real && p * e(
                -vf(neighbours@[k].weight) / s,
            ) == q * e(-vf(neighbours@[j].weight) / s)
        }),
{
    lemma_node_outcome(vf, v, e, graph, neighbours@, Ok(param));
    let l = lemma_probabilities(vf, v, e, graph, neighbours@, param);
    assert(are_proportional(vf, v, e, neighbours@, param, l));
    assert(param.edges@[j].weight == param.edges@[j].weight && param.edges@[k].weight == param.edges@[k].weight);
    l
}

/// A refusal is that of the first node that is refused.
pub proof fn lemma_refusal<F: CastTo<W>, W: Real>(
    vf: spec_fn(F) -> real,
    v: spec_fn(W) -> real,
    e: spec_fn(real) -> real,
    graph: &KGraph<F>,
    error: ScaleError,
)
    requires
        is_exact(v),
        is_exponential(v, e),
        keeps_value(vf, v),
        graph.wf(),
        forall|a: int|
            0 <= a < graph.neighbours@.len() ==> (#[trigger] graph.neighbours@[a])@.len() < usize::MAX,
        is_refused::<F, W>(graph, error),
    ensures
        is_first_obstacle(vf, graph, error),
{
    let params = choose|params: Seq<NodeParam<W>>|
        params.len() < graph.neighbours@.len() && (forall|a: int|
            0 <= a < params.len() ==> is_param_of(
                graph,
                graph.neighbours@[a]@,
                Ok(#[trigger] params[a]),
            )) && #[trigger] is_param_of(
            graph,
            graph.neighbours@[params.len() as int]@,
            Err::<NodeParam<W>, ScaleError>(error),
        );
    let a = params.len() as int;
    assert(graph.neighbours@[a]@.len() > 0);
    lemma_node_outcome(
        vf,
        v,
        e,
        graph,
        graph.neighbours@[a]@,
        Err::<NodeParam<W>, ScaleError>(error),
    );
    assert forall|m: int| 0 <= m < a implies obstacle(vf, graph, (#[trigger] graph.neighbours@[m])@) is None by {
        assert(graph.neighbours@[m]@.len() > 0);
        assert(is_param_of(graph, graph.neighbours@[m]@, Ok(params[m])));
        lemma_node_outcome(vf, v, e, graph, graph.neighbours@[m]@, Ok(params[m]));
    }
}

/// `error` is why one of the nodes of the graph is refused, and the nodes before it are not.
pub open spec fn is_first_obstacle<F>(
    vf: spec_fn(F) -> real,
    graph: &KGraph<F>,
    error: ScaleError,
) -> bool {
    exists|a: int|
        0 <= a < graph.neighbours@.len() && obstacle(vf, graph, (#[trigger] graph.neighbours@[a])@) == Some(
            error,
        ) && forall|m: int|
            0 <= m < a ==> obstacle(vf, graph, (#[trigger] graph.neighbours@[m])@) is None
}

/// Every node of the graph is given what its neighbours give it: the scale is the mean of the
/// distance to its nearest neighbour and of the distances from each of its neighbours to theirs,
/// and the probabilities sum to 1 and are proportional to `exp(-d / s)`. There are parameters where
/// no node is refused; otherwise the refusal is that of the first node that is.
pub proof fn law_node_params<F: CastTo<W>, W: Real>(
    vf: spec_fn(F) -> real,
    v: spec_fn(W) -> real,
    e: spec_fn(real) -> real,
    graph: &KGraph<F>,
    res: Result<NodeParams<W>, ScaleError>,
    i: int,
)
    requires
        is_exact(v),
        is_exponential(v, e),
        keeps_value(vf, v),
        graph.wf(),
        forall|a: int|
            0 <= a < graph.neighbours@.len() ==> (#[trigger] graph.neighbours@[a])@.len() < usize::MAX,
        call_ensures(node_params::<F, W>, (graph,), res),
        0 <= i < graph.neighbours@.len(),
    ensures
        match res {
            Ok(all) => all.params@.len() == graph.neighbours@.len() && is_node_value(
                vf,
                v,
                e,
                graph,
                graph.neighbours@[i]@,
                all.params@[i],
            ),
            Err(error) => is_first_obstacle(vf, graph, error),
        },
{
    match res {
        Ok(all) => {
            let neighbours = graph.neighbours@[i]@;
            let param = all.params@[i];
            assert(is_param_of(graph, neighbours, Ok(param)));
            lemma_node_value(vf, v, e, graph, neighbours, param);
        },
        Err(error) => {
            lemma_refusal(vf, v, e, graph, error);
        },
    }
}

} // verus!
