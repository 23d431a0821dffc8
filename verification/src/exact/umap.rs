//! The scale of a node by dichotomy in exact arithmetic.
use vstd::prelude::*;

use crate::dichotomy::{is_solution, DichotomyError};
use crate::exact::scale::{is_exponential, lemma_exp_zero};
use crate::exact::search::{
    has_extremes, has_values, is_close, lemma_diagnosed, lemma_off, lemma_state,
    lemma_two_to_positive, root_state, two_to,
};
use crate::exact::{is_exact, keeps_value, law_total_exact, value_sum};
use crate::graph::OutEdge;
use crate::number::{
    are_casts, is_at_most, is_cast, is_diff, is_exp, is_greatest, is_neg, is_one, is_prod, is_quot,
    is_ratio, is_total, is_zero, CastTo, Real,
};
use crate::scale::{
    are_umap_probas, get_scale_from_umap, is_doubled, is_enough, is_umap_end, is_umap_proba,
    is_umap_scale, umap_sums, weights, MAX_DOUBLINGS,
};

verus! {

/// The sum of `exp(-beta (d - first))` over the first `n` distances `d`, `first` being the first of
/// all.
pub open spec fn spread_sum<T>(
    v: spec_fn(T) -> real,
    e: spec_fn(real) -> real,
    dist: Seq<T>,
    beta: real,
    n: nat,
) -> real
    decreases n,
{
    if n == 0 {
        0 as real
    } else {
        spread_sum(v, e, dist, beta, (n - 1) as nat) + e(-(v(dist[n - 1]) - v(dist[0])) * beta)
    }
}

proof fn lemma_umap_proba<W: Real>(
    v: spec_fn(W) -> real,
    e: spec_fn(real) -> real,
    d: W,
    rho: W,
    beta: W,
    r: W,
)
    requires
        is_exact(v),
        is_exponential(v, e),
        is_umap_proba(d, rho, beta, r),
    ensures
        v(r) == e(-(v(d) - v(rho)) * v(beta)),
{
    let (gap, m, p) = choose|gap: W, m: W, p: W|
        is_diff(d, rho, gap) && is_neg(gap, m) && is_prod(m, beta, p) && is_exp(p, r);
    assert(v(p) == -(v(d) - v(rho)) * v(beta));
}

proof fn lemma_umap_sum<W: Real>(
    v: spec_fn(W) -> real,
    e: spec_fn(real) -> real,
    dist: Seq<W>,
    beta: W,
    probas: Seq<W>,
    n: nat,
)
    requires
        is_exact(v),
        is_exponential(v, e),
        are_umap_probas(dist, beta, probas),
        n <= dist.len(),
    ensures
        value_sum(v, probas.take(n as int)) == spread_sum(v, e, dist, v(beta), n),
    decreases n,
{
    if n > 0 {
        lemma_umap_sum(v, e, dist, beta, probas, (n - 1) as nat);
        assert(is_umap_proba(dist[n - 1], dist.first(), beta, probas[n - 1]));
        lemma_umap_proba(v, e, dist[n - 1], dist.first(), beta, probas[n - 1]);
        assert(probas.take(n as int).drop_last() =~= probas.take(n - 1));
        assert(probas.take(n as int).last() == probas[n - 1]);
    } else {
        assert(probas.take(0) =~= Seq::empty());
    }
}

/// The sum of the probabilities as a function of real numbers.
spec fn spread<W>(v: spec_fn(W) -> real, e: spec_fn(real) -> real, dist: Seq<W>) -> spec_fn(real) -> real {
    |beta: real| spread_sum(v, e, dist, beta, dist.len())
}

proof fn lemma_umap_values<W: Real>(v: spec_fn(W) -> real, e: spec_fn(real) -> real, dist: Seq<W>)
    requires
        is_exact(v),
        is_exponential(v, e),
    ensures
        has_values(v, umap_sums(dist), spread(v, e, dist)),
{
    let f = umap_sums(dist);
    assert forall|beta: W, sum: W| #[trigger] f(beta, sum) implies v(sum) == spread(v, e, dist)(v(beta)) by {
        let probas = choose|probas: Seq<W>|
            #![trigger is_total(probas, sum)]
            are_umap_probas(dist, beta, probas) && is_total(probas, sum);
        lemma_umap_sum(v, e, dist, beta, probas, dist.len());
        assert(probas.take(dist.len() as int) =~= probas);
        law_total_exact(v, probas, sum);
    }
}

/// The distances behind a scale, and the norm.
proof fn umap_from<D: CastTo<W>, F: CastTo<W>, W: Real>(
    norm: D,
    neighbours: &Vec<OutEdge<F>>,
    res: Result<(W, Vec<W>), DichotomyError>,
) -> (r: (W, Seq<W>))
    requires
        call_ensures(get_scale_from_umap::<D, F, W>, (norm, neighbours), res),
    ensures
        is_cast(norm, r.0),
        are_casts(weights(neighbours@), r.1),
        is_umap_scale(r.0, r.1, res),
{
    choose|target: W, dist: Seq<W>|
        #![trigger is_umap_scale(target, dist, res)]
        is_cast(norm, target) && are_casts(weights(neighbours@), dist) && is_umap_scale(
            target,
            dist,
            res,
        )
}

/// Distances of the same values have the same sum.
proof fn lemma_same_spread<F, W>(
    vf: spec_fn(F) -> real,
    v: spec_fn(W) -> real,
    e: spec_fn(real) -> real,
    a: Seq<F>,
    b: Seq<W>,
    beta: real,
    n: nat,
)
    requires
        a.len() == b.len(),
        forall|k: int| 0 <= k < a.len() ==> vf(a[k]) == v(#[trigger] b[k]),
        n <= a.len(),
    ensures
        spread_sum(vf, e, a, beta, n) == spread_sum(v, e, b, beta, n),
    decreases n,
{
    if n > 0 {
        lemma_same_spread(vf, v, e, a, b, beta, (n - 1) as nat);
        assert(vf(a[n - 1]) == v(b[n - 1]) && vf(a[0]) == v(b[0]));
    }
}

proof fn lemma_distances<F: CastTo<W>, W>(
    vf: spec_fn(F) -> real,
    v: spec_fn(W) -> real,
    neighbours: Seq<OutEdge<F>>,
    dist: Seq<W>,
)
    requires
        keeps_value(vf, v),
        are_casts(weights(neighbours), dist),
    ensures
        dist.len() == neighbours.len(),
        forall|k: int| 0 <= k < dist.len() ==> vf(weights(neighbours)[k]) == v(#[trigger] dist[k]),
        forall|k: int| 0 <= k < dist.len() ==> vf(neighbours[k].weight) == v(#[trigger] dist[k]),
{
    assert forall|k: int| 0 <= k < dist.len() implies vf(weights(neighbours)[k]) == v(
        #[trigger] dist[k],
    ) && vf(neighbours[k].weight) == v(dist[k]) by {
        assert(is_cast(weights(neighbours)[k], dist[k]));
        assert(weights(neighbours)[k] == neighbours[k].weight);
    }
}

/// The probabilities that come with a scale are `exp(-(d - first) / scale)`, of the distance `d` to
/// each neighbour and the distance `first` to the nearest, and their sum is within 0.00001 of the
/// norm. The scale is positive.
pub proof fn law_umap_scale<D: CastTo<W>, F: CastTo<W>, W: Real>(
    vd: spec_fn(D) -> real,
    vf: spec_fn(F) -> real,
    v: spec_fn(W) -> real,
    e: spec_fn(real) -> real,
    norm: D,
    neighbours: &Vec<OutEdge<F>>,
    res: Result<(W, Vec<W>), DichotomyError>,
)
    requires
        is_exact(v),
        is_exponential(v, e),
        keeps_value(vd, v),
        keeps_value(vf, v),
        neighbours@.len() > 0,
        call_ensures(get_scale_from_umap::<D, F, W>, (norm, neighbours), res),
    ensures
        res matches Ok((scale, probas)) ==> {
            &&& v(scale) > 0 as real
            &&& probas@.len() == neighbours@.len()
            &&& forall|k: int|
                0 <= k < probas@.len() ==> v(#[trigger] probas@[k]) == e(
                    -(vf(neighbours@[k].weight) - vf(neighbours@[0].weight)) / v(scale),
                )
            &&& -(1 as real) <= (value_sum(v, probas@) - vd(norm)) * (100000 as real) <= 1 as real
        },
{
    let (target, dist) = umap_from::<D, F, W>(norm, neighbours, res);
    lemma_distances(vf, v, neighbours@, dist);
    if let Ok((scale, probas)) = res {
        let (zero, upper, root) = choose|zero: W, upper: W, root: Result<W, DichotomyError>|
            #![trigger is_solution(false, umap_sums(dist), zero, upper, target, root)]
            is_zero(zero) && is_umap_end(target, dist, upper) && is_solution(
                false,
                umap_sums(dist),
                zero,
                upper,
                target,
                root,
            ) && match (root, res) {
                (Err(error), Err(refusal)) => refusal == error,
                (Ok(beta), Ok((scale, probas))) => are_umap_probas(dist, beta, probas@) && exists|
                    one: W,
                |
                    is_one(one) && is_quot(one, beta, scale),
                _ => false,
            };
        let beta = root.unwrap();
        let one = choose|one: W| is_one(one) && is_quot(one, beta, scale);
        let g = spread(v, e, dist);
        lemma_umap_values(v, e, dist);
        let (n, s, y) = root_state(false, umap_sums(dist), zero, upper, target, beta);
        lemma_state(v, g, false, umap_sums(dist), zero, upper, target, n, s);
        lemma_off(v, target, y, false);
        let (b, t) = (v(beta), v(scale));
        assert(b > 0 as real);
        assert(t * b == 1 as real);
        assert(t > 0 as real) by (nonlinear_arith)
            requires
                t * b == 1 as real,
                b > 0 as real,
        ;
        assert forall|k: int| 0 <= k < probas@.len() implies v(#[trigger] probas@[k]) == e(
            -(vf(neighbours@[k].weight) - vf(neighbours@[0].weight)) / t,
        ) by {
            assert(is_umap_proba(dist[k], dist.first(), beta, probas@[k]));
            lemma_umap_proba(v, e, dist[k], dist.first(), beta, probas@[k]);
            assert(vf(neighbours@[k].weight) == v(dist[k]) && vf(neighbours@[0].weight) == v(dist[0]));
            let x = -(v(dist[k]) - v(dist[0]));
            assert(x * b == x / t) by (nonlinear_arith)
                requires
                    t * b == 1 as real,
                    t > 0 as real,
            ;
        }
        lemma_umap_sum(v, e, dist, beta, probas@, dist.len());
        assert(probas@.take(dist.len() as int) =~= probas@);
        assert(is_close(g(b), v(target)));
    }
}

/// With `beta` 0 every probability is 1.
proof fn lemma_spread_zero<W>(v: spec_fn(W) -> real, e: spec_fn(real) -> real, dist: Seq<W>, n: nat)
    requires
        e(0 as real) == 1 as real,
    ensures
        spread_sum(v, e, dist, 0 as real, n) == n as real,
    decreases n,
{
    if n > 0 {
        lemma_spread_zero(v, e, dist, (n - 1) as nat);
        let x = -(v(dist[n - 1]) - v(dist[0]));
        assert(x * (0 as real) == 0 as real) by (nonlinear_arith);
    }
}

/// No probability is above 1 where the first neighbour is the nearest.
proof fn lemma_spread_below<W>(
    v: spec_fn(W) -> real,
    e: spec_fn(real) -> real,
    dist: Seq<W>,
    beta: real,
    n: nat,
)
    requires
        e(0 as real) == 1 as real,
        forall|x: real, y: real| x <= y ==> #[trigger] e(x) <= #[trigger] e(y),
        beta >= 0 as real,
        n <= dist.len(),
        forall|k: int| 0 <= k < dist.len() ==> v(dist[0]) <= v(#[trigger] dist[k]),
    ensures
        spread_sum(v, e, dist, beta, n) <= n as real,
    decreases n,
{
    if n > 0 {
        lemma_spread_below(v, e, dist, beta, (n - 1) as nat);
        assert(v(dist[0]) <= v(dist[n - 1]));
        let x = -(v(dist[n - 1]) - v(dist[0]));
        assert(x * beta <= 0 as real) by (nonlinear_arith)
            requires
                x <= 0 as real,
                beta >= 0 as real,
        ;
        assert(e(x * beta) <= e(0 as real));
    }
}

proof fn lemma_enough<W: Real>(
    v: spec_fn(W) -> real,
    e: spec_fn(real) -> real,
    norm: W,
    dist: Seq<W>,
    beta: W,
    r: bool,
)
    requires
        is_exact(v),
        is_exponential(v, e),
        is_enough(norm, dist, beta, r),
    ensures
        r == (spread_sum(v, e, dist, v(beta), dist.len()) <= v(norm)),
{
    let sum = choose|sum: W| #[trigger] umap_sums(dist)(beta, sum) && is_at_most(sum, norm, r);
    lemma_umap_values(v, e, dist);
    let f = umap_sums(dist);
    assert(f(beta, sum));
}

/// The powers of two are tried one after the other.
proof fn lemma_doubled<W: Real>(
    v: spec_fn(W) -> real,
    e: spec_fn(real) -> real,
    norm: W,
    dist: Seq<W>,
    n: nat,
    u: W,
    m: nat,
)
    requires
        is_exact(v),
        is_exponential(v, e),
        is_doubled(norm, dist, n, u),
    ensures
        v(u) == two_to(n),
        m < n ==> spread_sum(v, e, dist, two_to(m), dist.len()) > v(norm),
    decreases n,
{
    if n > 0 {
        let (p, two) = choose|p: W, two: W|
            #![trigger is_prod(p, two, u)]
            is_doubled(norm, dist, (n - 1) as nat, p) && is_enough(norm, dist, p, false) && is_ratio(
                2,
                1,
                two,
            ) && is_prod(p, two, u);
        lemma_doubled(v, e, norm, dist, (n - 1) as nat, p, m);
        lemma_enough(v, e, norm, dist, p, false);
        assert(v(two) * (1 as real) == 2 as real);
        let x = v(p);
        assert(x * (2 as real) == 2 as real * x) by (nonlinear_arith);
    }
}

/// Where the first neighbour is the nearest, the search is refused exactly where the norm is above
/// the number of neighbours, or so low that not even 2 to the power 127 takes the sum under it:
/// with such a norm it never is refused.
pub proof fn law_umap_refusals<D: CastTo<W>, F: CastTo<W>, W: Real>(
    vd: spec_fn(D) -> real,
    vf: spec_fn(F) -> real,
    v: spec_fn(W) -> real,
    e: spec_fn(real) -> real,
    norm: D,
    neighbours: &Vec<OutEdge<F>>,
    res: Result<(W, Vec<W>), DichotomyError>,
    m: nat,
)
    requires
        is_exact(v),
        has_extremes(v),
        is_exponential(v, e),
        forall|r: W| #[trigger] is_greatest(r) ==> v(r) > 0 as real,
        keeps_value(vd, v),
        keeps_value(vf, v),
        neighbours@.len() > 0,
        forall|k: int|
            0 <= k < neighbours@.len() ==> vf(neighbours@[0].weight) <= vf(
                (#[trigger] neighbours@[k]).weight,
            ),
        call_ensures(get_scale_from_umap::<D, F, W>, (norm, neighbours), res),
    ensures
        vd(norm) > neighbours@.len() as real ==> res == Err::<(W, Vec<W>), DichotomyError>(
            DichotomyError::TargetOutOfRange,
        ),
        vd(norm) <= neighbours@.len() as real && m <= 127 && spread_sum(
            vf,
            e,
            weights(neighbours@),
            two_to(m),
            neighbours@.len(),
        ) <= vd(norm) ==> res is Ok || res == Err::<(W, Vec<W>), DichotomyError>(
            DichotomyError::NoConvergence,
        ),
{
    let (target, dist) = umap_from::<D, F, W>(norm, neighbours, res);
    lemma_distances(vf, v, neighbours@, dist);
    let count = dist.len();
    let (zero, upper, root) = choose|zero: W, upper: W, root: Result<W, DichotomyError>|
        #![trigger is_solution(false, umap_sums(dist), zero, upper, target, root)]
        is_zero(zero) && is_umap_end(target, dist, upper) && is_solution(
            false,
            umap_sums(dist),
            zero,
            upper,
            target,
            root,
        ) && match (root, res) {
            (Err(error), Err(refusal)) => refusal == error,
            (Ok(beta), Ok((scale, probas))) => are_umap_probas(dist, beta, probas@) && exists|one: W|
                is_one(one) && is_quot(one, beta, scale),
            _ => false,
        };
    let g = spread(v, e, dist);
    lemma_umap_values(v, e, dist);
    lemma_exp_zero(e);
    lemma_spread_zero(v, e, dist, count);
    lemma_same_spread(vf, v, e, weights(neighbours@), dist, two_to(m), count);
    let enough = if exists|n: nat|
        n <= MAX_DOUBLINGS && #[trigger] is_doubled(target, dist, n, upper) && is_enough(
            target,
            dist,
            upper,
            true,
        ) {
        let n = choose|n: nat|
            n <= MAX_DOUBLINGS && #[trigger] is_doubled(target, dist, n, upper) && is_enough(
                target,
                dist,
                upper,
                true,
            );
        lemma_doubled(v, e, target, dist, n, upper, m);
        lemma_two_to_positive(n);
        lemma_enough(v, e, target, dist, upper, true);
        true
    } else {
        let (n, u) = choose|n: nat, u: W|
            n == MAX_DOUBLINGS && #[trigger] is_doubled(target, dist, n, u) && is_enough(
                target,
                dist,
                u,
                false,
            );
        lemma_doubled(v, e, target, dist, n, u, m);
        lemma_enough(v, e, target, dist, u, false);
        false
    };
    assert(v(upper) > 0 as real);
    assert forall|k: int| 0 <= k < dist.len() implies v(dist[0]) <= v(#[trigger] dist[k]) by {
        assert(vf(neighbours@[0].weight) <= vf(neighbours@[k].weight));
        assert(vf(neighbours@[0].weight) == v(dist[0]));
    }
    lemma_spread_below(v, e, dist, v(upper), count);
    assert(g(v(zero)) == count as real && g(v(upper)) <= count as real);
    let error = match root {
        Ok(_) => None,
        Err(DichotomyError::NoConvergence) => None,
        Err(other) => Some(other),
    };
    assert(root != Err::<W, DichotomyError>(DichotomyError::EmptyInterval));
    lemma_diagnosed(v, g, false, umap_sums(dist), zero, upper, target, error);
}

} // verus!
