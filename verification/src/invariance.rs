//! What the outcomes do not depend on: the sign of the function whose root is searched, the unit of the
//! distances, the order of the two ends of an embedded edge.
//!
//! Each law names the properties of the arithmetic that it needs.
use vstd::prelude::*;

use crate::dichotomy::{
    is_bisection, is_diagnosed, is_diagnosis, is_off, is_out_of_range, is_reached, is_root,
    is_solution, Bracket, DichotomyError, MAX_BISECTIONS,
};
use crate::entropy::{is_cauchy, is_cauchy_weight, is_scaled_distance, is_squared_distance};
use crate::graph::{KGraph, OutEdge};
use crate::number::{
    are_casts, casts_once, is_at_most, is_below, is_cast, is_count, is_deterministic, is_diff, is_exp,
    is_greater_of,
    is_lesser_of, is_ln, is_magnitude, is_midpoint, is_neg, is_normal, is_one, is_prod, is_quot, is_ratio, is_squared_gap,
    is_sum, is_total, is_zero, sums_to, CastTo, Real,
};
use crate::scale::{
    are_affinities, are_nearest, is_adjusted_scale, is_affinity, is_least, is_nearest_mean, is_normalized, is_param,
    is_param_of, is_proba, is_raw_proba, is_stretch, is_uniform, same_targets, weights, NodeParam,
    ScaleError, PROBA_MIN_INVERSE,
};
use crate::unique::scale::lemma_normalized_unique;
use crate::unique::search::{is_function, law_solution_unique};

verus! {

/// The number has an opposite.
pub open spec fn has_opposite<T: Real>(a: T) -> bool {
    exists|r: T| is_neg(a, r)
}

/// `g` is how far `b` is from `a`.
pub open spec fn is_gap<T: Real>(a: T, b: T, g: T) -> bool {
    exists|d: T| is_diff(a, b, d) && is_magnitude(d, g)
}

/// Every number has an opposite. Opposite numbers compare the other way round, the lesser of them is the opposite
/// of the greater, and they are as far apart. Of two numbers that are further apart than the tolerance of the
/// search one is below the other.
pub open spec fn mirrors<T: Real>() -> bool {
    &&& forall|a: T| #[trigger] has_opposite(a)
    &&& forall|a: T, b: T, x: T, y: T, r: bool|
        #![trigger is_neg(a, x), is_neg(b, y), is_below(a, b, r)]
        is_neg(a, x) && is_neg(b, y) && is_below(a, b, r) ==> is_below(y, x, r)
    &&& forall|a: T, b: T, m: T, x: T, y: T, n: T|
        #![trigger is_neg(a, x), is_neg(b, y), is_neg(m, n), is_greater_of(a, b, m)]
        is_neg(a, x) && is_neg(b, y) && is_neg(m, n) && is_greater_of(a, b, m) ==> is_lesser_of(
            y,
            x,
            n,
        )
    &&& forall|a: T, b: T, m: T, x: T, y: T, n: T|
        #![trigger is_neg(a, x), is_neg(b, y), is_neg(m, n), is_lesser_of(b, a, m)]
        is_neg(a, x) && is_neg(b, y) && is_neg(m, n) && is_lesser_of(b, a, m) ==> is_greater_of(
            x,
            y,
            n,
        )
    &&& forall|a: T, b: T, x: T, y: T, g: T|
        #![trigger is_neg(a, x), is_neg(b, y), is_gap(a, b, g)]
        is_neg(a, x) && is_neg(b, y) && is_gap(a, b, g) ==> is_gap(x, y, g)
    &&& forall|a: T, b: T, r: bool|
        #![trigger is_off(a, b, true), is_below(a, b, r)]
        is_off(a, b, true) && is_below(a, b, r) ==> is_below(b, a, !r)
}

/// The function whose values are the opposites of those of `f`.
pub open spec fn negated<T: Real>(f: spec_fn(T, T) -> bool) -> spec_fn(T, T) -> bool {
    |x: T, y: T| exists|z: T| #[trigger] f(x, z) && is_neg(z, y)
}

/// The outcome of the search that runs the other way: a function that does not increase has an opposite that does
/// not decrease.
pub open spec fn mirrored<T>(res: Result<T, DichotomyError>) -> Result<T, DichotomyError> {
    match res {
        Err(DichotomyError::NotIncreasing) => Err(DichotomyError::NotDecreasing),
        Err(DichotomyError::NotDecreasing) => Err(DichotomyError::NotIncreasing),
        _ => res,
    }
}

proof fn opposite<T: Real>(a: T) -> (r: T)
    requires
        mirrors::<T>(),
    ensures
        is_neg(a, r),
{
    assert(has_opposite(a));
    choose|r: T| is_neg(a, r)
}

proof fn lemma_off_mirrored<T: Real>(target: T, y: T, nt: T, ny: T, r: bool)
    requires
        mirrors::<T>(),
        is_neg(target, nt),
        is_neg(y, ny),
        is_off(target, y, r),
    ensures
        is_off(nt, ny, r),
{
    let (d, gap, tolerance) = choose|d: T, gap: T, tolerance: T|
        is_diff(target, y, d) && is_magnitude(d, gap) && is_ratio(1, 100000, tolerance) && is_below(
            tolerance,
            gap,
            r,
        );
    assert(is_gap(target, y, gap));
    assert(is_gap(nt, ny, gap));
}

proof fn lemma_bisection_mirrored<T: Real>(
    increasing: bool,
    f: spec_fn(T, T) -> bool,
    target: T,
    nt: T,
    s: Bracket<T>,
    t: Bracket<T>,
)
    requires
        mirrors::<T>(),
        is_neg(target, nt),
        is_bisection(increasing, f, target, s, t),
    ensures
        is_bisection(!increasing, negated(f), nt, s, t),
{
    let (y, above) = choose|y: T, above: bool|
        f(s.middle, y) && is_off(target, y, true) && is_below(target, y, above) && (if increasing
            == above {
            t.lower == s.lower && t.upper == s.middle
        } else {
            t.lower == s.middle && t.upper == s.upper
        }) && is_midpoint(t.lower, t.upper, t.middle);
    let ny = opposite(y);
    let g = negated(f);
    assert(g(s.middle, ny));
    lemma_off_mirrored(target, y, nt, ny, true);
    assert(is_below(y, target, !above));
    assert(is_below(nt, ny, !above));
}

proof fn lemma_reached_mirrored<T: Real>(
    increasing: bool,
    f: spec_fn(T, T) -> bool,
    lower_r: T,
    upper_r: T,
    target: T,
    nt: T,
    n: nat,
    s: Bracket<T>,
)
    requires
        mirrors::<T>(),
        is_neg(target, nt),
        is_reached(increasing, f, lower_r, upper_r, target, n, s),
    ensures
        is_reached(!increasing, negated(f), lower_r, upper_r, nt, n, s),
    decreases n,
{
    if n > 0 {
        let p = choose|p: Bracket<T>|
            is_reached(increasing, f, lower_r, upper_r, target, (n - 1) as nat, p)
                && #[trigger] is_bisection(increasing, f, target, p, s);
        lemma_reached_mirrored(
            increasing,
            f,
            lower_r,
            upper_r,
            target,
            nt,
            (n - 1) as nat,
            p,
        );
        lemma_bisection_mirrored(increasing, f, target, nt, p, s);
    }
}

proof fn lemma_out_of_range_mirrored<T: Real>(
    f_low: T,
    f_up: T,
    target: T,
    n_low: T,
    n_up: T,
    nt: T,
    r: bool,
)
    requires
        mirrors::<T>(),
        is_neg(f_low, n_low),
        is_neg(f_up, n_up),
        is_neg(target, nt),
        is_out_of_range(f_low, f_up, target, r),
    ensures
        is_out_of_range(n_low, n_up, nt, r),
{
    let (most, least) = choose|most: T, least: T|
        is_greater_of(f_low, f_up, most) && is_lesser_of(f_up, f_low, least) && (if r {
            is_below(most, target, true) || is_below(target, least, true)
        } else {
            is_below(most, target, false) && is_below(target, least, false)
        });
    let n_most = opposite(most);
    let n_least = opposite(least);
    assert(is_greater_of(n_low, n_up, n_least));
    assert(is_lesser_of(n_up, n_low, n_most));
}

proof fn lemma_diagnosis_mirrored<T: Real>(
    increasing: bool,
    f: spec_fn(T, T) -> bool,
    lower_r: T,
    upper_r: T,
    target: T,
    nt: T,
    error: Option<DichotomyError>,
)
    requires
        mirrors::<T>(),
        is_neg(target, nt),
        is_diagnosed(increasing, f, lower_r, upper_r, target, error),
    ensures
        is_diagnosed(
            !increasing,
            negated(f),
            lower_r,
            upper_r,
            nt,
            match error {
                Some(DichotomyError::NotIncreasing) => Some(DichotomyError::NotDecreasing),
                Some(DichotomyError::NotDecreasing) => Some(DichotomyError::NotIncreasing),
                _ => error,
            },
        ),
{
    let (f_low, f_up) = choose|f_low: T, f_up: T|
        #![trigger is_diagnosis(increasing, f_low, f_up, target, error)]
        f(lower_r, f_low) && f(upper_r, f_up) && is_diagnosis(
            increasing,
            f_low,
            f_up,
            target,
            error,
        );
    let n_low = opposite(f_low);
    let n_up = opposite(f_up);
    let g = negated(f);
    assert(g(lower_r, n_low) && g(upper_r, n_up));
    let turned = match error {
        Some(DichotomyError::NotIncreasing) => Some(DichotomyError::NotDecreasing),
        Some(DichotomyError::NotDecreasing) => Some(DichotomyError::NotIncreasing),
        _ => error,
    };
    let out = error == Some(DichotomyError::TargetOutOfRange);
    lemma_out_of_range_mirrored(f_low, f_up, target, n_low, n_up, nt, out);
    assert(is_diagnosis(!increasing, n_low, n_up, nt, turned));
}

/// An outcome of the search for a root of `f(x) = target` is one of the search for a root of `-f(x) = -target`.
pub proof fn law_negated_search<T: Real>(
    increasing: bool,
    f: spec_fn(T, T) -> bool,
    lower_r: T,
    upper_r: T,
    target: T,
    nt: T,
    res: Result<T, DichotomyError>,
)
    requires
        mirrors::<T>(),
        is_neg(target, nt),
        is_solution(increasing, f, lower_r, upper_r, target, res),
    ensures
        is_solution(!increasing, negated(f), lower_r, upper_r, nt, mirrored(res)),
{
    let g = negated(f);
    match res {
        Err(DichotomyError::EmptyInterval) => {},
        Err(DichotomyError::NoConvergence) => {
            lemma_diagnosis_mirrored(increasing, f, lower_r, upper_r, target, nt, None);
            let (n, s) = choose|n: nat, s: Bracket<T>|
                n == MAX_BISECTIONS + 1 && is_reached(
                    increasing,
                    f,
                    lower_r,
                    upper_r,
                    target,
                    n,
                    s,
                );
            lemma_reached_mirrored(increasing, f, lower_r, upper_r, target, nt, n, s);
        },
        Err(error) => {
            lemma_diagnosis_mirrored(increasing, f, lower_r, upper_r, target, nt, Some(error));
        },
        Ok(x) => {
            lemma_diagnosis_mirrored(increasing, f, lower_r, upper_r, target, nt, None);
            let (n, s, y) = choose|n: nat, s: Bracket<T>, y: T|
                #![trigger is_reached(increasing, f, lower_r, upper_r, target, n, s), is_off(target, y, false)]
                n <= MAX_BISECTIONS && is_reached(increasing, f, lower_r, upper_r, target, n, s)
                    && s.middle == x && f(x, y) && is_off(target, y, false);
            lemma_reached_mirrored(increasing, f, lower_r, upper_r, target, nt, n, s);
            let ny = opposite(y);
            lemma_off_mirrored(target, y, nt, ny, false);
            assert(g(x, ny));
            assert(is_root(!increasing, g, lower_r, upper_r, nt, x));
        },
    }
}

/// In a deterministic arithmetic the search for a root of `-f(x) = -target` ends as that for a root of
/// `f(x) = target` does: with the same root, or with the same error turned round.
pub proof fn law_negated_search_same<T: Real>(
    increasing: bool,
    f: spec_fn(T, T) -> bool,
    lower_r: T,
    upper_r: T,
    target: T,
    nt: T,
    a: Result<T, DichotomyError>,
    b: Result<T, DichotomyError>,
)
    requires
        mirrors::<T>(),
        is_deterministic::<T>(),
        is_function(f),
        is_neg(target, nt),
        is_solution(increasing, f, lower_r, upper_r, target, a),
        is_solution(!increasing, negated(f), lower_r, upper_r, nt, b),
    ensures
        b == mirrored(a),
{
    law_negated_search(increasing, f, lower_r, upper_r, target, nt, a);
    assert(is_function(negated(f)));
    law_solution_unique(!increasing, negated(f), lower_r, upper_r, nt, mirrored(a), b);
}

/// `b` is twice `a`.
pub open spec fn is_twice<T: Real>(a: T, b: T) -> bool {
    exists|two: T| is_ratio(2, 1, two) && is_prod(a, two, b)
}

/// Doubling goes through the operations, as long as the numbers are `within`: sums, differences and opposites of doubled
/// numbers are doubled, as are products and quotients of a doubled number with another; the quotient of two doubled
/// numbers and their order stay. In the arithmetic of a machine that is so of 0 and of the numbers that are far enough
/// from overflow and underflow.
pub open spec fn doubles<T: Real>(within: spec_fn(T) -> bool) -> bool {
    &&& forall|z: T| #[trigger] is_zero(z) ==> is_twice(z, z) && within(z)
    &&& forall|a: T, r: T| #[trigger] is_neg(a, r) && within(a) ==> within(r)
    &&& forall|a: T, b: T, r: T, x: T, y: T, s: T|
        #![trigger is_sum(a, b, r), is_sum(x, y, s), is_twice(a, x)]
        within(a) && within(b) && within(r) && is_sum(a, b, r) && is_sum(x, y, s) && is_twice(a, x)
            && is_twice(b, y) ==> is_twice(r, s)
    &&& forall|a: T, b: T, r: T, x: T, y: T, s: T|
        #![trigger is_diff(a, b, r), is_diff(x, y, s), is_twice(a, x)]
        within(a) && within(b) && within(r) && is_diff(a, b, r) && is_diff(x, y, s) && is_twice(a, x)
            && is_twice(b, y) ==> is_twice(r, s)
    &&& forall|a: T, m: T, r: T, x: T, s: T|
        #![trigger is_prod(a, m, r), is_prod(x, m, s), is_twice(a, x)]
        within(a) && within(r) && is_prod(a, m, r) && is_prod(x, m, s) && is_twice(a, x)
            ==> is_twice(r, s)
    &&& forall|a: T, n: T, r: T, x: T, s: T|
        #![trigger is_quot(a, n, r), is_quot(x, n, s), is_twice(a, x)]
        within(a) && within(r) && is_quot(a, n, r) && is_quot(x, n, s) && is_twice(a, x)
            ==> is_twice(r, s)
    &&& forall|a: T, b: T, r: T, x: T, y: T, s: T|
        #![trigger is_quot(a, b, r), is_quot(x, y, s), is_twice(a, x), is_twice(b, y)]
        within(a) && within(b) && is_quot(a, b, r) && is_quot(x, y, s) && is_twice(a, x) && is_twice(
            b,
            y,
        ) ==> r == s
    &&& forall|a: T, r: T, x: T, s: T|
        #![trigger is_neg(a, r), is_neg(x, s)]
        within(a) && is_neg(a, r) && is_neg(x, s) && is_twice(a, x) ==> is_twice(r, s)
    &&& forall|a: T, b: T, r: bool, x: T, y: T, s: bool|
        #![trigger is_below(a, b, r), is_below(x, y, s), is_twice(a, x)]
        within(a) && within(b) && is_below(a, b, r) && is_below(x, y, s) && is_twice(a, x)
            && is_twice(b, y) ==> r == s
    &&& forall|a: T, b: T, r: bool, x: T, y: T, s: bool|
        #![trigger is_at_most(a, b, r), is_at_most(x, y, s), is_twice(a, x)]
        within(a) && within(b) && is_at_most(a, b, r) && is_at_most(x, y, s) && is_twice(a, x)
            && is_twice(b, y) ==> r == s
}

/// Conversion keeps what is doubled, as long as its outcome is `within`.
pub open spec fn casts_doubled<A: Real + CastTo<B>, B: Real>(within: spec_fn(B) -> bool) -> bool {
    forall|a: A, r: B, x: A, s: B|
        #![trigger is_cast(a, r), is_cast(x, s)]
        within(r) && is_cast(a, r) && is_cast(x, s) && is_twice(a, x) ==> is_twice(r, s)
}

/// The numbers of the second list are twice those of the first.
pub open spec fn are_twice<T: Real>(a: Seq<T>, b: Seq<T>) -> bool {
    &&& a.len() == b.len()
    &&& forall|k: int| 0 <= k < a.len() ==> #[trigger] is_twice(a[k], b[k])
}

/// The numbers, and every sum of the first of them, are `within`.
pub open spec fn sums_within<T: Real>(
    within: spec_fn(T) -> bool,
    terms: Seq<T>,
) -> bool {
    &&& forall|k: int| 0 <= k < terms.len() ==> within(#[trigger] terms[k])
    &&& forall|n: int, part: T|
        0 <= n <= terms.len() && #[trigger] is_total(terms.take(n), part) ==> within(part)
}

proof fn lemma_sum_doubled<T: Real>(
    within: spec_fn(T) -> bool,
    z: T,
    a: Seq<T>,
    b: Seq<T>,
    n: int,
    r: T,
    s: T,
)
    requires
        doubles(within),
        is_zero(z),
        are_twice(a, b),
        sums_within(within, a),
        0 <= n <= a.len(),
        sums_to(z, a.take(n), r),
        sums_to(z, b.take(n), s),
    ensures
        is_twice(r, s),
    decreases n,
{
    if n > 0 {
        let (c, d) = (a.take(n), b.take(n));
        let p = choose|p: T|
            #![trigger is_sum(p, c.last(), r)]
            sums_to(z, c.drop_last(), p) && is_sum(p, c.last(), r);
        let q = choose|q: T|
            #![trigger is_sum(q, d.last(), s)]
            sums_to(z, d.drop_last(), q) && is_sum(q, d.last(), s);
        assert(c.drop_last() =~= a.take(n - 1));
        assert(d.drop_last() =~= b.take(n - 1));
        lemma_sum_doubled(within, z, a, b, n - 1, p, q);
        assert(is_twice(a[n - 1], b[n - 1]));
        assert(is_total(a.take(n - 1), p) && is_total(a.take(n), r));
        assert(within(p) && within(r) && within(a[n - 1]));
    }
}

proof fn lemma_total_doubled<T: Real>(
    within: spec_fn(T) -> bool,
    a: Seq<T>,
    r: T,
    b: Seq<T>,
    s: T,
)
    requires
        is_deterministic::<T>(),
        doubles(within),
        are_twice(a, b),
        sums_within(within, a),
        is_total(a, r),
        is_total(b, s),
    ensures
        is_twice(r, s),
        within(r),
{
    let y = choose|y: T| is_zero(y) && sums_to(y, a, r);
    let z = choose|z: T| is_zero(z) && sums_to(z, b, s);
    assert(y == z);
    assert(a.take(a.len() as int) =~= a);
    assert(b.take(b.len() as int) =~= b);
    assert(is_total(a.take(a.len() as int), r));
    lemma_sum_doubled(within, y, a, b, a.len() as int, r, s);
}

/// The two lists of neighbours are the same but for the unit of distance: the second has twice the distances, to each
/// neighbour and from each neighbour to its nearest.
pub open spec fn is_doubled_around<F: Real>(
    g: &KGraph<F>,
    a: Seq<OutEdge<F>>,
    h: &KGraph<F>,
    b: Seq<OutEdge<F>>,
) -> bool {
    &&& same_targets(a, b)
    &&& are_twice(weights(a), weights(b))
    &&& forall|k: int|
        0 <= k < a.len() ==> is_twice(
            g.neighbours@[(#[trigger] a[k]).node as int]@[0].weight,
            h.neighbours@[a[k].node as int]@[0].weight,
        )
}

/// The numbers that the scale of a node goes through, with neighbours from the distance `first` to the distance `last`,
/// are `within`.
pub open spec fn is_scale_within<W: Real>(
    within: spec_fn(W) -> bool,
    first: W,
    last: W,
    mean: W,
) -> bool {
    &&& within(mean)
    &&& forall|range: W| #[trigger] is_diff(last, first, range) ==> within(range)
    &&& forall|least: W, l: W, m: W, d: W|
        #![trigger is_ln(least, l), is_neg(l, m), is_prod(mean, m, d)]
        is_ratio(1, PROBA_MIN_INVERSE, least) && is_ln(least, l) && is_neg(l, m) && is_prod(
            mean,
            m,
            d,
        ) ==> within(d)
    &&& forall|lambda: W, scale: W|
        #![trigger is_stretch(first, last, mean, lambda), is_prod(mean, lambda, scale)]
        is_stretch(first, last, mean, lambda) && is_prod(mean, lambda, scale) ==> within(scale)
}

/// The numbers that the parameters of a node with these neighbours go through are `within`.
pub open spec fn is_param_within<F: CastTo<W>, W: Real>(
    within: spec_fn(W) -> bool,
    graph: &KGraph<F>,
    neighbours: Seq<OutEdge<F>>,
) -> bool {
    &&& forall|dist: Seq<W>, k: int|
        #![trigger are_casts(weights(neighbours), dist), dist[k]]
        are_casts(weights(neighbours), dist) && 0 <= k < dist.len() ==> within(dist[k])
    &&& forall|dist: Seq<W>, rho: Seq<W>|
        #![trigger are_casts(weights(neighbours), dist), are_nearest(graph, neighbours, dist.first(), rho)]
        are_casts(weights(neighbours), dist) && are_nearest(graph, neighbours, dist.first(), rho)
            ==> sums_within(within, rho)
    &&& forall|dist: Seq<W>, mean: W|
        #![trigger are_casts(weights(neighbours), dist), is_nearest_mean(graph, neighbours, dist.first(), mean)]
        are_casts(weights(neighbours), dist) && is_nearest_mean(
            graph,
            neighbours,
            dist.first(),
            mean,
        ) ==> is_scale_within(within, dist.first(), dist.last(), mean)
}

proof fn lemma_mean_doubled<F: Real + CastTo<W>, W: Real>(
    within: spec_fn(W) -> bool,
    g: &KGraph<F>,
    a: Seq<OutEdge<F>>,
    dist: Seq<W>,
    r: W,
    h: &KGraph<F>,
    b: Seq<OutEdge<F>>,
    second: W,
    s: W,
)
    requires
        is_deterministic::<W>(),
        doubles(within),
        casts_doubled::<F, W>(within),
        is_doubled_around(g, a, h, b),
        is_param_within(within, g, a),
        are_casts(weights(a), dist),
        is_twice(dist.first(), second),
        is_nearest_mean(g, a, dist.first(), r),
        is_nearest_mean(h, b, second, s),
    ensures
        is_twice(r, s),
{
    let first = dist.first();
    let (p, ps, pn) = choose|rho: Seq<W>, sum: W, n: W|
        #![trigger is_total(rho, sum), is_quot(sum, n, r)]
        are_nearest(g, a, first, rho) && is_total(rho, sum) && is_count(rho.len() as usize, n)
            && is_quot(sum, n, r);
    let (q, qs, qn) = choose|rho: Seq<W>, sum: W, n: W|
        #![trigger is_total(rho, sum), is_quot(sum, n, s)]
        are_nearest(h, b, second, rho) && is_total(rho, sum) && is_count(rho.len() as usize, n)
            && is_quot(sum, n, s);
    assert(sums_within(within, p));
    assert forall|k: int| 0 <= k < p.len() implies #[trigger] is_twice(p[k], q[k]) by {
        if k < a.len() {
            let (x, y) = (
                g.neighbours@[a[k].node as int]@[0].weight,
                h.neighbours@[a[k].node as int]@[0].weight,
            );
            assert(a[k].node == b[k].node);
            assert(is_twice(x, y));
            assert(within(p[k]));
            assert(is_cast(x, p[k]) && is_cast(y, q[k]));
        }
    }
    lemma_total_doubled(within, p, ps, q, qs);
    assert(pn == qn);
    assert(is_scale_within(within, first, dist.last(), r));
}

proof fn lemma_scale_doubled<W: Real>(
    within: spec_fn(W) -> bool,
    first: W,
    last: W,
    mean: W,
    r: W,
    r_stretched: bool,
    first2: W,
    last2: W,
    mean2: W,
    s: W,
    s_stretched: bool,
)
    requires
        is_deterministic::<W>(),
        doubles(within),
        within(first),
        within(last),
        is_scale_within(within, first, last, mean),
        is_twice(first, first2),
        is_twice(last, last2),
        is_twice(mean, mean2),
        is_adjusted_scale(first, last, mean, r, r_stretched),
        is_adjusted_scale(first2, last2, mean2, s, s_stretched),
    ensures
        is_twice(r, s),
        within(r),
        r_stretched == s_stretched,
{
    let (p, po) = choose|lambda: W, one: W|
        is_stretch(first, last, mean, lambda) && is_one(one) && is_below(one, lambda, r_stretched)
            && (if r_stretched {
            is_prod(mean, lambda, r)
        } else {
            r == mean
        });
    let (q, qo) = choose|lambda: W, one: W|
        is_stretch(first2, last2, mean2, lambda) && is_one(one) && is_below(
            one,
            lambda,
            s_stretched,
        ) && (if s_stretched {
            is_prod(mean2, lambda, s)
        } else {
            s == mean2
        });
    lemma_stretch_doubled(within, first, last, mean, p, first2, last2, mean2, q);
}

proof fn lemma_stretch_doubled<W: Real>(
    within: spec_fn(W) -> bool,
    first: W,
    last: W,
    mean: W,
    p: W,
    first2: W,
    last2: W,
    mean2: W,
    q: W,
)
    requires
        is_deterministic::<W>(),
        doubles(within),
        within(first),
        within(last),
        is_scale_within(within, first, last, mean),
        is_twice(first, first2),
        is_twice(last, last2),
        is_twice(mean, mean2),
        is_stretch(first, last, mean, p),
        is_stretch(first2, last2, mean2, q),
    ensures
        p == q,
{
    let (ra, la, l1, m1, d1) = choose|range: W, least: W, l: W, m: W, d: W|
        is_diff(last, first, range) && is_ratio(1, PROBA_MIN_INVERSE, least) && is_ln(least, l)
            && is_neg(l, m) && is_prod(mean, m, d) && is_quot(range, d, p);
    let (rb, lb, l2, m2, d2) = choose|range: W, least: W, l: W, m: W, d: W|
        is_diff(last2, first2, range) && is_ratio(1, PROBA_MIN_INVERSE, least) && is_ln(least, l)
            && is_neg(l, m) && is_prod(mean2, m, d) && is_quot(range, d, q);
    assert(m1 == m2);
    assert(within(ra) && within(d1));
    assert(is_twice(ra, rb) && is_twice(d1, d2));
}

proof fn lemma_raw_doubled<W: Real>(
    within: spec_fn(W) -> bool,
    dist: Seq<W>,
    mean: W,
    r: Seq<W>,
    r_in: bool,
    dist2: Seq<W>,
    mean2: W,
    s: Seq<W>,
    s_in: bool,
)
    requires
        is_deterministic::<W>(),
        doubles(within),
        dist.len() > 0,
        forall|k: int| 0 <= k < dist.len() ==> within(#[trigger] dist[k]),
        is_scale_within(within, dist.first(), dist.last(), mean),
        are_twice(dist, dist2),
        is_twice(mean, mean2),
        is_raw_proba(dist, mean, r, r_in),
        is_raw_proba(dist2, mean2, s, s_in),
    ensures
        r == s,
        r_in == s_in,
{
    let (a, at, ar, al) = choose|scale: W, stretched: bool, ratio: W, least: W|
        #![trigger are_affinities(dist, scale, r), is_least(stretched, least), is_at_most(least, ratio, r_in)]
        is_adjusted_scale(dist.first(), dist.last(), mean, scale, stretched) && are_affinities(
            dist,
            scale,
            r,
        ) && is_quot(r.last(), r.first(), ratio) && is_least(stretched, least) && is_at_most(
            least,
            ratio,
            r_in,
        );
    let (b, bt, br, bl) = choose|scale: W, stretched: bool, ratio: W, least: W|
        #![trigger are_affinities(dist2, scale, s), is_least(stretched, least), is_at_most(least, ratio, s_in)]
        is_adjusted_scale(dist2.first(), dist2.last(), mean2, scale, stretched) && are_affinities(
            dist2,
            scale,
            s,
        ) && is_quot(s.last(), s.first(), ratio) && is_least(stretched, least) && is_at_most(
            least,
            ratio,
            s_in,
        );
    assert(is_twice(dist[0], dist2[0]) && within(dist[0]));
    assert(is_twice(dist[dist.len() - 1], dist2[dist2.len() - 1]) && within(dist[dist.len() - 1]));
    lemma_scale_doubled(
        within,
        dist.first(),
        dist.last(),
        mean,
        a,
        at,
        dist2.first(),
        dist2.last(),
        mean2,
        b,
        bt,
    );
    assert forall|k: int| 0 <= k < r.len() implies r[k] == s[k] by {
        assert(is_twice(dist[k], dist2[k]) && within(dist[k]));
        assert(is_affinity(dist[k], a, r[k]) && is_affinity(dist2[k], b, s[k]));
        let (m1, q1) = choose|m: W, q: W|
            is_neg(dist[k], m) && is_quot(m, a, q) && is_exp(q, r[k]);
        let (m2, q2) = choose|m: W, q: W|
            is_neg(dist2[k], m) && is_quot(m, b, q) && is_exp(q, s[k]);
        assert(is_twice(m1, m2) && within(m1));
        assert(q1 == q2);
    }
    assert(r =~= s);
}

proof fn lemma_proba_doubled<W: Real>(
    within: spec_fn(W) -> bool,
    dist: Seq<W>,
    mean: W,
    r: Seq<W>,
    dist2: Seq<W>,
    mean2: W,
    s: Seq<W>,
)
    requires
        is_deterministic::<W>(),
        doubles(within),
        dist.len() > 0,
        forall|k: int| 0 <= k < dist.len() ==> within(#[trigger] dist[k]),
        is_scale_within(within, dist.first(), dist.last(), mean),
        are_twice(dist, dist2),
        is_twice(mean, mean2),
        r.len() == s.len(),
        is_proba(dist, mean, r),
        is_proba(dist2, mean2, s),
    ensures
        r == s,
{
    assert(is_twice(dist[0], dist2[0]) && within(dist[0]));
    assert(is_twice(dist[dist.len() - 1], dist2[dist2.len() - 1]) && within(dist[dist.len() - 1]));
    if is_uniform(r) && is_uniform(s) {
        assert(r =~= s);
    } else {
        let a = choose|raw: Seq<W>|
            #![trigger is_normalized(raw, r)]
            is_raw_proba(dist, mean, raw, true) && is_normalized(raw, r);
        let b = choose|raw: Seq<W>|
            #![trigger is_normalized(raw, s)]
            is_raw_proba(dist2, mean2, raw, true) && is_normalized(raw, s);
        lemma_raw_doubled(within, dist, mean, a, true, dist2, mean2, b, true);
        lemma_normalized_unique(a, r, s);
    }
}

/// What a node is given does not depend on the unit of distance: with doubled distances the scale is doubled and the
/// probabilities stay, or the refusal is the same. The numbers that the parameters go through are such that doubling
/// is exact.
pub proof fn law_doubled_distances<F: Real + CastTo<W>, W: Real>(
    within: spec_fn(W) -> bool,
    g: &KGraph<F>,
    a: Seq<OutEdge<F>>,
    x: Result<NodeParam<W>, ScaleError>,
    h: &KGraph<F>,
    b: Seq<OutEdge<F>>,
    y: Result<NodeParam<W>, ScaleError>,
)
    requires
        is_deterministic::<W>(),
        doubles(within),
        casts_doubled::<F, W>(within),
        a.len() > 0,
        is_param_within(within, g, a),
        is_doubled_around(g, a, h, b),
        is_param_of(g, a, x),
        is_param_of(h, b, y),
    ensures
        match (x, y) {
            (Ok(p), Ok(q)) => is_twice(p.scale, q.scale) && p.edges@ == q.edges@,
            (Err(e), Err(f)) => e == f,
            _ => false,
        },
{
    let (d1, m1) = choose|dist: Seq<W>, mean: W|
        #![trigger is_param(a, dist, mean, x)]
        are_casts(weights(a), dist) && is_nearest_mean(g, a, dist.first(), mean) && is_param(
            a,
            dist,
            mean,
            x,
        );
    let (d2, m2) = choose|dist: Seq<W>, mean: W|
        #![trigger is_param(b, dist, mean, y)]
        are_casts(weights(b), dist) && is_nearest_mean(h, b, dist.first(), mean) && is_param(
            b,
            dist,
            mean,
            y,
        );
    assert forall|k: int| 0 <= k < d1.len() implies #[trigger] is_twice(d1[k], d2[k]) by {
        assert(is_twice(weights(a)[k], weights(b)[k]));
        assert(within(d1[k]));
        assert(is_cast(weights(a)[k], d1[k]) && is_cast(weights(b)[k], d2[k]));
    }
    assert forall|k: int| 0 <= k < d1.len() implies within(#[trigger] d1[k]) by {}
    assert(is_twice(d1[0], d2[0]) && within(d1[0]));
    assert(is_twice(d1[d1.len() - 1], d2[d2.len() - 1]) && within(d1[d1.len() - 1]));
    lemma_mean_doubled(within, g, a, d1, m1, h, b, d2.first(), m2);
    assert(is_scale_within(within, d1.first(), d1.last(), m1));
    match (x, y) {
        (Ok(p), Ok(q)) => {
            lemma_proba_doubled(within, d1, m1, weights(p.edges@), d2, m2, weights(q.edges@));
            assert forall|k: int| 0 <= k < p.edges@.len() implies p.edges@[k] == q.edges@[k] by {
                assert(p.edges@[k].node == a[k].node && q.edges@[k].node == b[k].node);
                assert(weights(p.edges@)[k] == p.edges@[k].weight);
                assert(weights(q.edges@)[k] == q.edges@[k].weight);
            }
            assert(p.edges@ =~= q.edges@);
        },
        (Ok(p), Err(ScaleError::RangeTooWide)) => {
            let r = choose|raw: Seq<W>|
                #![trigger is_normalized(raw, weights(p.edges@))]
                is_raw_proba(d1, m1, raw, true) && is_normalized(raw, weights(p.edges@));
            let s = choose|raw: Seq<W>| is_raw_proba(d2, m2, raw, false);
            lemma_raw_doubled(within, d1, m1, r, true, d2, m2, s, false);
        },
        (Err(ScaleError::RangeTooWide), Ok(q)) => {
            let r = choose|raw: Seq<W>| is_raw_proba(d1, m1, raw, false);
            let s = choose|raw: Seq<W>|
                #![trigger is_normalized(raw, weights(q.edges@))]
                is_raw_proba(d2, m2, raw, true) && is_normalized(raw, weights(q.edges@));
            lemma_raw_doubled(within, d1, m1, r, false, d2, m2, s, true);
        },
        _ => {},
    }
}

/// `b` is four times `a`.
pub open spec fn is_fourfold<T: Real>(a: T, b: T) -> bool {
    exists|m: T| #[trigger] is_twice(a, m) && is_twice(m, b)
}

/// As long as the numbers are `within`, the product of two doubled numbers is fourfold, sums of fourfold numbers are
/// fourfold, and the quotient of two fourfold numbers stays.
pub open spec fn quadruples<T: Real>(within: spec_fn(T) -> bool) -> bool {
    &&& forall|z: T| #[trigger] is_zero(z) ==> is_fourfold(z, z) && within(z)
    &&& forall|a: T, b: T, r: T, x: T, y: T, s: T|
        #![trigger is_prod(a, b, r), is_prod(x, y, s), is_twice(a, x)]
        within(a) && within(b) && within(r) && is_prod(a, b, r) && is_prod(x, y, s) && is_twice(a, x)
            && is_twice(b, y) ==> is_fourfold(r, s)
    &&& forall|a: T, b: T, r: T, x: T, y: T, s: T|
        #![trigger is_sum(a, b, r), is_sum(x, y, s), is_fourfold(a, x)]
        within(a) && within(b) && within(r) && is_sum(a, b, r) && is_sum(x, y, s) && is_fourfold(
            a,
            x,
        ) && is_fourfold(b, y) ==> is_fourfold(r, s)
    &&& forall|a: T, b: T, r: T, x: T, y: T, s: T|
        #![trigger is_quot(a, b, r), is_quot(x, y, s), is_fourfold(a, x)]
        within(a) && within(b) && is_quot(a, b, r) && is_quot(x, y, s) && is_fourfold(a, x)
            && is_fourfold(b, y) ==> r == s
}

/// The squared gaps between the coordinates that both points have.
pub open spec fn are_squared_gaps<F: Real>(y1: Seq<F>, y2: Seq<F>, gaps: Seq<F>) -> bool {
    &&& gaps.len() == (if y1.len() <= y2.len() {
        y1.len()
    } else {
        y2.len()
    })
    &&& forall|k: int| 0 <= k < gaps.len() ==> is_squared_gap(y1[k], y2[k], #[trigger] gaps[k])
}

/// The numbers that the weight of an embedded edge goes through are `within`.
pub open spec fn is_weight_within<F: Real>(
    within: spec_fn(F) -> bool,
    y1: Seq<F>,
    y2: Seq<F>,
    scale: F,
) -> bool {
    &&& within(scale)
    &&& forall|s: F| #[trigger] is_prod(scale, scale, s) ==> within(s)
    &&& forall|k: int| 0 <= k < y1.len() ==> within(#[trigger] y1[k])
    &&& forall|k: int| 0 <= k < y2.len() ==> within(#[trigger] y2[k])
    &&& forall|k: int, d: F|
        0 <= k < y1.len() && k < y2.len() && #[trigger] is_diff(y1[k], y2[k], d) ==> within(d)
    &&& forall|gaps: Seq<F>| #[trigger] are_squared_gaps(y1, y2, gaps) ==> sums_within(within, gaps)
}

proof fn lemma_sum_fourfold<T: Real>(
    within: spec_fn(T) -> bool,
    z: T,
    a: Seq<T>,
    b: Seq<T>,
    n: int,
    r: T,
    s: T,
)
    requires
        quadruples(within),
        is_zero(z),
        a.len() == b.len(),
        forall|k: int| 0 <= k < a.len() ==> #[trigger] is_fourfold(a[k], b[k]),
        sums_within(within, a),
        0 <= n <= a.len(),
        sums_to(z, a.take(n), r),
        sums_to(z, b.take(n), s),
    ensures
        is_fourfold(r, s),
    decreases n,
{
    if n > 0 {
        let (c, d) = (a.take(n), b.take(n));
        let p = choose|p: T|
            #![trigger is_sum(p, c.last(), r)]
            sums_to(z, c.drop_last(), p) && is_sum(p, c.last(), r);
        let q = choose|q: T|
            #![trigger is_sum(q, d.last(), s)]
            sums_to(z, d.drop_last(), q) && is_sum(q, d.last(), s);
        assert(c.drop_last() =~= a.take(n - 1));
        assert(d.drop_last() =~= b.take(n - 1));
        lemma_sum_fourfold(within, z, a, b, n - 1, p, q);
        assert(is_fourfold(a[n - 1], b[n - 1]));
        assert(is_total(a.take(n - 1), p) && is_total(a.take(n), r));
        assert(within(p) && within(r) && within(a[n - 1]));
    }
}

proof fn lemma_distance_fourfold<F: Real>(
    within: spec_fn(F) -> bool,
    y1: Seq<F>,
    y2: Seq<F>,
    scale: F,
    d: F,
    z1: Seq<F>,
    z2: Seq<F>,
    e: F,
)
    requires
        is_deterministic::<F>(),
        doubles(within),
        quadruples(within),
        is_weight_within(within, y1, y2, scale),
        are_twice(y1, z1),
        are_twice(y2, z2),
        is_squared_distance(y1, y2, d),
        is_squared_distance(z1, z2, e),
    ensures
        is_fourfold(d, e),
        within(d),
{
    let p = choose|gaps: Seq<F>|
        #![trigger is_total(gaps, d)]
        are_squared_gaps(y1, y2, gaps) && is_total(gaps, d);
    let q = choose|gaps: Seq<F>|
        #![trigger is_total(gaps, e)]
        are_squared_gaps(z1, z2, gaps) && is_total(gaps, e);
    assert(sums_within(within, p));
    assert forall|k: int| 0 <= k < p.len() implies #[trigger] is_fourfold(p[k], q[k]) by {
        assert(is_squared_gap(y1[k], y2[k], p[k]) && is_squared_gap(z1[k], z2[k], q[k]));
        let a = choose|a: F| is_diff(y1[k], y2[k], a) && is_prod(a, a, p[k]);
        let b = choose|b: F| is_diff(z1[k], z2[k], b) && is_prod(b, b, q[k]);
        assert(within(y1[k]) && within(y2[k]) && within(a) && within(p[k]));
        assert(is_twice(y1[k], z1[k]) && is_twice(y2[k], z2[k]));
        assert(is_twice(a, b));
    }
    let y = choose|y: F| is_zero(y) && sums_to(y, p, d);
    let z = choose|z: F| is_zero(z) && sums_to(z, q, e);
    assert(y == z);
    assert(p.take(p.len() as int) =~= p);
    assert(q.take(q.len() as int) =~= q);
    assert(is_total(p.take(p.len() as int), d));
    lemma_sum_fourfold(within, y, p, q, p.len() as int, d, e);
}

/// The weight of an embedded edge does not depend on the unit of distance: it stays where both points and the scale are
/// doubled. The numbers that it goes through are such that doubling is exact.
pub proof fn law_weight_doubled<F: Real + CastTo<W>, W: Real + CastTo<F>>(
    within: spec_fn(F) -> bool,
    y1: Seq<F>,
    scale: F,
    b: W,
    y2: Seq<F>,
    w: F,
    w_normal: bool,
    z1: Seq<F>,
    scale2: F,
    z2: Seq<F>,
    u: F,
    u_normal: bool,
)
    requires
        is_deterministic::<F>(),
        is_deterministic::<W>(),
        casts_once::<F, W>(),
        casts_once::<W, F>(),
        doubles(within),
        quadruples(within),
        is_weight_within(within, y1, y2, scale),
        are_twice(y1, z1),
        are_twice(y2, z2),
        is_twice(scale, scale2),
        is_cauchy_weight(y1, scale, b, y2, w, w_normal),
        is_cauchy_weight(z1, scale2, b, z2, u, u_normal),
    ensures
        w == u,
        w_normal == u_normal,
{
    let p = choose|r: F|
        is_scaled_distance(y1, y2, scale, r) && is_cauchy(r, b, w) && is_normal(w, w_normal);
    let q = choose|r: F|
        is_scaled_distance(z1, z2, scale2, r) && is_cauchy(r, b, u) && is_normal(u, u_normal);
    let (d, s) = choose|d: F, s: F|
        is_squared_distance(y1, y2, d) && is_prod(scale, scale, s) && is_quot(d, s, p);
    let (e, t) = choose|d: F, s: F|
        is_squared_distance(z1, z2, d) && is_prod(scale2, scale2, s) && is_quot(d, s, q);
    lemma_distance_fourfold(within, y1, y2, scale, d, z1, z2, e);
    assert(is_fourfold(s, t) && within(s));
    assert(p == q);
}

/// The square of a difference does not depend on its sign.
pub open spec fn has_even_squares<F: Real>() -> bool {
    forall|a: F, b: F, r: F| #[trigger] is_squared_gap(a, b, r) ==> is_squared_gap(b, a, r)
}

/// Exchanging the points leaves their distance.
pub proof fn law_distance_symmetric<F: Real>(y1: Seq<F>, y2: Seq<F>, d: F)
    requires
        has_even_squares::<F>(),
        is_squared_distance(y1, y2, d),
    ensures
        is_squared_distance(y2, y1, d),
{
    let n = if y1.len() <= y2.len() {
        y1.len()
    } else {
        y2.len()
    };
    let gaps = choose|gaps: Seq<F>|
        #![trigger is_total(gaps, d)]
        gaps.len() == n && (forall|k: int|
            0 <= k < gaps.len() ==> is_squared_gap(y1[k], y2[k], #[trigger] gaps[k])) && is_total(
            gaps,
            d,
        );
    assert forall|k: int| 0 <= k < gaps.len() implies is_squared_gap(
        y2[k],
        y1[k],
        #[trigger] gaps[k],
    ) by {
        assert(is_squared_gap(y1[k], y2[k], gaps[k]));
    }
}

/// Exchanging the points leaves the weight of the edge between them, with the same scale.
pub proof fn law_weight_symmetric<F: Real + CastTo<W>, W: Real + CastTo<F>>(
    y1: Seq<F>,
    scale: F,
    b: W,
    y2: Seq<F>,
    w: F,
    normal: bool,
)
    requires
        has_even_squares::<F>(),
        is_cauchy_weight(y1, scale, b, y2, w, normal),
    ensures
        is_cauchy_weight(y2, scale, b, y1, w, normal),
{
    let r = choose|r: F|
        is_scaled_distance(y1, y2, scale, r) && is_cauchy(r, b, w) && is_normal(w, normal);
    let (d, s) = choose|d: F, s: F|
        is_squared_distance(y1, y2, d) && is_prod(scale, scale, s) && is_quot(d, s, r);
    law_distance_symmetric(y1, y2, d);
    assert(is_scaled_distance(y2, y1, scale, r));
}

} // verus!
