//! The transition probabilities in exact arithmetic.
use vstd::prelude::*;

use crate::exact::laplacian::{all_positive, has_positive_exp, law_probabilities_positive};
use crate::exact::{is_exact, keeps_value, law_total_exact, value_sum};
use crate::graph::{KGraph, OutEdge};
use crate::number::{
    are_casts, is_at_most, is_below, is_cast, is_count, is_diff, is_exp, is_ln, is_neg, is_one,
    is_prod, is_quot, is_ratio, is_total, CastTo, Real,
};
use crate::scale::{
    are_affinities, is_adjusted_scale, is_affinity, is_least, is_nearest_mean, is_normalized,
    is_param, is_param_of, is_proba, is_raw_proba, is_stretch, is_uniform, weights, NodeParam,
    ScaleError, PROBA_MIN_INVERSE,
};

verus! {

/// `e` takes the sum of the two numbers to a product.
pub open spec fn multiplies(e: spec_fn(real) -> real, x: real, y: real) -> bool {
    e(x + y) == e(x) * e(y)
}

/// `exp` has the values of a function `e` of the values, which is positive, grows, and takes sums to products; `ln`
/// inverts it.
pub open spec fn is_exponential<W: Real>(v: spec_fn(W) -> real, e: spec_fn(real) -> real) -> bool {
    &&& forall|a: W, r: W| #[trigger] is_exp(a, r) ==> v(r) == e(v(a))
    &&& forall|x: W, l: W| #[trigger] is_ln(x, l) && v(x) > 0 as real ==> e(v(l)) == v(x)
    &&& forall|x: real| #[trigger] e(x) > 0 as real
    &&& forall|x: real, y: real| x <= y ==> #[trigger] e(x) <= #[trigger] e(y)
    &&& forall|x: real, y: real| #[trigger] multiplies(e, x, y)
}

/// The value of `PROBA_MIN`.
pub open spec fn proba_min() -> real {
    (1 as real) / (100000 as real)
}

/// Of 0 the exponential function is 1.
pub proof fn lemma_exp_zero(e: spec_fn(real) -> real)
    requires
        forall|x: real| #[trigger] e(x) > 0 as real,
        forall|x: real, y: real| #[trigger] multiplies(e, x, y),
    ensures
        e(0 as real) == 1 as real,
{
    let z = e(0 as real);
    assert(multiplies(e, 0 as real, 0 as real));
    assert(z == 1 as real) by (nonlinear_arith)
        requires
            z * z == z,
            z > 0 as real,
    ;
}

/// A stretched scale is wide enough: the range of the distances is at most `-ln(PROBA_MIN)` times the scale.
proof fn lemma_scale_wide<W: Real>(
    v: spec_fn(W) -> real,
    e: spec_fn(real) -> real,
    first: W,
    last: W,
    mean: W,
    scale: W,
    stretched: bool,
) -> (l: real)
    requires
        is_exact(v),
        is_exponential(v, e),
        v(mean) > 0 as real,
        v(first) < v(last),
        is_adjusted_scale(first, last, mean, scale, stretched),
    ensures
        e(l) == proba_min(),
        v(scale) > 0 as real,
        v(last) - v(first) <= v(scale) * (-l),
{
    let (lambda, one) = choose|lambda: W, one: W|
        is_stretch(first, last, mean, lambda) && is_one(one) && is_below(one, lambda, stretched) && (
        if stretched {
            is_prod(mean, lambda, scale)
        } else {
            scale == mean
        });
    let (range, least, ln, m, d) = choose|range: W, least: W, l: W, m: W, d: W|
        is_diff(last, first, range) && is_ratio(1, PROBA_MIN_INVERSE, least) && is_ln(least, l)
            && is_neg(l, m) && is_prod(mean, m, d) && is_quot(range, d, lambda);
    let l = v(ln);
    assert(v(least) * (100000 as real) == 1 as real);
    assert(e(l) == proba_min());
    lemma_exp_zero(e);
    assert(l < 0 as real) by {
        if l >= 0 as real {
            assert(e(0 as real) <= e(l));
        }
    }
    let (mv, nv, lv, rv) = (v(mean), -l, v(lambda), v(range));
    let dv = mv * nv;
    assert(v(d) == dv);
    assert(dv > 0 as real) by (nonlinear_arith)
        requires
            dv == mv * nv,
            mv > 0 as real,
            nv > 0 as real,
    ;
    assert(lv * dv == rv);
    if stretched {
        let sv = v(scale);
        assert(sv == mv * lv);
        assert(sv > 0 as real) by (nonlinear_arith)
            requires
                sv == mv * lv,
                mv > 0 as real,
                lv > 1 as real,
        ;
        assert(sv * nv == rv) by (nonlinear_arith)
            requires
                sv == mv * lv,
                dv == mv * nv,
                lv * dv == rv,
        ;
    } else {
        assert(rv <= mv * nv) by (nonlinear_arith)
            requires
                lv * dv == rv,
                dv == mv * nv,
                dv > 0 as real,
                lv <= 1 as real,
        ;
    }
    l
}

/// The exponent of an affinity.
pub proof fn affinity_exponent<W: Real>(v: spec_fn(W) -> real, e: spec_fn(real) -> real, d: W, scale: W, r: W) -> (q:
    real)
    requires
        is_exact(v),
        is_exponential(v, e),
        v(scale) > 0 as real,
        is_affinity(d, scale, r),
    ensures
        q * v(scale) == -v(d),
        v(r) == e(q),
{
    let (m, q) = choose|m: W, q: W| is_neg(d, m) && is_quot(m, scale, q) && is_exp(q, r);
    v(q)
}

/// The unnormalized probability of the last neighbour is at least `PROBA_MIN` relative to that of the first.
proof fn lemma_raw_range<W: Real>(
    v: spec_fn(W) -> real,
    e: spec_fn(real) -> real,
    dist: Seq<W>,
    mean: W,
    raw: Seq<W>,
    in_range: bool,
)
    requires
        is_exact(v),
        is_exponential(v, e),
        v(mean) > 0 as real,
        dist.len() > 0,
        v(dist.first()) < v(dist.last()),
        is_raw_proba(dist, mean, raw, in_range),
    ensures
        in_range,
        v(raw.last()) >= proba_min() * v(raw.first()),
{
    let (scale, stretched, ratio, least) = choose|
        scale: W,
        stretched: bool,
        ratio: W,
        least: W,
    |
        #![trigger are_affinities(dist, scale, raw), is_least(stretched, least), is_at_most(least, ratio, in_range)]
        is_adjusted_scale(dist.first(), dist.last(), mean, scale, stretched) && are_affinities(
            dist,
            scale,
            raw,
        ) && is_quot(raw.last(), raw.first(), ratio) && is_least(stretched, least) && is_at_most(
            least,
            ratio,
            in_range,
        );
    let l = lemma_scale_wide(v, e, dist.first(), dist.last(), mean, scale, stretched);
    let n = dist.len() - 1;
    assert(is_affinity(dist[0], scale, raw[0]) && is_affinity(dist[n], scale, raw[n]));
    let a = affinity_exponent(v, e, dist[n], scale, raw[n]);
    let b = affinity_exponent(v, e, dist[0], scale, raw[0]);
    let s = v(scale);
    let range = v(dist[n]) - v(dist[0]);
    let gap = a - b;
    assert(gap * s == -range) by (nonlinear_arith)
        requires
            gap == a - b,
            a * s - b * s == -range,
    ;
    assert(gap >= l) by (nonlinear_arith)
        requires
            gap * s == -range,
            range <= s * (-l),
            s > 0 as real,
    ;
    assert(e(l) <= e(gap));
    assert(multiplies(e, gap, b));
    assert(gap + b == a);
    let (x, y, z, p) = (v(raw.last()), v(raw.first()), v(ratio), e(gap));
    assert(x >= proba_min() * y) by (nonlinear_arith)
        requires
            p * y == x,
            p >= proba_min(),
            y > 0 as real,
    ;
    assert(z >= proba_min()) by (nonlinear_arith)
        requires
            z * y == x,
            x >= proba_min() * y,
            y > 0 as real,
    ;
    if stretched {
        assert(v(least) * (100000000 as real) == 999 as real);
    } else {
        assert(v(least) * (100000 as real) == 1 as real);
    }
    assert(v(least) <= proba_min());
}

/// The distances and the mean behind the parameters of a node.
proof fn param_from<F: CastTo<W>, W: Real>(
    graph: &KGraph<F>,
    neighbours: Seq<OutEdge<F>>,
    res: Result<NodeParam<W>, ScaleError>,
) -> (r: (Seq<W>, W))
    requires
        is_param_of(graph, neighbours, res),
    ensures
        are_casts(weights(neighbours), r.0),
        is_param(neighbours, r.0, r.1, res),
{
    choose|dist: Seq<W>, mean: W|
        #![trigger is_param(neighbours, dist, mean, res)]
        are_casts(weights(neighbours), dist) && is_nearest_mean(
            graph,
            neighbours,
            dist.first(),
            mean,
        ) && is_param(neighbours, dist, mean, res)
}

/// In exact arithmetic no node is refused because of the range of its distances: the scale is stretched as far as it
/// takes.
pub proof fn law_range_not_too_wide<F: CastTo<W>, W: Real>(
    v: spec_fn(W) -> real,
    e: spec_fn(real) -> real,
    graph: &KGraph<F>,
    neighbours: Seq<OutEdge<F>>,
    res: Result<NodeParam<W>, ScaleError>,
)
    requires
        is_exact(v),
        is_exponential(v, e),
        neighbours.len() > 0,
        is_param_of(graph, neighbours, res),
    ensures
        res != Err::<NodeParam<W>, ScaleError>(ScaleError::RangeTooWide),
{
    if res == Err::<NodeParam<W>, ScaleError>(ScaleError::RangeTooWide) {
        let (dist, mean) = param_from(graph, neighbours, res);
        let raw = choose|raw: Seq<W>| is_raw_proba(dist, mean, raw, false);
        lemma_raw_range(v, e, dist, mean, raw, false);
    }
}

/// The normalized values of the first `n` numbers sum to their sum over the whole sum.
proof fn lemma_normalized_sum<W: Real>(
    v: spec_fn(W) -> real,
    raw: Seq<W>,
    sum: W,
    probas: Seq<W>,
    n: nat,
)
    requires
        is_exact(v),
        v(sum) != 0 as real,
        n <= raw.len(),
        probas.len() == raw.len(),
        forall|k: int| 0 <= k < raw.len() ==> is_quot(raw[k], sum, #[trigger] probas[k]),
    ensures
        value_sum(v, probas.take(n as int)) * v(sum) == value_sum(v, raw.take(n as int)),
    decreases n,
{
    if n > 0 {
        lemma_normalized_sum(v, raw, sum, probas, (n - 1) as nat);
        assert(probas.take(n as int).drop_last() =~= probas.take(n - 1));
        assert(raw.take(n as int).drop_last() =~= raw.take(n - 1));
        assert(is_quot(raw[n - 1], sum, probas[n - 1]));
        let (a, b, s) = (value_sum(v, probas.take(n - 1)), v(probas[n - 1]), v(sum));
        assert((a + b) * s == a * s + b * s) by (nonlinear_arith);
    } else {
        assert(probas.take(0) =~= Seq::empty());
        assert(raw.take(0) =~= Seq::empty());
        let s = v(sum);
        assert((0 as real) * s == 0 as real) by (nonlinear_arith);
    }
}

/// The sum of `n` equal values.
proof fn lemma_equal_sum<W>(v: spec_fn(W) -> real, s: Seq<W>, p: W)
    requires
        forall|k: int| 0 <= k < s.len() ==> #[trigger] s[k] == p,
    ensures
        value_sum(v, s) == v(p) * (s.len() as real),
    decreases s.len(),
{
    if s.len() > 0 {
        let front = s.drop_last();
        assert forall|k: int| 0 <= k < front.len() implies #[trigger] front[k] == p by {
            assert(front[k] == s[k]);
        }
        lemma_equal_sum(v, front, p);
        assert(s[s.len() - 1] == p);
        let (x, n) = (v(p), front.len() as real);
        assert(s.len() as real == n + 1 as real);
        assert(x * (n + 1 as real) == x * n + x) by (nonlinear_arith);
    } else {
        let x = v(p);
        assert(x * (0 as real) == 0 as real) by (nonlinear_arith);
    }
}

/// Of positive values none is greater than their sum.
proof fn lemma_part_of_sum<W>(v: spec_fn(W) -> real, s: Seq<W>, k: int)
    requires
        all_positive(v, s),
    ensures
        value_sum(v, s) >= 0 as real,
        0 <= k < s.len() ==> v(s[k]) <= value_sum(v, s),
    decreases s.len(),
{
    if s.len() > 0 {
        let front = s.drop_last();
        assert forall|j: int| 0 <= j < front.len() implies v(#[trigger] front[j]) > 0 as real by {
            assert(front[j] == s[j]);
        }
        lemma_part_of_sum(v, front, k);
        assert(v(s[s.len() - 1]) > 0 as real);
        assert(0 <= k < front.len() ==> front[k] == s[k]);
    }
}

/// The probabilities of the edges of a node sum to 1, and each is positive and at most 1.
pub proof fn law_probabilities_sum_to_one<F: CastTo<W>, W: Real>(
    v: spec_fn(W) -> real,
    graph: &KGraph<F>,
    neighbours: Seq<OutEdge<F>>,
    param: NodeParam<W>,
    k: int,
)
    requires
        is_exact(v),
        has_positive_exp(v),
        neighbours.len() > 0,
        is_param_of(graph, neighbours, Ok(param)),
    ensures
        value_sum(v, weights(param.edges@)) == 1 as real,
        0 <= k < param.edges@.len() ==> (0 as real) < v(param.edges@[k].weight) <= 1 as real,
{
    let probas = weights(param.edges@);
    let (dist, mean) = param_from(graph, neighbours, Ok(param));
    law_probabilities_positive(v, graph, neighbours, param);
    assert(probas.len() == neighbours.len());
    assert(v(probas[0]) > 0 as real);
    lemma_part_of_sum(v, probas, 0);
    assert(is_proba(dist, mean, probas));
    if is_uniform(probas) {
        let (one, n, p) = choose|one: W, n: W, p: W|
            is_one(one) && is_count(probas.len() as usize, n) && is_quot(one, n, p) && forall|
                j: int,
            |
                0 <= j < probas.len() ==> #[trigger] probas[j] == p;
        assert(probas.len() == param.edges.len());
        assert(v(n) == probas.len() as real);
        lemma_equal_sum(v, probas, p);
    } else {
        let raw = choose|raw: Seq<W>|
            #![trigger is_normalized(raw, probas)]
            is_raw_proba(dist, mean, raw, true) && is_normalized(raw, probas);
        let sum = choose|sum: W|
            #![trigger is_total(raw, sum)]
            is_total(raw, sum) && forall|j: int|
                0 <= j < raw.len() ==> is_quot(raw[j], sum, #[trigger] probas[j]);
        law_total_exact(v, raw, sum);
        lemma_raw_sum_positive(v, dist, mean, raw);
        lemma_normalized_sum(v, raw, sum, probas, raw.len());
        assert(probas.take(probas.len() as int) =~= probas);
        assert(raw.take(raw.len() as int) =~= raw);
        let (t, s) = (value_sum(v, probas), v(sum));
        assert(t == 1 as real) by (nonlinear_arith)
            requires
                t * s == s,
                s > 0 as real,
        ;
    }
    if 0 <= k < probas.len() {
        assert(probas[k] == param.edges@[k].weight);
        lemma_part_of_sum(v, probas, k);
    }
}

pub proof fn lemma_raw_sum_positive<W: Real>(
    v: spec_fn(W) -> real,
    dist: Seq<W>,
    mean: W,
    raw: Seq<W>,
)
    requires
        has_positive_exp(v),
        dist.len() > 0,
        is_raw_proba(dist, mean, raw, true),
    ensures
        value_sum(v, raw) > 0 as real,
{
    let scale = choose|scale: W| are_affinities(dist, scale, raw);
    assert forall|k: int| 0 <= k < raw.len() implies v(#[trigger] raw[k]) > 0 as real by {
        assert(is_affinity(dist[k], scale, raw[k]));
    }
    assert(v(raw[0]) > 0 as real);
    lemma_part_of_sum(v, raw, 0);
}

/// A nearer neighbour has no lower probability.
pub proof fn law_probabilities_fall_with_distance<F: CastTo<W>, W: Real>(
    vf: spec_fn(F) -> real,
    v: spec_fn(W) -> real,
    e: spec_fn(real) -> real,
    graph: &KGraph<F>,
    neighbours: Seq<OutEdge<F>>,
    param: NodeParam<W>,
    j: int,
    k: int,
)
    requires
        is_exact(v),
        is_exponential(v, e),
        keeps_value(vf, v),
        is_param_of(graph, neighbours, Ok(param)),
        0 <= j < neighbours.len(),
        0 <= k < neighbours.len(),
        vf(neighbours[j].weight) <= vf(neighbours[k].weight),
    ensures
        v(param.edges@[j].weight) >= v(param.edges@[k].weight),
{
    let probas = weights(param.edges@);
    let (dist, mean) = param_from(graph, neighbours, Ok(param));
    assert(probas[j] == param.edges@[j].weight && probas[k] == param.edges@[k].weight);
    assert(is_cast(weights(neighbours)[j], dist[j]) && is_cast(weights(neighbours)[k], dist[k]));
    assert(is_proba(dist, mean, probas));
    if is_uniform(probas) {
        assert(probas[j] == probas[k]);
    } else {
        let raw = choose|raw: Seq<W>|
            #![trigger is_normalized(raw, probas)]
            is_raw_proba(dist, mean, raw, true) && is_normalized(raw, probas);
        lemma_raw_falls(v, e, dist, mean, raw, j, k);
        let sum = choose|sum: W|
            #![trigger is_total(raw, sum)]
            is_total(raw, sum) && forall|i: int|
                0 <= i < raw.len() ==> is_quot(raw[i], sum, #[trigger] probas[i]);
        law_total_exact(v, raw, sum);
        lemma_raw_sum_positive(v, dist, mean, raw);
        assert(is_quot(raw[j], sum, probas[j]) && is_quot(raw[k], sum, probas[k]));
        let (x, y, s) = (v(probas[j]), v(probas[k]), v(sum));
        assert(x >= y) by (nonlinear_arith)
            requires
                x * s >= y * s,
                s > 0 as real,
        ;
    }
}

proof fn lemma_raw_falls<W: Real>(
    v: spec_fn(W) -> real,
    e: spec_fn(real) -> real,
    dist: Seq<W>,
    mean: W,
    raw: Seq<W>,
    j: int,
    k: int,
)
    requires
        is_exact(v),
        is_exponential(v, e),
        v(mean) > 0 as real,
        v(dist.first()) < v(dist.last()),
        is_raw_proba(dist, mean, raw, true),
        0 <= j < dist.len(),
        0 <= k < dist.len(),
        v(dist[j]) <= v(dist[k]),
    ensures
        v(raw[j]) >= v(raw[k]),
{
    let (scale, stretched) = choose|scale: W, stretched: bool|
        is_adjusted_scale(dist.first(), dist.last(), mean, scale, stretched) && are_affinities(
            dist,
            scale,
            raw,
        );
    let l = lemma_scale_wide(v, e, dist.first(), dist.last(), mean, scale, stretched);
    assert(is_affinity(dist[j], scale, raw[j]) && is_affinity(dist[k], scale, raw[k]));
    let a = affinity_exponent(v, e, dist[j], scale, raw[j]);
    let b = affinity_exponent(v, e, dist[k], scale, raw[k]);
    let s = v(scale);
    assert(b <= a) by (nonlinear_arith)
        requires
            b * s <= a * s,
            s > 0 as real,
    ;
}

/// The probability of the last neighbour is at least `PROBA_MIN` relative to that of the first.
pub proof fn law_probabilities_in_range<F: CastTo<W>, W: Real>(
    v: spec_fn(W) -> real,
    e: spec_fn(real) -> real,
    graph: &KGraph<F>,
    neighbours: Seq<OutEdge<F>>,
    param: NodeParam<W>,
)
    requires
        is_exact(v),
        is_exponential(v, e),
        neighbours.len() > 0,
        is_param_of(graph, neighbours, Ok(param)),
    ensures
        v(param.edges@.last().weight) >= proba_min() * v(param.edges@.first().weight),
{
    let probas = weights(param.edges@);
    let (dist, mean) = param_from(graph, neighbours, Ok(param));
    law_probabilities_positive(v, graph, neighbours, param);
    let n = probas.len() - 1;
    assert(probas[0] == param.edges@.first().weight && probas[n] == param.edges@.last().weight);
    assert(v(probas[0]) > 0 as real);
    assert(is_proba(dist, mean, probas));
    let (x, y) = (v(probas[0]), v(probas[n]));
    if is_uniform(probas) {
        assert(probas[0] == probas[n]);
        assert(x >= proba_min() * x) by (nonlinear_arith)
            requires
                x > 0 as real,
                proba_min() <= 1 as real,
        ;
    } else {
        let raw = choose|raw: Seq<W>|
            #![trigger is_normalized(raw, probas)]
            is_raw_proba(dist, mean, raw, true) && is_normalized(raw, probas);
        lemma_raw_range(v, e, dist, mean, raw, true);
        let sum = choose|sum: W|
            #![trigger is_total(raw, sum)]
            is_total(raw, sum) && forall|i: int|
                0 <= i < raw.len() ==> is_quot(raw[i], sum, #[trigger] probas[i]);
        law_total_exact(v, raw, sum);
        lemma_raw_sum_positive(v, dist, mean, raw);
        assert(is_quot(raw[0], sum, probas[0]) && is_quot(raw[n], sum, probas[n]));
        let s = v(sum);
        assert(y >= proba_min() * x) by (nonlinear_arith)
            requires
                y * s >= proba_min() * (x * s),
                s > 0 as real,
        ;
    }
}

} // verus!
