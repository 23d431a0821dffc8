//! The weights of embedded edges and the cross entropy in exact arithmetic, as formulas of the
//! points, the scales and the probabilities.
use vstd::prelude::*;

use crate::entropy::{
    are_relative_scales, cauchy_edge_weight, estimate_embedded_scale_from_initial_scales,
    estimate_embedded_scales_from_first_neighbour, grad_cauchy_edge_weight, is_cauchy_slope,
    is_cauchy_weight, is_cross_entropy, is_edge_entropy, is_embedded_weight, is_entropy,
    is_entropy_outcome, is_first_neighbour_scale, is_likely_term, is_mean, is_scaled_distance,
    is_slope_along, is_squared_distance, is_unlikely_term, EntropyError, EntropyOptim, Setting,
};
use crate::exact::entropy::{
    common, has_powers, law_distance_exact, raises, value_distance, weight_from,
};
use crate::exact::{is_exact, keeps_value, law_total_exact, value_sum};
use crate::graph::{NodeIdx, OutEdge};
use crate::matrix::Matrix;
use crate::number::{
    is_below, is_cast, is_count, is_diff, is_finite, is_ln, is_neg, is_normal, is_one, is_positive,
    is_power, is_prod, is_quot, is_ratio, is_sum, is_total, is_zero, CastTo, Real,
};
use crate::scale::NodeParams;
use crate::unique::entropy::{lemma_edge_entropy_unique, lemma_embedded_weight_unique};
use crate::unique::is_steady;

verus! {

/// The squared distance of the points.
pub open spec fn gap_between<F>(vf: spec_fn(F) -> real, x: Seq<F>, y: Seq<F>) -> real {
    value_distance(vf, x, y, common(x, y))
}

/// The weight of an edge between points of squared distance `d`, `s` being the scale at the first
/// of them: `1 / (1 + (d / s^2)^b)`.
pub open spec fn weight_at(power: spec_fn(real, real) -> real, s: real, d: real, b: real) -> real {
    if d == 0 as real {
        1 as real
    } else {
        (1 as real) / (1 as real + power(d / (s * s), b))
    }
}

/// The weight of an embedded edge is `1 / (1 + (d / scale^2)^b)`. With the exponent 1 that is
/// `scale^2 / (scale^2 + d)`.
proof fn lemma_weight_value<F: Real + CastTo<W>, W: Real + CastTo<F>>(
    vf: spec_fn(F) -> real,
    vw: spec_fn(W) -> real,
    power: spec_fn(real, real) -> real,
    x: Seq<F>,
    scale: F,
    b: W,
    y: Seq<F>,
    w: F,
    normal: bool,
)
    requires
        is_exact(vf),
        keeps_value(vf, vw),
        keeps_value(vw, vf),
        has_powers(vw, power),
        vf(scale) != 0 as real,
        is_cauchy_weight(x, scale, b, y, w, normal),
        gap_between(vf, x, y) == 0 as real ==> raises(vw, b),
    ensures
        gap_between(vf, x, y) >= 0 as real,
        vf(w) == weight_at(power, vf(scale), gap_between(vf, x, y), vw(b)),
        (0 as real) < vf(w) <= 1 as real,
        vw(b) == 1 as real ==> vf(w) * (vf(scale) * vf(scale) + gap_between(vf, x, y)) == vf(scale)
            * vf(scale),
{
    let (p, e) = weight_from(vf, vw, x, scale, b, y, w, normal);
    let (s, d, pv, ev, wv) = (vf(scale), gap_between(vf, x, y), vw(p), vw(e), vf(w));
    let q = s * s;
    assert(q > 0 as real) by (nonlinear_arith)
        requires
            q == s * s,
            s != 0 as real,
    ;
    assert(pv * q == d);
    assert(d >= 0 as real) by (nonlinear_arith)
        requires
            pv * q == d,
            pv >= 0 as real,
            q > 0 as real,
    ;
    if d == 0 as real {
        assert(pv == 0 as real) by (nonlinear_arith)
            requires
                pv * q == d,
                d == 0 as real,
                q > 0 as real,
        ;
        assert(ev == 0 as real);
        assert(wv == 1 as real);
    } else {
        assert(pv == d / q) by (nonlinear_arith)
            requires
                pv * q == d,
                q > 0 as real,
        ;
        assert(pv > 0 as real) by (nonlinear_arith)
            requires
                pv * q == d,
                d > 0 as real,
                q > 0 as real,
        ;
        let t = power(d / q, vw(b));
        assert(ev == t && t > 0 as real);
        assert(wv == (1 as real) / (1 as real + t)) by (nonlinear_arith)
            requires
                wv * (1 as real + t) == 1 as real,
                t > 0 as real,
        ;
        assert((0 as real) < wv <= 1 as real) by (nonlinear_arith)
            requires
                wv * (1 as real + t) == 1 as real,
                t > 0 as real,
        ;
        if vw(b) == 1 as real {
            assert(ev == pv);
            assert(wv * (q + d) == q) by (nonlinear_arith)
                requires
                    wv * (1 as real + pv) == 1 as real,
                    pv * q == d,
            {
                assert(q + d == q * (1 as real + pv));
                assert(wv * (q * (1 as real + pv)) == q * (wv * (1 as real + pv)));
            }
        }
    }
}

/// A number is normal unless it is 0.
pub open spec fn is_normal_unless_zero<F: Real>(vf: spec_fn(F) -> real) -> bool {
    forall|a: F, r: bool| #[trigger] is_normal(a, r) ==> r == (vf(a) != 0 as real)
}

/// The weight of an embedded edge is `1 / (1 + (d / scale^2)^b)`, `d` being the squared distance of
/// the points. With the exponent 1 that is `scale^2 / (scale^2 + d)`. It is refused only where it
/// is no normal number.
pub proof fn law_cauchy_edge_weight<F: Real + CastTo<W>, W: Real + CastTo<F>>(
    vf: spec_fn(F) -> real,
    vw: spec_fn(W) -> real,
    power: spec_fn(real, real) -> real,
    x: &Vec<F>,
    scale: F,
    b: W,
    y: &Vec<F>,
    res: Result<F, EntropyError>,
)
    requires
        is_exact(vf),
        keeps_value(vf, vw),
        keeps_value(vw, vf),
        has_powers(vw, power),
        vf(scale) != 0 as real,
        gap_between(vf, x@, y@) == 0 as real ==> raises(vw, b),
        call_ensures(cauchy_edge_weight::<F, W>, (x, scale, b, y), res),
    ensures
        res matches Ok(w) ==> {
            let (s, d) = (vf(scale), gap_between(vf, x@, y@));
            &&& d > 0 as real ==> vf(w) * (1 as real + power(d / (s * s), vw(b))) == 1 as real
            &&& d == 0 as real ==> vf(w) == 1 as real
            &&& vw(b) == 1 as real ==> vf(w) * (s * s + d) == s * s
            &&& is_normal(w, true)
        },
        res matches Err(error) ==> error == EntropyError::WeightNotNormal && answers_normal(
            vf,
            weight_at(power, vf(scale), gap_between(vf, x@, y@), vw(b)),
            false,
        ),
        is_normal_unless_zero(vf) ==> res is Ok,
{
    let (s, d) = (vf(scale), gap_between(vf, x@, y@));
    match res {
        Ok(w) => {
            lemma_weight_value(vf, vw, power, x@, scale, b, y@, w, true);
            if d > 0 as real {
                let q = s * s;
                assert(q > 0 as real) by (nonlinear_arith)
                    requires
                        q == s * s,
                        s != 0 as real,
                ;
                let r = d / q;
                assert(r > 0 as real) by (nonlinear_arith)
                    requires
                        r == d / q,
                        d > 0 as real,
                        q > 0 as real,
                ;
                let (t, wv) = (power(r, vw(b)), vf(w));
                assert(wv * (1 as real + t) == 1 as real) by (nonlinear_arith)
                    requires
                        wv == (1 as real) / (1 as real + t),
                        t > 0 as real,
                ;
            }
        },
        Err(_) => {
            let w = choose|w: F| is_cauchy_weight(x@, scale, b, y@, w, false);
            lemma_weight_value(vf, vw, power, x@, scale, b, y@, w, false);
            assert(is_normal(w, false));
        },
    }
}

/// `ln` has the values of a function of the values.
pub open spec fn has_log<D: Real>(v: spec_fn(D) -> real, ln: spec_fn(real) -> real) -> bool {
    forall|x: D, l: D| #[trigger] is_ln(x, l) && v(x) > 0 as real ==> v(l) == ln(v(x))
}

/// The cross entropy of a probability `w` and a weight `we`: `-w ln(we) - (1 - w) ln(1 - we)`.
/// Where the weight is 1 the second term is left out.
pub open spec fn cross_at(ln: spec_fn(real) -> real, w: real, we: real) -> real {
    -(w * ln(we)) + (if we < 1 as real {
        -((1 as real - w) * ln(1 as real - we))
    } else {
        0 as real
    })
}

proof fn lemma_cross_value<D: Real>(
    v: spec_fn(D) -> real,
    ln: spec_fn(real) -> real,
    acc: D,
    w: D,
    we: D,
    out: D,
)
    requires
        is_exact(v),
        has_log(v, ln),
        (0 as real) < v(we) <= 1 as real,
        is_cross_entropy(acc, w, we, out),
    ensures
        v(out) == v(acc) + cross_at(ln, v(w), v(we)),
{
    let mid = choose|mid: D|
        #![trigger is_likely_term(acc, w, we, mid)]
        is_likely_term(acc, w, we, mid) && is_unlikely_term(mid, w, we, out);
    assert(v(mid) == v(acc) - v(w) * ln(v(we))) by {
        assert(!is_positive(we, false));
        let (m, l, p) = choose|m: D, l: D, p: D|
            is_neg(w, m) && is_ln(we, l) && is_prod(m, l, p) && is_sum(acc, p, mid);
        let (a, b) = (v(w), v(l));
        assert((-a) * b == -(a * b)) by (nonlinear_arith);
    }
    let one = choose|one: D| #[trigger]
        is_one(one) && {
            ||| is_below(we, one, false) && out == mid
            ||| is_below(we, one, true) && exists|c: D, m: D, e: D, l: D, p: D|
                is_diff(one, w, c) && is_neg(c, m) && is_diff(one, we, e) && is_ln(e, l) && is_prod(
                    m,
                    l,
                    p,
                ) && is_sum(mid, p, out)
        };
    if v(we) < 1 as real {
        let (c, m, e, l, p) = choose|c: D, m: D, e: D, l: D, p: D|
            is_diff(one, w, c) && is_neg(c, m) && is_diff(one, we, e) && is_ln(e, l) && is_prod(
                m,
                l,
                p,
            ) && is_sum(mid, p, out);
        let (a, b) = (v(c), v(l));
        assert((-a) * b == -(a * b)) by (nonlinear_arith);
    }
}

/// The arithmetics that a cross entropy is computed in are exact, with powers and logarithms, and
/// the conversions between them keep the values.
pub open spec fn is_measurable<
    F: Real + CastTo<W> + CastTo<D>,
    W: Real + CastTo<F> + CastTo<D>,
    D: Real,
>(
    vf: spec_fn(F) -> real,
    vw: spec_fn(W) -> real,
    vd: spec_fn(D) -> real,
    power: spec_fn(real, real) -> real,
    ln: spec_fn(real) -> real,
) -> bool {
    &&& is_exact(vf)
    &&& is_exact(vd)
    &&& keeps_value(vf, vw)
    &&& keeps_value(vw, vf)
    &&& keeps_value(vf, vd)
    &&& keeps_value(vw, vd)
    &&& has_powers(vw, power)
    &&& has_log(vd, ln)
}

/// The cross entropy of the edge of index `k`, of its probability and its weight. The weight is
/// taken with the scale of the node that the edge starts from.
pub open spec fn edge_cross<F, W>(
    vf: spec_fn(F) -> real,
    vw: spec_fn(W) -> real,
    power: spec_fn(real, real) -> real,
    ln: spec_fn(real) -> real,
    edges: Seq<(NodeIdx, OutEdge<W>)>,
    scales: Seq<W>,
    b: W,
    points: Seq<Seq<F>>,
    k: int,
) -> real {
    let (i, e) = edges[k];
    cross_at(
        ln,
        vw(e.weight),
        weight_at(
            power,
            vw(scales[i as int]),
            gap_between(vf, points[i as int], points[e.node as int]),
            vw(b),
        ),
    )
}

/// Every edge connects two of `n` points, and starts from a node with a scale that is not 0.
pub open spec fn are_measurable_edges<W>(
    vw: spec_fn(W) -> real,
    edges: Seq<(NodeIdx, OutEdge<W>)>,
    scales: Seq<W>,
    n: nat,
) -> bool {
    forall|k: int|
        0 <= k < edges.len() ==> (#[trigger] edges[k]).0 < n && edges[k].0 < scales.len()
            && edges[k].1.node < n && vw(scales[edges[k].0 as int]) != 0 as real
}

/// The embedded points.
pub open spec fn points_of<F, W>(optim: EntropyOptim<F, W>) -> Seq<Seq<F>> {
    optim.embedded@.map_values(|row: Vec<F>| row@)
}

/// The weight of an edge.
proof fn lemma_embedded_value<F: Real + CastTo<W>, W: Real + CastTo<F>>(
    vf: spec_fn(F) -> real,
    vw: spec_fn(W) -> real,
    power: spec_fn(real, real) -> real,
    setting: Setting<W>,
    points: Seq<Seq<F>>,
    k: int,
    w: F,
    normal: bool,
)
    requires
        is_exact(vf),
        keeps_value(vf, vw),
        keeps_value(vw, vf),
        has_powers(vw, power),
        raises(vw, setting.b),
        0 <= k < setting.edges.len(),
        vw(setting.scales[setting.edges[k].0 as int]) != 0 as real,
        is_embedded_weight(setting, points, setting.edges[k], w, normal),
    ensures
        is_normal(w, normal),
        (0 as real) < vf(w) <= 1 as real,
        vf(w) == ({
            let (i, e) = setting.edges[k];
            weight_at(
                power,
                vw(setting.scales[i as int]),
                gap_between(vf, points[i as int], points[e.node as int]),
                vw(setting.b),
            )
        }),
{
    let edge = setting.edges[k];
    let (i, j) = (edge.0 as int, edge.1.node as int);
    let scale = choose|scale: F|
        is_cast(setting.scales[i], scale) && is_cauchy_weight(
            points[i],
            scale,
            setting.b,
            points[j],
            w,
            normal,
        );
    lemma_weight_value(vf, vw, power, points[i], scale, setting.b, points[j], w, normal);
}

proof fn lemma_edge_cross<
    F: Real + CastTo<W> + CastTo<D>,
    W: Real + CastTo<F> + CastTo<D>,
    D: Real,
>(
    vf: spec_fn(F) -> real,
    vw: spec_fn(W) -> real,
    vd: spec_fn(D) -> real,
    power: spec_fn(real, real) -> real,
    ln: spec_fn(real) -> real,
    setting: Setting<W>,
    points: Seq<Seq<F>>,
    k: int,
    acc: D,
    out: D,
)
    requires
        is_measurable(vf, vw, vd, power, ln),
        raises(vw, setting.b),
        0 <= k < setting.edges.len(),
        vw(setting.scales[setting.edges[k].0 as int]) != 0 as real,
        is_edge_entropy(setting, points, setting.edges[k], acc, out),
    ensures
        vd(out) == vd(acc) + edge_cross(
            vf,
            vw,
            power,
            ln,
            setting.edges,
            setting.scales,
            setting.b,
            points,
            k,
        ),
{
    let edge = setting.edges[k];
    let (w, f, we) = choose|w: D, f: F, we: D|
        is_cast(edge.1.weight, w) && is_embedded_weight(setting, points, edge, f, true) && is_cast(
            f,
            we,
        ) && is_cross_entropy(acc, w, we, out);
    lemma_embedded_value(vf, vw, power, setting, points, k, f, true);
    lemma_cross_value(vd, ln, acc, w, we, out);
}

/// The cross entropy of an edge of probability `p` is `-p ln(w) - (1 - p) ln(1 - w)`, `w` being its
/// weight in the embedded space: `1 / (1 + (d / s^2)^b)`, with the squared distance `d` of its two
/// ends and the scale `s` of the node that it starts from.
pub proof fn law_ce_edge_term<
    F: Real + CastTo<W> + CastTo<D>,
    W: Real + CastTo<F> + CastTo<D>,
    D: Real,
>(
    vf: spec_fn(F) -> real,
    vw: spec_fn(W) -> real,
    vd: spec_fn(D) -> real,
    power: spec_fn(real, real) -> real,
    ln: spec_fn(real) -> real,
    optim: &EntropyOptim<F, W>,
    k: usize,
    res: Result<D, EntropyError>,
)
    requires
        is_measurable(vf, vw, vd, power, ln),
        raises(vw, optim.b),
        k < optim.edges@.len(),
        are_measurable_edges(vw, optim.edges@, optim.initial_scales@, optim.embedded@.len()),
        call_ensures(EntropyOptim::<F, W>::ce_edge_term::<D>, (optim, k), res),
    ensures
        res matches Ok(term) ==> vd(term) == edge_cross(
            vf,
            vw,
            power,
            ln,
            optim.edges@,
            optim.initial_scales@,
            optim.b,
            points_of(*optim),
            k as int,
        ),
        is_normal_unless_zero(vf) ==> res is Ok,
{
    let (setting, rows) = (optim.setting(), optim.rows());
    let edge = optim.edges@[k as int];
    assert(vw(optim.initial_scales@[edge.0 as int]) != 0 as real);
    match res {
        Ok(term) => {
            let zero = choose|zero: D| is_zero(zero) && is_edge_entropy(setting, rows, edge, zero, term);
            lemma_edge_cross(vf, vw, vd, power, ln, setting, rows, k as int, zero, term);
        },
        Err(_) => {
            let w = choose|w: F| is_embedded_weight(setting, rows, edge, w, false);
            lemma_embedded_value(vf, vw, power, setting, rows, k as int, w, false);
        },
    }
}

/// The sum of the cross entropies of the first `n` edges.
pub open spec fn cross_sum<F, W>(
    vf: spec_fn(F) -> real,
    vw: spec_fn(W) -> real,
    power: spec_fn(real, real) -> real,
    ln: spec_fn(real) -> real,
    edges: Seq<(NodeIdx, OutEdge<W>)>,
    scales: Seq<W>,
    b: W,
    points: Seq<Seq<F>>,
    n: nat,
) -> real
    decreases n,
{
    if n == 0 {
        0 as real
    } else {
        cross_sum(vf, vw, power, ln, edges, scales, b, points, (n - 1) as nat) + edge_cross(
            vf,
            vw,
            power,
            ln,
            edges,
            scales,
            b,
            points,
            n - 1,
        )
    }
}

/// Asked whether a number of the value `x` is finite, the arithmetic answered `r`.
pub open spec fn answers_finite<D: Real>(vd: spec_fn(D) -> real, x: real, r: bool) -> bool {
    exists|a: D| #[trigger] is_finite(a, r) && vd(a) == x
}

/// Asked whether a number of the value `x` is normal, the arithmetic answered `r`.
pub open spec fn answers_normal<F: Real>(vf: spec_fn(F) -> real, x: real, r: bool) -> bool {
    exists|a: F| #[trigger] is_normal(a, r) && vf(a) == x
}

/// The weight of the edge of index `k` in the embedded space.
pub open spec fn edge_weight_at<F, W>(
    vf: spec_fn(F) -> real,
    vw: spec_fn(W) -> real,
    power: spec_fn(real, real) -> real,
    edges: Seq<(NodeIdx, OutEdge<W>)>,
    scales: Seq<W>,
    b: W,
    points: Seq<Seq<F>>,
    k: int,
) -> real {
    let (i, e) = edges[k];
    weight_at(
        power,
        vw(scales[i as int]),
        gap_between(vf, points[i as int], points[e.node as int]),
        vw(b),
    )
}

/// What the arithmetic answered when the cross entropy was computed: every sum over the first edges
/// is finite, or some weight is not normal, or some sum over the first edges is not finite.
pub open spec fn is_checked<F: Real, W, D: Real>(
    vf: spec_fn(F) -> real,
    vw: spec_fn(W) -> real,
    vd: spec_fn(D) -> real,
    power: spec_fn(real, real) -> real,
    ln: spec_fn(real) -> real,
    edges: Seq<(NodeIdx, OutEdge<W>)>,
    scales: Seq<W>,
    b: W,
    points: Seq<Seq<F>>,
    res: Result<D, EntropyError>,
) -> bool {
    match res {
        Ok(ce) => forall|n: nat|
            0 < n <= edges.len() ==> answers_finite(
                vd,
                #[trigger] cross_sum(vf, vw, power, ln, edges, scales, b, points, n),
                true,
            ),
        Err(EntropyError::WeightNotNormal) => exists|k: int|
            0 <= k < edges.len() && answers_normal(
                vf,
                #[trigger] edge_weight_at(vf, vw, power, edges, scales, b, points, k),
                false,
            ),
        Err(EntropyError::NotFinite) => exists|n: nat|
            0 < n <= edges.len() && answers_finite(
                vd,
                #[trigger] cross_sum(vf, vw, power, ln, edges, scales, b, points, n),
                false,
            ),
        Err(EntropyError::WeightAboveOne) => false,
    }
}

proof fn lemma_cross_sum<
    F: Real + CastTo<W> + CastTo<D>,
    W: Real + CastTo<F> + CastTo<D>,
    D: Real,
>(
    vf: spec_fn(F) -> real,
    vw: spec_fn(W) -> real,
    vd: spec_fn(D) -> real,
    power: spec_fn(real, real) -> real,
    ln: spec_fn(real) -> real,
    setting: Setting<W>,
    points: Seq<Seq<F>>,
    n: nat,
    ce: D,
)
    requires
        is_measurable(vf, vw, vd, power, ln),
        raises(vw, setting.b),
        n <= setting.edges.len(),
        are_measurable_edges(vw, setting.edges, setting.scales, points.len()),
        is_entropy(setting, points, n, ce),
    ensures
        vd(ce) == cross_sum(
            vf,
            vw,
            power,
            ln,
            setting.edges,
            setting.scales,
            setting.b,
            points,
            n,
        ),
        forall|m: nat|
            0 < m <= n ==> answers_finite(
                vd,
                #[trigger] cross_sum(
                    vf,
                    vw,
                    power,
                    ln,
                    setting.edges,
                    setting.scales,
                    setting.b,
                    points,
                    m,
                ),
                true,
            ),
    decreases n,
{
    if n > 0 {
        let acc = choose|acc: D|
            is_entropy(setting, points, (n - 1) as nat, acc) && #[trigger] is_edge_entropy(
                setting,
                points,
                setting.edges[n - 1],
                acc,
                ce,
            ) && is_finite(ce, true);
        lemma_cross_sum(vf, vw, vd, power, ln, setting, points, (n - 1) as nat, acc);
        assert(setting.edges[n - 1].0 < points.len());
        lemma_edge_cross(vf, vw, vd, power, ln, setting, points, n - 1, acc, ce);
        assert(is_finite(ce, true));
    }
}

/// The outcome of the cross entropy, in terms of the edges, the scales and the points.
pub proof fn lemma_entropy_outcome<
    F: Real + CastTo<W> + CastTo<D>,
    W: Real + CastTo<F> + CastTo<D>,
    D: Real,
>(
    vf: spec_fn(F) -> real,
    vw: spec_fn(W) -> real,
    vd: spec_fn(D) -> real,
    power: spec_fn(real, real) -> real,
    ln: spec_fn(real) -> real,
    setting: Setting<W>,
    points: Seq<Seq<F>>,
    res: Result<D, EntropyError>,
)
    requires
        is_measurable(vf, vw, vd, power, ln),
        raises(vw, setting.b),
        are_measurable_edges(vw, setting.edges, setting.scales, points.len()),
        is_entropy_outcome(setting, points, res),
    ensures
        res matches Ok(ce) ==> vd(ce) == cross_sum(
            vf,
            vw,
            power,
            ln,
            setting.edges,
            setting.scales,
            setting.b,
            points,
            setting.edges.len(),
        ),
        is_checked(
            vf,
            vw,
            vd,
            power,
            ln,
            setting.edges,
            setting.scales,
            setting.b,
            points,
            res,
        ),
        is_normal_unless_zero(vf) && (forall|a: D, r: bool| #[trigger] is_finite(a, r) ==> r)
            ==> res is Ok,
{
    match res {
        Ok(ce) => {
            lemma_cross_sum(vf, vw, vd, power, ln, setting, points, setting.edges.len(), ce);
        },
        Err(EntropyError::WeightNotNormal) => {
            let (n, acc, w) = choose|n: nat, acc: D, w: F|
                n < setting.edges.len() && is_entropy(setting, points, n, acc) && is_embedded_weight(
                    setting,
                    points,
                    setting.edges[n as int],
                    w,
                    false,
                );
            assert(setting.edges[n as int].0 < points.len());
            lemma_embedded_value(vf, vw, power, setting, points, n as int, w, false);
            assert(is_normal(w, false));
            let value = edge_weight_at(
                vf,
                vw,
                power,
                setting.edges,
                setting.scales,
                setting.b,
                points,
                n as int,
            );
            assert(answers_normal(vf, value, false));
        },
        Err(EntropyError::NotFinite) => {
            let (n, acc, ce) = choose|n: nat, acc: D, ce: D|
                n < setting.edges.len() && is_entropy(setting, points, n, acc) && is_edge_entropy(
                    setting,
                    points,
                    setting.edges[n as int],
                    acc,
                    ce,
                ) && is_finite(ce, false);
            lemma_cross_sum(vf, vw, vd, power, ln, setting, points, n, acc);
            assert(setting.edges[n as int].0 < points.len());
            lemma_edge_cross(vf, vw, vd, power, ln, setting, points, n as int, acc, ce);
            assert(is_finite(ce, false));
            let value = cross_sum(
                vf,
                vw,
                power,
                ln,
                setting.edges,
                setting.scales,
                setting.b,
                points,
                n + 1,
            );
            assert(vd(ce) == value);
            assert(answers_finite(vd, value, false));
        },
        Err(_) => {},
    }
}

/// The cross entropy of an embedding is the sum over the edges of `-p ln(w) - (1 - p) ln(1 - w)`,
/// of the probability `p` of the edge and its weight `w` in the embedded space. It is refused only
/// for a weight that is not normal or a sum over the first edges that is not finite. In an
/// arithmetic in which every number is finite, and normal unless it is 0, it is never refused.
pub proof fn law_ce_compute<
    F: Real + CastTo<W> + CastTo<D>,
    W: Real + CastTo<F> + CastTo<D>,
    D: Real,
>(
    vf: spec_fn(F) -> real,
    vw: spec_fn(W) -> real,
    vd: spec_fn(D) -> real,
    power: spec_fn(real, real) -> real,
    ln: spec_fn(real) -> real,
    optim: &EntropyOptim<F, W>,
    res: Result<D, EntropyError>,
)
    requires
        is_measurable(vf, vw, vd, power, ln),
        raises(vw, optim.b),
        are_measurable_edges(vw, optim.edges@, optim.initial_scales@, optim.embedded@.len()),
        call_ensures(EntropyOptim::<F, W>::ce_compute::<D>, (optim,), res),
    ensures
        res matches Ok(ce) ==> vd(ce) == cross_sum(
            vf,
            vw,
            power,
            ln,
            optim.edges@,
            optim.initial_scales@,
            optim.b,
            points_of(*optim),
            optim.edges@.len(),
        ),
        is_checked(
            vf,
            vw,
            vd,
            power,
            ln,
            optim.edges@,
            optim.initial_scales@,
            optim.b,
            points_of(*optim),
            res,
        ),
        is_normal_unless_zero(vf) && (forall|a: D, r: bool| #[trigger] is_finite(a, r) ==> r)
            ==> res is Ok,
{
    lemma_entropy_outcome(vf, vw, vd, power, ln, optim.setting(), optim.rows(), res);
}

/// The cross entropy of an edge depends on no scale but that of the node that it starts from, and
/// on no points but its two ends.
pub proof fn law_edge_term_local<
    F: Real + CastTo<W> + CastTo<D>,
    W: Real + CastTo<F> + CastTo<D>,
    D: Real,
>(
    p: &EntropyOptim<F, W>,
    a: Result<D, EntropyError>,
    q: &EntropyOptim<F, W>,
    b: Result<D, EntropyError>,
    k: usize,
)
    requires
        is_steady::<F, W, D>(),
        k < p.edges@.len(),
        k < q.edges@.len(),
        p.edges@[k as int] == q.edges@[k as int],
        p.b == q.b,
        ({
            let (i, e) = p.edges@[k as int];
            &&& i < p.embedded@.len() && i < q.embedded@.len()
            &&& e.node < p.embedded@.len() && e.node < q.embedded@.len()
            &&& p.initial_scales@[i as int] == q.initial_scales@[i as int]
            &&& p.embedded@[i as int]@ == q.embedded@[i as int]@
            &&& p.embedded@[e.node as int]@ == q.embedded@[e.node as int]@
        }),
        call_ensures(EntropyOptim::<F, W>::ce_edge_term::<D>, (p, k), a),
        call_ensures(EntropyOptim::<F, W>::ce_edge_term::<D>, (q, k), b),
    ensures
        a == b,
{
    let (s, t, x, y) = (p.setting(), q.setting(), p.rows(), q.rows());
    let edge = p.edges@[k as int];
    let (i, j) = (edge.0 as int, edge.1.node as int);
    assert(x[i] == p.embedded@[i]@ && y[i] == q.embedded@[i]@);
    assert(x[j] == p.embedded@[j]@ && y[j] == q.embedded@[j]@);
    assert forall|w: F, normal: bool| #[trigger] is_embedded_weight(t, y, edge, w, normal) implies is_embedded_weight(
        s,
        x,
        edge,
        w,
        normal,
    ) by {
        let scale = choose|scale: F|
            is_cast(t.scales[i], scale) && is_cauchy_weight(y[i], scale, t.b, y[j], w, normal);
        assert(is_cast(s.scales[i], scale) && is_cauchy_weight(x[i], scale, s.b, x[j], w, normal));
    }
    if let Ok(term) = b {
        let zero = choose|zero: D| is_zero(zero) && is_edge_entropy(t, y, edge, zero, term);
        let (w, f, we) = choose|w: D, f: F, we: D|
            is_cast(edge.1.weight, w) && is_embedded_weight(t, y, edge, f, true) && is_cast(f, we)
                && is_cross_entropy(zero, w, we, term);
        assert(is_embedded_weight(s, x, edge, f, true));
        match a {
            Ok(other) => {
                assert(is_edge_entropy(s, x, edge, zero, term));
                let z = choose|z: D| is_zero(z) && is_edge_entropy(s, x, edge, z, other);
                lemma_edge_entropy_unique(s, x, edge, zero, term, other);
            },
            Err(_) => {
                let u = choose|u: F| is_embedded_weight(s, x, edge, u, false);
                lemma_embedded_weight_unique(s, x, edge, f, true, u, false);
            },
        }
    } else {
        let u = choose|u: F| is_embedded_weight(t, y, edge, u, false);
        assert(is_embedded_weight(s, x, edge, u, false));
        if let Ok(other) = a {
            let z = choose|z: D| is_zero(z) && is_edge_entropy(s, x, edge, z, other);
            let (w, f, we) = choose|w: D, f: F, we: D|
                is_cast(edge.1.weight, w) && is_embedded_weight(s, x, edge, f, true) && is_cast(f, we)
                    && is_cross_entropy(z, w, we, other);
            lemma_embedded_weight_unique(s, x, edge, f, true, u, false);
        }
    }
}

/// The gradient of the weight of an embedded edge with respect to its initial point is
/// `2 b (d / s^2)^(b - 1) w^2 / s^2` times the way to the other point, `w` being the weight. With
/// the exponent 1 it is `2 s^2 / (s^2 + d)^2` times that way, the derivative of `s^2 / (s^2 + d)`.
pub proof fn law_grad_cauchy_edge_weight<F: Real + CastTo<W>, W: Real + CastTo<F>>(
    vf: spec_fn(F) -> real,
    vw: spec_fn(W) -> real,
    power: spec_fn(real, real) -> real,
    x: &Vec<F>,
    scale: F,
    b: W,
    y: &Vec<F>,
    gradient: &mut Vec<F>,
    res: Result<(), EntropyError>,
    k: int,
)
    requires
        is_exact(vf),
        is_exact(vw),
        keeps_value(vf, vw),
        keeps_value(vw, vf),
        has_powers(vw, power),
        vf(scale) != 0 as real,
        gap_between(vf, x@, y@) > 0 as real,
        call_ensures(grad_cauchy_edge_weight::<F, W>, (x, scale, b, y, gradient), res),
        0 <= k < x@.len(),
    ensures
        res is Ok ==> {
            let (s, d, way) = (vf(scale), gap_between(vf, x@, y@), vf(y@[k]) - vf(x@[k]));
            let w = weight_at(power, s, d, vw(b));
            let g = vf(final(gradient)@[k]);
            &&& final(gradient)@.len() == x@.len()
            &&& g * (s * s) == (2 as real * vw(b)) * power(d / (s * s), vw(b) - 1 as real) * (w * w) * way
            &&& vw(b) == 1 as real && power(d / (s * s), 0 as real) == 1 as real ==> g * ((s * s + d) * (s
                * s + d)) == (2 as real * (s * s)) * way
        },
        is_normal_unless_zero(vf) ==> res is Ok,
{
    let (s, d, way) = (vf(scale), gap_between(vf, x@, y@), vf(y@[k]) - vf(x@[k]));
    if res is Ok {
        let (w, c) = choose|w: F, c: F|
            #![trigger is_cauchy_slope(x@, scale, b, y@, w, c)]
            is_cauchy_weight(x@, scale, b, y@, w, true) && is_cauchy_slope(x@, scale, b, y@, w, c)
                && forall|a: int|
                0 <= a < x@.len() ==> is_slope_along(
                    c,
                    x@[a],
                    y@[a],
                    #[trigger] final(gradient)@[a],
                );
        lemma_weight_value(vf, vw, power, x@, scale, b, y@, w, true);
        lemma_slope_value(vf, vw, power, x@, scale, b, y@, w, c);
        assert(is_slope_along(c, x@[k], y@[k], final(gradient)@[k]));
        let (cv, g, q, wv) = (vf(c), vf(final(gradient)@[k]), s * s, vf(w));
        let t = (2 as real * vw(b)) * power(d / q, vw(b) - 1 as real) * (wv * wv);
        assert(g * q == t * way) by (nonlinear_arith)
            requires
                g == cv * way,
                cv * q == t,
        ;
        if vw(b) == 1 as real && power(d / q, 0 as real) == 1 as real {
            assert(t == 2 as real * (wv * wv)) by (nonlinear_arith)
                requires
                    t == (2 as real * (1 as real)) * (1 as real) * (wv * wv),
            ;
            assert(q != 0 as real) by (nonlinear_arith)
                requires
                    q == s * s,
                    s != 0 as real,
            ;
            let h = q + d;
            let left = g * (h * h);
            let right = (2 as real * q) * way;
            assert(left * q == right * q) by (nonlinear_arith)
                requires
                    left == g * (h * h),
                    right == (2 as real * q) * way,
                    g * q == (2 as real * (wv * wv)) * way,
                    wv * h == q,
            {
                assert(left * q == (g * q) * (h * h));
                assert((wv * wv) * (h * h) == (wv * h) * (wv * h));
                assert(((2 as real * (wv * wv)) * way) * (h * h) == (2 as real * way) * ((wv * wv) * (h
                    * h)));
            }
            assert(left == right) by (nonlinear_arith)
                requires
                    left * q == right * q,
                    q != 0 as real,
            ;
        }
    } else {
        let w = choose|w: F| is_cauchy_weight(x@, scale, b, y@, w, false);
        lemma_weight_value(vf, vw, power, x@, scale, b, y@, w, false);
        assert(is_normal(w, false));
    }
}

/// The gradient has no component along a coordinate that the two points have in common.
pub proof fn law_gradient_along_common_coordinate<F: Real + CastTo<W>, W: Real + CastTo<F>>(
    vf: spec_fn(F) -> real,
    x: &Vec<F>,
    scale: F,
    b: W,
    y: &Vec<F>,
    gradient: &mut Vec<F>,
    k: int,
)
    requires
        is_exact(vf),
        call_ensures(
            grad_cauchy_edge_weight::<F, W>,
            (x, scale, b, y, gradient),
            Ok::<(), EntropyError>(()),
        ),
        0 <= k < x@.len(),
        vf(x@[k]) == vf(y@[k]),
    ensures
        vf(final(gradient)@[k]) == 0 as real,
{
    let (w, c) = choose|w: F, c: F|
        #![trigger is_cauchy_slope(x@, scale, b, y@, w, c)]
        is_cauchy_weight(x@, scale, b, y@, w, true) && is_cauchy_slope(x@, scale, b, y@, w, c) && forall|
            a: int,
        |
            0 <= a < x@.len() ==> is_slope_along(c, x@[a], y@[a], #[trigger] final(gradient)@[a]);
    assert(is_slope_along(c, x@[k], y@[k], final(gradient)@[k]));
    let cv = vf(c);
    assert(cv * (0 as real) == 0 as real) by (nonlinear_arith);
}

/// The factor of the gradient.
proof fn lemma_slope_value<F: Real + CastTo<W>, W: Real + CastTo<F>>(
    vf: spec_fn(F) -> real,
    vw: spec_fn(W) -> real,
    power: spec_fn(real, real) -> real,
    x: Seq<F>,
    scale: F,
    b: W,
    y: Seq<F>,
    w: F,
    c: F,
)
    requires
        is_exact(vf),
        is_exact(vw),
        keeps_value(vf, vw),
        keeps_value(vw, vf),
        has_powers(vw, power),
        vf(scale) != 0 as real,
        gap_between(vf, x, y) > 0 as real,
        is_cauchy_slope(x, scale, b, y, w, c),
    ensures
        ({
            let q = vf(scale) * vf(scale);
            vf(c) * q == (2 as real * vw(b)) * power(gap_between(vf, x, y) / q, vw(b) - 1 as real) * (vf(
                w,
            ) * vf(w))
        }),
{
    let (r, p, two, one, t, e, z, k, f, ww, q, s) = choose|
        r: F,
        x1: W,
        two: W,
        one: W,
        t: W,
        e: W,
        p: W,
        k: W,
        f: F,
        ww: F,
        q: F,
        s: F,
    |
        is_scaled_distance(x, y, scale, r) && is_cast(r, x1) && is_ratio(2, 1, two) && is_prod(two, b, t)
            && is_one(one) && is_diff(b, one, e) && is_power(x1, e, p) && is_prod(t, p, k) && is_cast(
            k,
            f,
        ) && is_prod(w, w, ww) && is_prod(f, ww, q) && is_prod(scale, scale, s) && is_quot(q, s, c);
    let (d1, s1) = choose|d1: F, s1: F|
        is_squared_distance(x, y, d1) && is_prod(scale, scale, s1) && is_quot(d1, s1, r);
    law_distance_exact(vf, x, y, d1);
    let (sv, dv, rv) = (vf(scale), gap_between(vf, x, y), vf(r));
    let qv = sv * sv;
    assert(qv > 0 as real) by (nonlinear_arith)
        requires
            qv == sv * sv,
            sv != 0 as real,
    ;
    assert(rv == dv / qv) by (nonlinear_arith)
        requires
            rv * qv == dv,
            qv > 0 as real,
    ;
    assert(rv > 0 as real) by (nonlinear_arith)
        requires
            rv * qv == dv,
            dv > 0 as real,
            qv > 0 as real,
    ;
    assert(vw(two) * (1 as real) == 2 as real);
    assert(vw(z) == power(rv, vw(b) - 1 as real));
}

/// The sum of numbers of which each, times `m`, is a number of the other list.
proof fn lemma_sum_scaled<W>(v: spec_fn(W) -> real, a: Seq<W>, b: Seq<W>, m: real)
    requires
        a.len() == b.len(),
        forall|k: int| 0 <= k < a.len() ==> v(#[trigger] a[k]) * m == v(b[k]),
    ensures
        value_sum(v, a) * m == value_sum(v, b),
    decreases a.len(),
{
    if a.len() > 0 {
        let (f, g) = (a.drop_last(), b.drop_last());
        assert forall|k: int| 0 <= k < f.len() implies v(#[trigger] f[k]) * m == v(g[k]) by {
            assert(f[k] == a[k]);
        }
        lemma_sum_scaled(v, f, g, m);
        let (x, y) = (value_sum(v, f), v(a[a.len() - 1]));
        assert((x + y) * m == x * m + y * m) by (nonlinear_arith);
    } else {
        assert((0 as real) * m == 0 as real) by (nonlinear_arith);
    }
}

/// Numbers divided by their mean.
proof fn lemma_relative_scales<W: Real>(v: spec_fn(W) -> real, initial: Seq<W>, scales: Seq<W>, i: int)
    requires
        is_exact(v),
        value_sum(v, initial) != 0 as real,
        are_relative_scales(initial, scales),
        0 <= i < initial.len() <= usize::MAX,
    ensures
        scales.len() == initial.len(),
        v(scales[i]) * value_sum(v, initial) == v(initial[i]) * (initial.len() as real),
        value_sum(v, scales) == initial.len() as real,
{
    let mean = choose|mean: W|
        #![trigger is_mean(initial, mean)]
        is_mean(initial, mean) && forall|k: int|
            0 <= k < scales.len() ==> is_quot(initial[k], mean, #[trigger] scales[k]);
    let (sum, n) = choose|sum: W, n: W|
        is_total(initial, sum) && is_count(initial.len() as usize, n) && is_quot(sum, n, mean);
    law_total_exact(v, initial, sum);
    let (m, t, c) = (v(mean), v(sum), initial.len() as real);
    assert(v(n) == c);
    assert(m * c == t);
    assert(m != 0 as real) by (nonlinear_arith)
        requires
            m * c == t,
            t != 0 as real,
    ;
    assert forall|k: int| 0 <= k < scales.len() implies v(#[trigger] scales[k]) * m == v(initial[k]) by {
        assert(is_quot(initial[k], mean, scales[k]));
    }
    let (x, y) = (v(scales[i]), v(initial[i]));
    assert(x * t == y * c) by (nonlinear_arith)
        requires
            x * m == y,
            m * c == t,
    ;
    lemma_sum_scaled(v, scales, initial, m);
    let z = value_sum(v, scales);
    assert(z == c) by (nonlinear_arith)
        requires
            z * m == t,
            m * c == t,
            m != 0 as real,
    ;
}

/// The scales in the embedded space are proportional to the initial scales, and their mean is 1.
pub proof fn law_relative_scales<W: Real>(
    v: spec_fn(W) -> real,
    initial: &Vec<W>,
    scales: Vec<W>,
    i: int,
)
    requires
        is_exact(v),
        value_sum(v, initial@) != 0 as real,
        call_ensures(estimate_embedded_scale_from_initial_scales::<W>, (initial,), scales),
        0 <= i < initial@.len(),
    ensures
        scales@.len() == initial@.len(),
        v(scales@[i]) * value_sum(v, initial@) == v(initial@[i]) * (initial@.len() as real),
        value_sum(v, scales@) == initial@.len() as real,
{
    assert(initial@.len() == initial.len());
    lemma_relative_scales(v, initial@, scales@, i);
}

/// The optimization has scales in the embedded space that are proportional to the scales of the
/// nodes, with mean 1.
pub proof fn law_embedded_scales<F: Real, W: Real>(
    v: spec_fn(W) -> real,
    node_params: &NodeParams<W>,
    b: W,
    initial_embed: &Matrix<F>,
    optim: EntropyOptim<F, W>,
    i: int,
)
    requires
        is_exact(v),
        value_sum(v, optim.initial_scales@) != 0 as real,
        call_ensures(EntropyOptim::<F, W>::new, (node_params, b, initial_embed), optim),
        0 <= i < node_params.params@.len(),
    ensures
        optim.embedded_scales@.len() == node_params.params@.len(),
        v(optim.embedded_scales@[i]) * value_sum(v, optim.initial_scales@) == v(node_params.params@[i].scale) * (
        node_params.params@.len() as real),
        value_sum(v, optim.embedded_scales@) == node_params.params@.len() as real,
{
    assert(optim.initial_scales@.len() == optim.initial_scales.len());
    lemma_relative_scales(v, optim.initial_scales@, optim.embedded_scales@, i);
}

/// With the scale that is estimated from the first neighbour in place of the square of the scale,
/// the weight of the edge from a node to its first neighbour is the probability of that edge.
pub proof fn law_scales_from_first_neighbour<F: Real + CastTo<W>, W: Real>(
    vf: spec_fn(F) -> real,
    vw: spec_fn(W) -> real,
    power: spec_fn(real, real) -> real,
    node_params: &NodeParams<W>,
    b: W,
    embed: &Matrix<F>,
    scales: Vec<W>,
    i: int,
)
    requires
        is_exact(vf),
        is_exact(vw),
        keeps_value(vf, vw),
        has_powers(vw, power),
        vw(b) != 0 as real,
        call_ensures(
            estimate_embedded_scales_from_first_neighbour::<F, W>,
            (node_params, b, embed),
            scales,
        ),
        0 <= i < node_params.params@.len(),
        (0 as real) < vw(node_params.params@[i].edges@[0].weight) < 1 as real,
        gap_between(vf, embed@[i], embed@[node_params.params@[i].edges@[0].node as int]) > 0 as real,
    ensures
        scales@.len() == node_params.params@.len(),
        ({
            let first = node_params.params@[i].edges@[0];
            let d = gap_between(vf, embed@[i], embed@[first.node as int]);
            &&& vw(scales@[i]) > 0 as real
            &&& vw(first.weight) * (1 as real + power(d / vw(scales@[i]), vw(b))) == 1 as real
        }),
{
    let first = node_params.params@[i].edges@[0];
    let (y1, y2) = (embed@[i], embed@[first.node as int]);
    let (p, estimate) = (first.weight, scales@[i]);
    assert(is_first_neighbour_scale(p, b, y1, y2, estimate));
    let (one, q, odds, e, f, d, x) = choose|one: W, q: W, odds: W, e: W, f: W, d: F, x: W|
        is_one(one) && is_diff(one, p, q) && is_quot(p, q, odds) && is_quot(one, b, e) && is_power(
            odds,
            e,
            f,
        ) && is_squared_distance(y1, y2, d) && is_cast(d, x) && is_prod(f, x, estimate);
    law_distance_exact(vf, y1, y2, d);
    let (dist, pv, qv, ov, ev, fv, bv, sv) = (
        vf(d),
        vw(p),
        vw(q),
        vw(odds),
        vw(e),
        vw(f),
        vw(b),
        vw(estimate),
    );
    assert(ov > 0 as real) by (nonlinear_arith)
        requires
            ov * qv == pv,
            qv > 0 as real,
            pv > 0 as real,
    ;
    assert(fv == power(ov, ev) && fv > 0 as real);
    assert(sv == fv * dist);
    assert(sv > 0 as real) by (nonlinear_arith)
        requires
            sv == fv * dist,
            fv > 0 as real,
            dist > 0 as real,
    ;
    let r = dist / sv;
    assert(r * sv == dist) by (nonlinear_arith)
        requires
            r == dist / sv,
            sv > 0 as real,
    ;
    assert(r * fv == 1 as real) by (nonlinear_arith)
        requires
            r * sv == dist,
            sv == fv * dist,
            dist > 0 as real,
    ;
    assert(r > 0 as real) by (nonlinear_arith)
        requires
            r * fv == 1 as real,
            fv > 0 as real,
    ;
    assert(power(r, bv) * power(fv, bv) == 1 as real);
    assert(power(power(ov, ev), bv) == power(ov, ev * bv));
    assert(power(fv, bv) == ov);
    let u = power(r, bv);
    assert(pv * (1 as real + u) == 1 as real) by (nonlinear_arith)
        requires
            u * ov == 1 as real,
            ov * qv == pv,
            qv == 1 as real - pv,
    {
        assert(u * pv == (u * ov) * qv);
    }
}

} // verus!
