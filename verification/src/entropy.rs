//! Minimization of the cross entropy between the graph and its embedding.
use vstd::prelude::*;

use crate::graph::{
    all_edges, edges_before, in_range, law_all_edges_in_order, law_all_edges_sound, no_loop, tagged, NodeIdx, OutEdge,
};
use crate::laplacian::{edge_lists, lemma_edge_lists};
use crate::matrix::{rectangular, Matrix};
use crate::number::{
    is_at_most, is_below, is_cast, is_count, is_diff, is_exp, is_finite, is_ln, is_neg, is_normal,
    is_one, is_positive, is_power, is_prod, is_quot, is_ratio, is_squared_gap, is_sum, is_total,
    is_zero, positive, squared_gap, total, CastTo, Real,
};
use crate::scale::{NodeParam, NodeParams};

verus! {

/// Why the optimization was given up.
#[derive(Clone, Copy, Debug, PartialEq, Eq, Structural)]
pub enum EntropyError {
    /// The weight of an embedded edge is zero, infinite, subnormal or undefined.
    WeightNotNormal,
    /// The weight of an edge of the graph, a probability, is greater than 1.
    WeightAboveOne,
    /// The cross entropy is infinite or undefined.
    NotFinite,
}

/// `d` is the squared euclidean distance between the points.
pub open spec fn is_squared_distance<F: Real>(y1: Seq<F>, y2: Seq<F>, d: F) -> bool {
    exists|gaps: Seq<F>|
        #![trigger is_total(gaps, d)]
        gaps.len() == (if y1.len() <= y2.len() {
            y1.len()
        } else {
            y2.len()
        }) && (forall|k: int|
            0 <= k < gaps.len() ==> is_squared_gap(y1[k], y2[k], #[trigger] gaps[k])) && is_total(
            gaps,
            d,
        )
}

/// `r` is the squared distance between the points over the square of the scale.
pub open spec fn is_scaled_distance<F: Real>(y1: Seq<F>, y2: Seq<F>, scale: F, r: F) -> bool {
    exists|d: F, s: F| is_squared_distance(y1, y2, d) && is_prod(scale, scale, s) && is_quot(d, s, r)
}

/// `w` is `1 / (1 + r^b)`, with `r^b` computed as `exp(b * ln(r))`.
pub open spec fn is_cauchy<F: Real + CastTo<W>, W: Real + CastTo<F>>(r: F, b: W, w: F) -> bool {
    exists|x: W, l: W, m: W, e: W, y: F, one: F, den: F|
        is_cast(r, x) && is_ln(x, l) && is_prod(b, l, m) && is_exp(m, e) && is_cast(e, y) && is_one(
            one,
        ) && is_sum(one, y, den) && is_quot(one, den, w)
}

/// `w` is the weight of the edge between two embedded points, `scale` being the scale at the first;
/// asked whether it is a normal number, the arithmetic answered `normal`.
pub open spec fn is_cauchy_weight<F: Real + CastTo<W>, W: Real + CastTo<F>>(
    initial_point: Seq<F>,
    scale: F,
    b: W,
    other: Seq<F>,
    w: F,
    normal: bool,
) -> bool {
    exists|r: F|
        is_scaled_distance(initial_point, other, scale, r) && is_cauchy(r, b, w) && is_normal(
            w,
            normal,
        )
}

/// The squared euclidean distance between the points.
pub fn l2_dist<F: Real>(y1: &Vec<F>, y2: &Vec<F>) -> (d: F)
    ensures
        is_squared_distance(y1@, y2@, d),
{
    let n: usize = if y1.len() <= y2.len() {
        y1.len()
    } else {
        y2.len()
    };
    let mut gaps: Vec<F> = Vec::new();
    for k in 0..n
        invariant
            n <= y1@.len(),
            n <= y2@.len(),
            gaps@.len() == k,
            forall|a: int| 0 <= a < k ==> is_squared_gap(y1@[a], y2@[a], #[trigger] gaps@[a]),
    {
        gaps.push(squared_gap(y1[k], y2[k]));
    }
    total(&gaps)
}

fn scaled_distance<F: Real>(y1: &Vec<F>, y2: &Vec<F>, scale: F) -> (r: F)
    ensures
        is_scaled_distance(y1@, y2@, scale, r),
{
    let d = l2_dist(y1, y2);
    d.over(scale.times(scale))
}

/// The weight of an embedded edge. The scale corresponds to the density observed at the initial
/// point in the graph, hence the asymmetry.
pub fn cauchy_edge_weight<F: Real + CastTo<W>, W: Real + CastTo<F>>(
    initial_point: &Vec<F>,
    scale: F,
    b: W,
    other: &Vec<F>,
) -> (res: Result<F, EntropyError>)
    ensures
        match res {
            Ok(w) => is_cauchy_weight(initial_point@, scale, b, other@, w, true),
            Err(error) => error == EntropyError::WeightNotNormal && exists|w: F|
                is_cauchy_weight(initial_point@, scale, b, other@, w, false),
        },
{
    let r = scaled_distance(initial_point, other, scale);
    let x: W = r.cast();
    let e = b.times(x.ln()).exp();
    let y: F = e.cast();
    let one = F::one();
    let w = one.over(one.plus(y));
    assert(is_cauchy(r, b, w));
    if w.normal() {
        Ok(w)
    } else {
        assert(is_cauchy_weight(initial_point@, scale, b, other@, w, false));
        Err(EntropyError::WeightNotNormal)
    }
}

/// `c` is `2 * b * r^(b - 1) * w^2 / scale^2`, with `r` the scaled distance of the points and `w`
/// the weight of the edge between them.
pub open spec fn is_cauchy_slope<F: Real + CastTo<W>, W: Real + CastTo<F>>(
    initial_point: Seq<F>,
    scale: F,
    b: W,
    other: Seq<F>,
    w: F,
    c: F,
) -> bool {
    exists|r: F, x: W, two: W, one: W, t: W, e: W, p: W, k: W, y: F, ww: F, q: F, s: F|
        is_scaled_distance(initial_point, other, scale, r) && is_cast(r, x) && is_ratio(2, 1, two)
            && is_prod(two, b, t) && is_one(one) && is_diff(b, one, e) && is_power(x, e, p)
            && is_prod(t, p, k) && is_cast(k, y) && is_prod(w, w, ww) && is_prod(y, ww, q)
            && is_prod(scale, scale, s) && is_quot(q, s, c)
}

/// `g` is `c * (to - from)`.
pub open spec fn is_slope_along<F: Real>(c: F, from: F, to: F, g: F) -> bool {
    exists|d: F| is_diff(to, from, d) && is_prod(c, d, g)
}

/// The gradient of the weight of an embedded edge with respect to the initial point. Fills in
/// `gradient`, to avoid an allocation.
pub fn grad_cauchy_edge_weight<F: Real + CastTo<W>, W: Real + CastTo<F>>(
    initial_point: &Vec<F>,
    scale: F,
    b: W,
    other: &Vec<F>,
    gradient: &mut Vec<F>,
) -> (res: Result<(), EntropyError>)
    requires
        old(gradient)@.len() == initial_point@.len(),
        other@.len() >= initial_point@.len(),
    ensures
        match res {
            Ok(_) => {
                &&& final(gradient)@.len() == initial_point@.len()
                &&& exists|w: F, c: F|
                    #![trigger is_cauchy_slope(initial_point@, scale, b, other@, w, c)]
                    is_cauchy_weight(initial_point@, scale, b, other@, w, true)
                        && is_cauchy_slope(initial_point@, scale, b, other@, w, c) && forall|k: int|

                        0 <= k < initial_point@.len() ==> is_slope_along(
                            c,
                            initial_point@[k],
                            other@[k],
                            #[trigger] final(gradient)@[k],
                        )
            },
            Err(error) => {
                &&& error == EntropyError::WeightNotNormal
                &&& exists|w: F|
                    is_cauchy_weight(initial_point@, scale, b, other@, w, false)
                &&& final(gradient)@ == old(gradient)@
            },
        },
{
    let r = scaled_distance(initial_point, other, scale);
    let w = match cauchy_edge_weight(initial_point, scale, b, other) {
        Ok(w) => w,
        Err(error) => {
            return Err(error);
        },
    };
    let x: W = r.cast();
    let t = W::ratio(2, 1).times(b);
    let e = b.minus(W::one());
    let y: F = t.times(x.power(e)).cast();
    let q = y.times(w.times(w));
    let c = q.over(scale.times(scale));
    assert(is_cauchy_slope(initial_point@, scale, b, other@, w, c));
    let n: usize = gradient.len();
    for k in 0..n
        invariant
            n == initial_point@.len(),
            other@.len() >= n,
            gradient@.len() == n,
            forall|a: int|
                0 <= a < k ==> is_slope_along(
                    c,
                    initial_point@[a],
                    other@[a],
                    #[trigger] gradient@[a],
                ),
    {
        let g = c.times(other[k].minus(initial_point[k]));
        gradient.set(k, g);
    }
    Ok(())
}

/// `scale` is `(p / (1 - p))^(1 / b)` times the squared distance of the points.
pub open spec fn is_first_neighbour_scale<F: Real + CastTo<W>, W: Real>(
    p: W,
    b: W,
    y1: Seq<F>,
    y2: Seq<F>,
    scale: W,
) -> bool {
    exists|one: W, q: W, odds: W, e: W, f: W, d: F, x: W|
        is_one(one) && is_diff(one, p, q) && is_quot(p, q, odds) && is_quot(one, b, e) && is_power(
            odds,
            e,
            f,
        ) && is_squared_distance(y1, y2, d) && is_cast(d, x) && is_prod(f, x, scale)
}

/// The scales in the embedded space with which a point is not pushed with respect to its first
/// neighbour in the initial space.
pub fn estimate_embedded_scales_from_first_neighbour<F: Real + CastTo<W>, W: Real>(
    node_params: &NodeParams<W>,
    b: W,
    initial_embed: &Matrix<F>,
) -> (scales: Vec<W>)
    requires
        node_params.params@.len() <= initial_embed@.len(),
        forall|i: int|
            0 <= i < node_params.params@.len() ==> (#[trigger] node_params.params@[i]).edges@.len()
                > 0 && node_params.params@[i].edges@[0].node < initial_embed@.len(),
    ensures
        scales@.len() == node_params.params@.len(),
        forall|i: int|
            0 <= i < scales@.len() ==> is_first_neighbour_scale(
                node_params.params@[i].edges@[0].weight,
                b,
                initial_embed@[i],
                initial_embed@[node_params.params@[i].edges@[0].node as int],
                #[trigger] scales@[i],
            ),
{
    let mut scales: Vec<W> = Vec::new();
    for i in 0..node_params.params.len()
        invariant
            node_params.params@.len() <= initial_embed@.len(),
            forall|a: int|
                0 <= a < node_params.params@.len() ==> (
                #[trigger] node_params.params@[a]).edges@.len() > 0
                    && node_params.params@[a].edges@[0].node < initial_embed@.len(),
            scales@.len() == i,
            forall|a: int|
                0 <= a < i ==> is_first_neighbour_scale(
                    node_params.params@[a].edges@[0].weight,
                    b,
                    initial_embed@[a],
                    initial_embed@[node_params.params@[a].edges@[0].node as int],
                    #[trigger] scales@[a],
                ),
    {
        let first = node_params.params[i].edges[0];
        let p = first.weight;
        let one = W::one();
        let f = p.over(one.minus(p)).power(one.over(b));
        let x: W = l2_dist(initial_embed.row(i), initial_embed.row(first.node)).cast();
        scales.push(f.times(x));
    }
    scales
}

/// `mean` is the mean of the numbers.
pub open spec fn is_mean<W: Real>(numbers: Seq<W>, mean: W) -> bool {
    exists|sum: W, n: W|
        is_total(numbers, sum) && is_count(numbers.len() as usize, n) && is_quot(sum, n, mean)
}

/// `scales` are the initial scales, each divided by their mean.
pub open spec fn are_relative_scales<W: Real>(initial_scales: Seq<W>, scales: Seq<W>) -> bool {
    &&& scales.len() == initial_scales.len()
    &&& exists|mean: W|
        #![trigger is_mean(initial_scales, mean)]
        is_mean(initial_scales, mean) && forall|i: int|
            0 <= i < scales.len() ==> is_quot(initial_scales[i], mean, #[trigger] scales[i])
}

/// The scales in the embedded space (in the unit ball): the scale at the corresponding point,
/// divided by the mean of the scales.
pub fn estimate_embedded_scale_from_initial_scales<W: Real>(initial_scales: &Vec<W>) -> (scales: Vec<
    W,
>)
    ensures
        are_relative_scales(initial_scales@, scales@),
{
    let mean = total(initial_scales).over(W::count(initial_scales.len()));
    assert(is_mean(initial_scales@, mean));
    let mut scales: Vec<W> = Vec::new();
    for i in 0..initial_scales.len()
        invariant
            scales@.len() == i,
            forall|a: int|
                0 <= a < i ==> is_quot(initial_scales@[a], mean, #[trigger] scales@[a]),
    {
        scales.push(initial_scales[i].over(mean));
    }
    scales
}

/// What the optimization does not change: the edges with their probabilities, the scale at each
/// node and the exponent.
pub struct Setting<W> {
    pub edges: Seq<(NodeIdx, OutEdge<W>)>,
    pub scales: Seq<W>,
    pub b: W,
}

impl<W> Setting<W> {
    /// Every edge starts from a node that has a scale, and connects two of `n` points.
    pub open spec fn fits(self, n: int) -> bool {
        forall|k: int|
            0 <= k < self.edges.len() ==> (#[trigger] self.edges[k]).0 < n && self.edges[k].0
                < self.scales.len() && self.edges[k].1.node < n
    }

    /// No edge leads from a node back to itself.
    pub open spec fn loop_free(self) -> bool {
        forall|k: int|
            0 <= k < self.edges.len() ==> (#[trigger] self.edges[k]).0 != self.edges[k].1.node
    }
}

/// `w` is the weight of the edge between the embedded points; asked whether it is a normal number,
/// the arithmetic answered `normal`.
pub open spec fn is_embedded_weight<F: Real + CastTo<W>, W: Real + CastTo<F>>(
    setting: Setting<W>,
    rows: Seq<Seq<F>>,
    edge: (NodeIdx, OutEdge<W>),
    w: F,
    normal: bool,
) -> bool {
    exists|scale: F|
        is_cast(setting.scales[edge.0 as int], scale) && is_cauchy_weight(
            rows[edge.0 as int],
            scale,
            setting.b,
            rows[edge.1.node as int],
            w,
            normal,
        )
}

/// `out` is `acc - w * ln(we)`, or `acc` where `we` is not positive.
pub open spec fn is_likely_term<D: Real>(acc: D, w: D, we: D, out: D) -> bool {
    ||| is_positive(we, false) && out == acc
    ||| is_positive(we, true) && exists|m: D, l: D, p: D|
        is_neg(w, m) && is_ln(we, l) && is_prod(m, l, p) && is_sum(acc, p, out)
}

/// `out` is `acc - (1 - w) * ln(1 - we)`, or `acc` where `we` is not below 1.
pub open spec fn is_unlikely_term<D: Real>(acc: D, w: D, we: D, out: D) -> bool {
    exists|one: D| #[trigger]
        is_one(one) && {
            ||| is_below(we, one, false) && out == acc
            ||| is_below(we, one, true) && exists|c: D, m: D, e: D, l: D, p: D|
                is_diff(one, w, c) && is_neg(c, m) && is_diff(one, we, e) && is_ln(e, l) && is_prod(
                    m,
                    l,
                    p,
                ) && is_sum(acc, p, out)
        }
}

/// `out` is `acc` and the cross entropy of the probability `w` and the embedded weight `we`.
pub open spec fn is_cross_entropy<D: Real>(acc: D, w: D, we: D, out: D) -> bool {
    exists|mid: D|
        #![trigger is_likely_term(acc, w, we, mid)]
        is_likely_term(acc, w, we, mid) && is_unlikely_term(mid, w, we, out)
}

/// `out` is `acc` and the cross entropy of one edge.
pub open spec fn is_edge_entropy<
    F: Real + CastTo<W> + CastTo<D>,
    W: Real + CastTo<F> + CastTo<D>,
    D: Real,
>(
    setting: Setting<W>,
    rows: Seq<Seq<F>>,
    edge: (NodeIdx, OutEdge<W>),
    acc: D,
    out: D,
) -> bool {
    exists|w: D, f: F, we: D|
        is_cast(edge.1.weight, w) && is_embedded_weight(setting, rows, edge, f, true) && is_cast(
            f,
            we,
        ) && is_cross_entropy(acc, w, we, out)
}

/// `term` is the cross entropy of one edge.
pub open spec fn is_edge_term<
    F: Real + CastTo<W> + CastTo<D>,
    W: Real + CastTo<F> + CastTo<D>,
    D: Real,
>(setting: Setting<W>, rows: Seq<Seq<F>>, edge: (NodeIdx, OutEdge<W>), term: D) -> bool {
    exists|zero: D| is_zero(zero) && is_edge_entropy(setting, rows, edge, zero, term)
}

/// `ce` is the cross entropy of the first `n` edges, and finite, as it was after each edge.
pub open spec fn is_entropy<
    F: Real + CastTo<W> + CastTo<D>,
    W: Real + CastTo<F> + CastTo<D>,
    D: Real,
>(setting: Setting<W>, rows: Seq<Seq<F>>, n: nat, ce: D) -> bool
    decreases n,
{
    if n == 0 {
        is_zero(ce)
    } else {
        exists|acc: D|
            is_entropy(setting, rows, (n - 1) as nat, acc) && #[trigger] is_edge_entropy(
                setting,
                rows,
                setting.edges[n - 1],
                acc,
                ce,
            ) && is_finite(ce, true)
    }
}

/// `res` is the cross entropy between the graph and its embedding, or the first thing that goes
/// wrong in the order of the edges.
pub open spec fn is_entropy_outcome<
    F: Real + CastTo<W> + CastTo<D>,
    W: Real + CastTo<F> + CastTo<D>,
    D: Real,
>(setting: Setting<W>, rows: Seq<Seq<F>>, res: Result<D, EntropyError>) -> bool {
    match res {
        Ok(ce) => is_entropy(setting, rows, setting.edges.len(), ce),
        Err(EntropyError::WeightNotNormal) => exists|n: nat, acc: D, w: F|
            n < setting.edges.len() && is_entropy(setting, rows, n, acc) && is_embedded_weight(
                setting,
                rows,
                setting.edges[n as int],
                w,
                false,
            ),
        Err(EntropyError::NotFinite) => exists|n: nat, acc: D, ce: D|
            n < setting.edges.len() && is_entropy(setting, rows, n, acc) && is_edge_entropy(
                setting,
                rows,
                setting.edges[n as int],
                acc,
                ce,
            ) && is_finite(ce, false),
        Err(EntropyError::WeightAboveOne) => false,
    }
}

/// `acc` and the cross entropy of the probability `w` and the embedded weight `we`.
fn add_cross_entropy<D: Real>(acc: D, w: D, we: D) -> (out: D)
    ensures
        is_cross_entropy(acc, w, we, out),
{
    let mut mid = acc;
    if positive(we) {
        let p = w.negated().times(we.ln());
        mid = acc.plus(p);
    }
    assert(is_likely_term(acc, w, we, mid));
    let one = D::one();
    let mut out = mid;
    if we.below(one) {
        let m = one.minus(w).negated();
        let p = m.times(one.minus(we).ln());
        out = mid.plus(p);
    }
    assert(is_unlikely_term(mid, w, we, out));
    out
}

/// `c` is the coefficient of the gradient, at an edge of probability `w` between points of squared
/// distance `d`, with the scale `scale`:
/// `2 * (-w / (scale + d) + (1 - w) / ((0.001 + d) * (1 + d / scale)))`. That is the gradient of
/// the cross entropy of `w` and the embedded weight `1 / (1 + d / scale)`, with 0.001 added where
/// the distance would be a divisor.
pub open spec fn is_pull<W: Real + CastTo<D>, D: Real>(w: W, scale: W, d: D, c: D) -> bool {
    exists|
        neg: W,
        m: D,
        s: D,
        a: D,
        t1: D,
        wd: D,
        one: D,
        q: D,
        small: D,
        e: D,
        h: D,
        k: D,
        n: D,
        t2: D,
        t: D,
        two: D,
    |
        is_neg(w, neg) && is_cast(neg, m) && is_cast(scale, s) && is_sum(s, d, a) && is_quot(
            m,
            a,
            t1,
        ) && is_cast(w, wd) && is_one(one) && is_diff(one, wd, q) && is_ratio(1, 1000, small)
            && is_sum(small, d, e) && is_quot(d, s, h) && is_sum(one, h, k) && is_prod(e, k, n)
            && is_quot(q, n, t2) && is_sum(t1, t2, t) && is_ratio(2, 1, two) && is_prod(t, two, c)
}

/// The coordinates `yi` and `yj` move to `ni` and `nj`. The gradient with respect to `yi` is
/// `(yj - yi) * c`, and that with respect to `yj` is its opposite; each coordinate moves against
/// its own gradient, by the gradient times `step`.
pub open spec fn is_coordinate_move<F: Real>(yi: F, yj: F, c: F, step: F, ni: F, nj: F) -> bool {
    exists|d: F, g: F, m: F|
        is_diff(yj, yi, d) && is_prod(d, c, g) && is_prod(g, step, m) && is_diff(yi, m, ni)
            && is_sum(yj, m, nj)
}

/// The points `yi` and `yj` move to `ni` and `nj`, coordinate by coordinate. Coordinates that only
/// `yj` has stay.
pub open spec fn is_point_move<F: Real>(
    yi: Seq<F>,
    yj: Seq<F>,
    c: F,
    step: F,
    ni: Seq<F>,
    nj: Seq<F>,
) -> bool {
    &&& ni.len() == yi.len()
    &&& nj.len() == yj.len()
    &&& forall|k: int|
        0 <= k < yi.len() ==> is_coordinate_move(
            yi[k],
            yj[k],
            c,
            step,
            #[trigger] ni[k],
            nj[k],
        )
    &&& forall|k: int| yi.len() <= k < yj.len() ==> #[trigger] nj[k] == yj[k]
}

/// `c` is the coefficient of the gradient at an edge between the embedded points `rows`, converted.
pub open spec fn is_edge_pull<F: Real + CastTo<D>, W: Real + CastTo<D>, D: Real + CastTo<F>>(
    setting: Setting<W>,
    edge: (NodeIdx, OutEdge<W>),
    rows: Seq<Seq<F>>,
    c: F,
) -> bool {
    exists|df: F, d: D, cd: D|
        is_squared_distance(rows[edge.0 as int], rows[edge.1.node as int], df) && is_cast(df, d)
            && is_pull(edge.1.weight, setting.scales[edge.0 as int], d, cd) && is_cast(cd, c)
}

/// One descent step along an edge takes the points `rows` to `after`: the two ends of the edge
/// move, and nothing else.
pub open spec fn is_edge_move<F: Real + CastTo<D>, W: Real + CastTo<D>, D: Real + CastTo<F>>(
    setting: Setting<W>,
    edge: (NodeIdx, OutEdge<W>),
    grad_step: D,
    rows: Seq<Seq<F>>,
    after: Seq<Seq<F>>,
) -> bool {
    &&& exists|one: W| is_one(one) && is_at_most(edge.1.weight, one, true)
    &&& exists|c: F, step: F, ni: Seq<F>, nj: Seq<F>|
        #![trigger is_point_move(rows[edge.0 as int], rows[edge.1.node as int], c, step, ni, nj)]
        is_edge_pull::<F, W, D>(setting, edge, rows, c) && is_cast(grad_step, step)
            && is_point_move(
            rows[edge.0 as int],
            rows[edge.1.node as int],
            c,
            step,
            ni,
            nj,
        ) && after == rows.update(edge.0 as int, ni).update(edge.1.node as int, nj)
}

/// The descent steps along the first `n` edges, one after the other, take the points `rows` to
/// `after`.
pub open spec fn is_descent<F: Real + CastTo<D>, W: Real + CastTo<D>, D: Real + CastTo<F>>(
    setting: Setting<W>,
    grad_step: D,
    n: nat,
    rows: Seq<Seq<F>>,
    after: Seq<Seq<F>>,
) -> bool
    decreases n,
{
    if n == 0 {
        after == rows
    } else {
        exists|mid: Seq<Seq<F>>|
            is_descent(setting, grad_step, (n - 1) as nat, rows, mid) && #[trigger] is_edge_move(
                setting,
                setting.edges[n - 1],
                grad_step,
                mid,
                after,
            )
    }
}

/// The outcome of an iteration over all edges: the points are moved along each, or the iteration
/// stops with a refusal at the first edge with a probability above 1.
pub open spec fn is_iteration<F: Real + CastTo<D>, W: Real + CastTo<D>, D: Real + CastTo<F>>(
    setting: Setting<W>,
    grad_step: D,
    rows: Seq<Seq<F>>,
    after: Seq<Seq<F>>,
    res: Result<(), EntropyError>,
) -> bool {
    match res {
        Ok(_) => is_descent(setting, grad_step, setting.edges.len(), rows, after),
        Err(EntropyError::WeightAboveOne) => exists|n: nat|
            n < setting.edges.len() && #[trigger] is_descent(setting, grad_step, n, rows, after)
                && is_above_one(setting.edges[n as int]),
        Err(_) => false,
    }
}

/// Asked whether the probability of the edge is at most 1, the arithmetic answered no.
pub open spec fn is_above_one<W: Real>(edge: (NodeIdx, OutEdge<W>)) -> bool {
    exists|one: W| is_one(one) && is_at_most(edge.1.weight, one, false)
}

/// The number of iterations of the optimization.
pub const NB_ITERATIONS: usize = 10;

/// `step` is `0.1 / k`, the step of the iteration `k`, counted from 1.
pub open spec fn is_grad_step<D: Real>(k: usize, step: D) -> bool {
    exists|init: D, n: D| is_ratio(1, 10, init) && is_count(k, n) && is_quot(init, n, step)
}

/// The first `k` iterations take the points `rows` to `after`.
pub open spec fn are_iterations<F: Real + CastTo<D>, W: Real + CastTo<D>, D: Real + CastTo<F>>(
    setting: Setting<W>,
    k: nat,
    rows: Seq<Seq<F>>,
    after: Seq<Seq<F>>,
) -> bool
    decreases k,
{
    if k == 0 {
        after == rows
    } else {
        exists|mid: Seq<Seq<F>>, step: D|
            #![trigger is_descent(setting, step, setting.edges.len(), mid, after)]
            are_iterations::<F, W, D>(setting, (k - 1) as nat, rows, mid) && is_grad_step(
                k as usize,
                step,
            ) && is_descent(setting, step, setting.edges.len(), mid, after)
    }
}

/// All that is needed to optimize the entropy discrepancy: a list of edges with the probability of
/// each, the scale of each node and the coordinates of each node in the embedded space.
pub struct EntropyOptim<F, W> {
    /// for each edge the node it starts from, the node it leads to and its probability
    pub edges: Vec<(NodeIdx, OutEdge<W>)>,
    /// scale for each node
    pub initial_scales: Vec<W>,
    /// embedded coordinates of each node
    pub embedded: Vec<Vec<F>>,
    /// scale for each node in the embedded space
    pub embedded_scales: Vec<W>,
    /// exponent of the weights of embedded edges
    pub b: W,
}

impl<F, W> EntropyOptim<F, W> {
    /// What the optimization does not change.
    pub open spec fn setting(&self) -> Setting<W> {
        Setting { edges: self.edges@, scales: self.initial_scales@, b: self.b }
    }

    /// The embedded points.
    pub open spec fn rows(&self) -> Seq<Seq<F>> {
        self.embedded@.map_values(|row: Vec<F>| row@)
    }

    /// Every edge connects two different embedded points, and all points have as many coordinates.
    pub open spec fn wf(&self) -> bool {
        &&& self.setting().fits(self.embedded@.len() as int)
        &&& self.setting().loop_free()
        &&& self.embedded@.len() > 0
        &&& rectangular(self.rows(), self.rows()[0].len())
    }

    /// The edge connects two different embedded points, it starts from a node that has a scale, and
    /// the point that it leads to has no fewer coordinates than the other.
    pub open spec fn is_movable(&self, edge: (NodeIdx, OutEdge<W>)) -> bool {
        &&& edge.0 < self.embedded@.len()
        &&& edge.0 < self.initial_scales@.len()
        &&& edge.1.node < self.embedded@.len()
        &&& edge.0 != edge.1.node
        &&& self.embedded@[edge.0 as int]@.len() <= self.embedded@[edge.1.node as int]@.len()
    }

    /// Points can be moved along every edge.
    pub open spec fn are_movable(&self) -> bool {
        forall|k: int| 0 <= k < self.edges@.len() ==> self.is_movable(#[trigger] self.edges@[k])
    }
}

/// Edges that lead to nodes of the graph connect nodes that have a scale.
pub proof fn lemma_setting_fits<W>(lists: Seq<Seq<OutEdge<W>>>, setting: Setting<W>)
    requires
        in_range(lists, lists.len() as int),
        lists.len() <= NodeIdx::MAX,
        setting.edges == all_edges(lists),
        setting.scales.len() == lists.len(),
    ensures
        setting.fits(lists.len() as int),
        no_loop(lists) ==> setting.loop_free(),
{
    assert forall|k: int| 0 <= k < setting.edges.len() implies {
        let (i, e) = #[trigger] setting.edges[k];
        &&& i < lists.len()
        &&& e.node < lists.len()
        &&& no_loop(lists) ==> i != e.node
    } by {
        law_all_edges_sound(lists, k);
        let (i, e) = setting.edges[k];
        let j = choose|j: int| 0 <= j < lists[i as int].len() && lists[i as int][j] == e;
        assert(lists[i as int][j].node < lists.len());
    }
}

/// The edges of the parameters, each with the node that it starts from.
fn flat_edges<W: Copy>(params: &NodeParams<W>) -> (edges: Vec<(NodeIdx, OutEdge<W>)>)
    ensures
        edges@ == all_edges(edge_lists(params.params@)),
{
    let ghost lists = edge_lists(params.params@);
    let n: usize = params.params.len();
    let mut edges: Vec<(NodeIdx, OutEdge<W>)> = Vec::new();
    for i in 0..n
        invariant
            n == params.params@.len(),
            lists == edge_lists(params.params@),
            edges@ == all_edges(lists.take(i as int)),
    {
        let list = &params.params[i].edges;
        let ghost before = edges@;
        for k in 0..list.len()
            invariant
                edges@ =~= before + tagged(i, list@.take(k as int)),
        {
            edges.push((i, list[k]));
            assert(list@.take(k + 1) =~= list@.take(k as int).push(list@[k as int]));
        }
        proof {
            assert(list@.take(list@.len() as int) =~= list@);
            assert(lists.take(i + 1).drop_last() =~= lists.take(i as int));
            assert(lists.take(i + 1).last() == list@);
        }
    }
    assert(lists.take(n as int) =~= lists);
    edges
}

/// The scales of the nodes.
pub open spec fn scales_of<W>(params: Seq<NodeParam<W>>) -> Seq<W> {
    params.map_values(|p: NodeParam<W>| p.scale)
}

impl<F: Real, W: Real> EntropyOptim<F, W> {
    /// The optimization starts from the initial embedding.
    pub fn new(node_params: &NodeParams<W>, b: W, initial_embed: &Matrix<F>) -> (res: EntropyOptim<
        F,
        W,
    >)
        requires
            node_params.params@.len() > 0,
        ensures
            res.edges@ == all_edges(edge_lists(node_params.params@)),
            res.initial_scales@ == scales_of(node_params.params@),
            res.rows() == initial_embed@,
            are_relative_scales(res.initial_scales@, res.embedded_scales@),
            res.b == b,
            node_params.wf() && no_loop(edge_lists(node_params.params@))
                && node_params.params@.len() <= initial_embed@.len()
                ==> res.wf() && res.are_movable(),
    {
        let n: usize = node_params.params.len();
        let edges = flat_edges(node_params);
        let mut initial_scales: Vec<W> = Vec::new();
        for i in 0..n
            invariant
                n == node_params.params@.len(),
                initial_scales@ =~= scales_of(node_params.params@).take(i as int),
        {
            initial_scales.push(node_params.params[i].scale);
        }
        let mut embedded: Vec<Vec<F>> = Vec::new();
        let nbrow: usize = initial_embed.nrows();
        for i in 0..nbrow
            invariant
                nbrow == initial_embed@.len(),
                embedded@.len() == i,
                forall|a: int| 0 <= a < i ==> (#[trigger] embedded@[a])@ == initial_embed@[a],
        {
            embedded.push(copied(initial_embed.row(i)));
        }
        let embedded_scales = estimate_embedded_scale_from_initial_scales(&initial_scales);
        let res = EntropyOptim { edges, initial_scales, embedded, embedded_scales, b };
        proof {
            assert(res.rows() =~= initial_embed@);
            if node_params.wf() {
                lemma_edge_lists(node_params);
                lemma_setting_fits(edge_lists(node_params.params@), res.setting());
                if res.wf() {
                    lemma_wf_movable(res);
                }
            }
        }
        res
    }

    /// The embedded points, as a matrix.
    pub fn get_embedded(&self) -> (m: Matrix<F>)
        requires
            self.embedded@.len() > 0,
            rectangular(self.rows(), self.rows()[0].len()),
        ensures
            m@ == self.rows(),
            m.width() == self.rows()[0].len(),
    {
        let nbrow: usize = self.embedded.len();
        let nbcol: usize = self.embedded[0].len();
        let mut rows: Vec<Vec<F>> = Vec::new();
        for i in 0..nbrow
            invariant
                nbrow == self.embedded@.len(),
                rows@.len() == i,
                forall|a: int| 0 <= a < i ==> (#[trigger] rows@[a])@ == self.embedded@[a]@,
        {
            rows.push(copied(&self.embedded[i]));
        }
        assert(rows@.map_values(|row: Vec<F>| row@) =~= self.rows());
        Matrix::new(nbcol, rows)
    }
}

/// A copy of the numbers.
fn copied<T: Copy>(v: &Vec<T>) -> (res: Vec<T>)
    ensures
        res@ == v@,
{
    let mut res: Vec<T> = Vec::new();
    for k in 0..v.len()
        invariant
            res@ =~= v@.take(k as int),
    {
        res.push(v[k]);
    }
    assert(v@.take(v@.len() as int) =~= v@);
    res
}

/// The coefficient of the gradient at an edge.
fn pull<W: Real + CastTo<D>, D: Real>(w: W, scale: W, d: D) -> (c: D)
    ensures
        is_pull(w, scale, d, c),
{
    let m: D = w.negated().cast();
    let s: D = scale.cast();
    let t1 = m.over(s.plus(d));
    let wd: D = w.cast();
    let one = D::one();
    let e = D::ratio(1, 1000).plus(d);
    let n = e.times(one.plus(d.over(s)));
    let t2 = one.minus(wd).over(n);
    t1.plus(t2).times(D::ratio(2, 1))
}

/// The step of the iteration `k`, counted from 1.
fn grad_step<D: Real>(k: usize) -> (step: D)
    ensures
        is_grad_step(k, step),
{
    D::ratio(1, 10).over(D::count(k))
}

impl<F: Real + CastTo<W>, W: Real + CastTo<F>> EntropyOptim<F, W> {
    /// The weight of the edge in the embedded space.
    fn embedded_weight(&self, edge: (NodeIdx, OutEdge<W>)) -> (res: Result<F, EntropyError>)
        requires
            edge.0 < self.embedded@.len(),
            edge.0 < self.initial_scales@.len(),
            edge.1.node < self.embedded@.len(),
        ensures
            match res {
                Ok(w) => is_embedded_weight(self.setting(), self.rows(), edge, w, true),
                Err(error) => error == EntropyError::WeightNotNormal && exists|w: F|
                    is_embedded_weight(self.setting(), self.rows(), edge, w, false),
            },
    {
        let (i, e) = edge;
        let scale: F = self.initial_scales[i].cast();
        let res = cauchy_edge_weight(&self.embedded[i], scale, self.b, &self.embedded[e.node]);
        proof {
            let (setting, rows) = (self.setting(), self.rows());
            let (yi, yj) = (rows[edge.0 as int], rows[edge.1.node as int]);
            assert(yi == self.embedded@[i as int]@ && yj == self.embedded@[e.node as int]@);
            assert(is_cast(setting.scales[edge.0 as int], scale));
            match res {
                Ok(w) => assert(is_cauchy_weight(yi, scale, setting.b, yj, w, true)),
                Err(_) => {
                    let w = choose|w: F| is_cauchy_weight(yi, scale, setting.b, yj, w, false);
                    assert(is_cauchy_weight(yi, scale, setting.b, yj, w, false));
                    assert(is_embedded_weight(setting, rows, edge, w, false));
                },
            }
        }
        res
    }

    /// `acc` and the cross entropy of the edge.
    fn add_edge_entropy<D: Real>(&self, edge: (NodeIdx, OutEdge<W>), acc: D) -> (res: Result<
        D,
        EntropyError,
    >) where F: CastTo<D>, W: CastTo<D>
        requires
            edge.0 < self.embedded@.len(),
            edge.0 < self.initial_scales@.len(),
            edge.1.node < self.embedded@.len(),
        ensures
            match res {
                Ok(out) => is_edge_entropy(self.setting(), self.rows(), edge, acc, out),
                Err(error) => error == EntropyError::WeightNotNormal && exists|w: F|
                    is_embedded_weight(self.setting(), self.rows(), edge, w, false),
            },
    {
        let w: D = edge.1.weight.cast();
        match self.embedded_weight(edge) {
            Ok(f) => {
                let we: D = f.cast();
                Ok(add_cross_entropy(acc, w, we))
            },
            Err(error) => Err(error),
        }
    }

    /// The cross entropy of one edge. The cross entropy of the embedding is the sum over the edges,
    /// which may be taken in any order and by several threads.
    pub fn ce_edge_term<D: Real>(&self, edge_idx: usize) -> (res: Result<D, EntropyError>) where
        F: CastTo<D>,
        W: CastTo<D>,

        requires
            self.setting().fits(self.embedded@.len() as int),
            edge_idx < self.edges@.len(),
        ensures
            match res {
                Ok(term) => is_edge_term(
                    self.setting(),
                    self.rows(),
                    self.edges@[edge_idx as int],
                    term,
                ),
                Err(error) => error == EntropyError::WeightNotNormal && exists|w: F|
                    is_embedded_weight(
                        self.setting(),
                        self.rows(),
                        self.edges@[edge_idx as int],
                        w,
                        false,
                    ),
            },
    {
        let edge = self.edges[edge_idx];
        assert(self.setting().edges[edge_idx as int] == edge);
        self.add_edge_entropy(edge, D::zero())
    }

    /// The cross entropy between the initial space and the embedded distribution.
    pub fn ce_compute<D: Real>(&self) -> (res: Result<D, EntropyError>) where
        F: CastTo<D>,
        W: CastTo<D>,

        requires
            self.setting().fits(self.embedded@.len() as int),
        ensures
            is_entropy_outcome(self.setting(), self.rows(), res),
    {
        let ghost setting = self.setting();
        let ghost rows = self.rows();
        let mut ce = D::zero();
        for n in 0..self.edges.len()
            invariant
                setting == self.setting(),
                rows == self.rows(),
                setting.fits(self.embedded@.len() as int),
                is_entropy(setting, rows, n as nat, ce),
        {
            let edge = self.edges[n];
            assert(setting.edges[n as int] == edge);
            match self.add_edge_entropy(edge, ce) {
                Ok(next) => {
                    if !next.finite() {
                        assert(is_entropy_outcome::<F, W, D>(
                            setting,
                            rows,
                            Err(EntropyError::NotFinite),
                        ));
                        return Err(EntropyError::NotFinite);
                    }
                    assert(is_edge_entropy(setting, rows, setting.edges[(n + 1) - 1], ce, next));
                    ce = next;
                },
                Err(error) => {
                    assert(is_entropy_outcome::<F, W, D>(
                        setting,
                        rows,
                        Err(EntropyError::WeightNotNormal),
                    ));
                    return Err(error);
                },
            }
        }
        Ok(ce)
    }
}

/// Points that keep their coordinates in number can still be moved.
proof fn lemma_still_movable<F, W>(a: EntropyOptim<F, W>, b: EntropyOptim<F, W>)
    requires
        a.are_movable(),
        b.setting() == a.setting(),
        b.embedded@.len() == a.embedded@.len(),
        forall|v: int|
            0 <= v < a.embedded@.len() ==> (#[trigger] b.rows()[v]).len() == a.rows()[v].len(),
    ensures
        b.are_movable(),
{
    assert forall|k: int| 0 <= k < b.edges@.len() implies b.is_movable(#[trigger] b.edges@[k]) by {
        let edge = a.setting().edges[k];
        assert(b.setting().edges[k] == edge);
        assert(a.is_movable(a.edges@[k]));
        assert(b.setting().scales == a.setting().scales);
        let (i, j) = (edge.0 as int, edge.1.node as int);
        assert(b.rows()[i] == b.embedded@[i]@ && a.rows()[i] == a.embedded@[i]@);
        assert(b.rows()[j] == b.embedded@[j]@ && a.rows()[j] == a.embedded@[j]@);
    }
}

/// Points of one length can be moved along every edge.
pub proof fn lemma_wf_movable<F, W>(a: EntropyOptim<F, W>)
    requires
        a.wf(),
    ensures
        a.are_movable(),
{
    assert forall|k: int| 0 <= k < a.edges@.len() implies a.is_movable(#[trigger] a.edges@[k]) by {
        let edge = a.setting().edges[k];
        let (i, j) = (edge.0 as int, edge.1.node as int);
        assert(a.rows()[i] == a.embedded@[i]@ && a.rows()[j] == a.embedded@[j]@);
        assert(a.rows()[i].len() == a.rows()[0].len() && a.rows()[j].len() == a.rows()[0].len());
    }
}

impl<F: Real, W: Real> EntropyOptim<F, W> {
    /// Moves the two ends of an edge by one step of gradient descent on the Shannon cross entropy
    /// of its probability and the embedded weight `1 / (1 + d / scale)`. Nothing is moved where the
    /// probability of the edge is above 1.
    pub fn ce_optim_edge_shannon<D: Real + CastTo<F>>(&mut self, edge_idx: usize, grad_step: D) -> (res:
        Result<(), EntropyError>) where F: CastTo<D>, W: CastTo<D>
        requires
            edge_idx < old(self).edges@.len(),
            old(self).is_movable(old(self).edges@[edge_idx as int]),
        ensures
            final(self).setting() == old(self).setting(),
            final(self).embedded_scales == old(self).embedded_scales,
            final(self).embedded@.len() == old(self).embedded@.len(),
            forall|v: int|
                0 <= v < old(self).embedded@.len() ==> (#[trigger] final(self).rows()[v]).len()
                    == old(self).rows()[v].len(),
            old(self).wf() ==> final(self).wf(),
            match res {
                Ok(_) => is_edge_move(
                    old(self).setting(),
                    old(self).edges@[edge_idx as int],
                    grad_step,
                    old(self).rows(),
                    final(self).rows(),
                ),
                Err(error) => {
                    &&& error == EntropyError::WeightAboveOne
                    &&& is_above_one(old(self).edges@[edge_idx as int])
                    &&& final(self).rows() == old(self).rows()
                },
            },
    {
        let (i, e) = self.edges[edge_idx];
        let j: usize = e.node;
        if !e.weight.at_most(W::one()) {
            return Err(EntropyError::WeightAboveOne);
        }
        let ghost rows = self.rows();
        let df = l2_dist(&self.embedded[i], &self.embedded[j]);
        let d: D = df.cast();
        let cd = pull(e.weight, self.initial_scales[i], d);
        let c: F = cd.cast();
        let step: F = grad_step.cast();
        proof {
            assert(rows[i as int] == self.embedded@[i as int]@);
            assert(rows[j as int] == self.embedded@[j as int]@);
        }
        let dim: usize = self.embedded[i].len();
        let mut ni: Vec<F> = Vec::new();
        let mut nj: Vec<F> = Vec::new();
        for k in 0..dim
            invariant
                i < self.embedded@.len(),
                j < self.embedded@.len(),
                self.embedded@[i as int]@ == rows[i as int],
                self.embedded@[j as int]@ == rows[j as int],
                rows[i as int].len() == dim,
                rows[j as int].len() >= dim,
                ni@.len() == k,
                nj@.len() == k,
                forall|a: int|
                    0 <= a < k ==> is_coordinate_move(
                        rows[i as int][a],
                        rows[j as int][a],
                        c,
                        step,
                        #[trigger] ni@[a],
                        nj@[a],
                    ),
        {
            let yi = self.embedded[i][k];
            let yj = self.embedded[j][k];
            let m = yj.minus(yi).times(c).times(step);
            ni.push(yi.minus(m));
            nj.push(yj.plus(m));
        }
        let ghost moved = nj@;
        let width: usize = self.embedded[j].len();
        for k in dim..width
            invariant
                j < self.embedded@.len(),
                rows[j as int].len() == width,
                self.embedded@[j as int]@ == rows[j as int],
                rows[j as int].len() >= dim,
                moved.len() == dim,
                nj@ =~= moved + rows[j as int].subrange(dim as int, k as int),
        {
            nj.push(self.embedded[j][k]);
        }
        self.embedded.set(i, ni);
        self.embedded.set(j, nj);
        proof {
            assert(self.rows() =~= rows.update(i as int, ni@).update(j as int, nj@));
            let setting = self.setting();
            let edge = (i, e);
            let (yi, yj) = (rows[edge.0 as int], rows[edge.1.node as int]);
            assert forall|k: int| 0 <= k < yi.len() implies is_coordinate_move(
                yi[k],
                yj[k],
                c,
                step,
                #[trigger] ni@[k],
                nj@[k],
            ) by {
                assert(nj@[k] == moved[k]);
            }
            assert(is_squared_distance(yi, yj, df) && is_cast(df, d));
            assert(is_pull(edge.1.weight, setting.scales[edge.0 as int], d, cd) && is_cast(cd, c));
            assert(is_edge_pull::<F, W, D>(setting, edge, rows, c));
            assert(is_cast(grad_step, step));
            assert(is_point_move(yi, yj, c, step, ni@, nj@));
            assert(is_edge_move(setting, edge, grad_step, rows, self.rows()));
        }
        Ok(())
    }

    /// One descent step along each edge, in the order of the edges.
    pub fn gradient_iteration<D: Real + CastTo<F>>(&mut self, grad_step: D) -> (res: Result<
        (),
        EntropyError,
    >) where F: CastTo<D>, W: CastTo<D>
        requires
            old(self).are_movable(),
        ensures
            final(self).are_movable(),
            old(self).wf() ==> final(self).wf(),
            final(self).setting() == old(self).setting(),
            final(self).embedded_scales == old(self).embedded_scales,
            final(self).embedded@.len() == old(self).embedded@.len(),
            forall|v: int|
                0 <= v < old(self).embedded@.len() ==> (#[trigger] final(self).rows()[v]).len()
                    == old(self).rows()[v].len(),
            is_iteration(
                old(self).setting(),
                grad_step,
                old(self).rows(),
                final(self).rows(),
                res,
            ),
    {
        let ghost setting = self.setting();
        let ghost rows = self.rows();
        let nb_edges: usize = self.edges.len();
        for n in 0..nb_edges
            invariant
                nb_edges == setting.edges.len(),
                self.are_movable(),
                old(self).wf() ==> self.wf(),
                self.setting() == setting,
                setting == old(self).setting(),
                rows == old(self).rows(),
                self.embedded_scales == old(self).embedded_scales,
                self.embedded@.len() == old(self).embedded@.len(),
                forall|v: int|
                    0 <= v < old(self).embedded@.len() ==> (#[trigger] self.rows()[v]).len()
                        == old(self).rows()[v].len(),
                is_descent(setting, grad_step, n as nat, rows, self.rows()),
        {
            let ghost before = self.rows();
            let ghost prior = *self;
            assert(self.edges@[n as int] == setting.edges[n as int]);
            let outcome = self.ce_optim_edge_shannon(n, grad_step);
            proof {
                lemma_still_movable(prior, *self);
            }
            match outcome {
                Ok(_) => {
                    assert(is_edge_move(
                        setting,
                        setting.edges[(n + 1) - 1],
                        grad_step,
                        before,
                        self.rows(),
                    ));
                },
                Err(error) => {
                    return Err(error);
                },
            }
        }
        Ok(())
    }

    /// All iterations, with steps that become smaller.
    fn iterate<D: Real + CastTo<F>>(&mut self) -> (res: Result<(), EntropyError>) where
        F: CastTo<D>,
        W: CastTo<D>,

        requires
            old(self).wf(),
        ensures
            final(self).wf(),
            final(self).setting() == old(self).setting(),
            final(self).embedded@.len() == old(self).embedded@.len(),
            final(self).rows()[0].len() == old(self).rows()[0].len(),
            match res {
                Ok(_) => are_iterations::<F, W, D>(
                    old(self).setting(),
                    NB_ITERATIONS as nat,
                    old(self).rows(),
                    final(self).rows(),
                ),
                Err(error) => is_stopped::<F, W, D>(old(self).setting(), old(self).rows(), error),
            },
    {
        let ghost setting = self.setting();
        let ghost rows = self.rows();
        let mut k: usize = 0;
        while k < NB_ITERATIONS
            invariant
                k <= NB_ITERATIONS,
                self.wf(),
                self.setting() == setting,
                setting == old(self).setting(),
                rows == old(self).rows(),
                self.embedded@.len() == old(self).embedded@.len(),
                self.rows()[0].len() == old(self).rows()[0].len(),
                are_iterations::<F, W, D>(setting, k as nat, rows, self.rows()),
            decreases NB_ITERATIONS - k,
        {
            k = k + 1;
            let step: D = grad_step(k);
            let ghost before = self.rows();
            proof {
                lemma_wf_movable(*self);
            }
            match self.gradient_iteration(step) {
                Ok(_) => {
                    assert(is_descent(setting, step, setting.edges.len(), before, self.rows()));
                },
                Err(error) => {
                    assert(is_iteration(setting, step, before, self.rows(), Err(error)));
                    return Err(error);
                },
            }
        }
        Ok(())
    }
}

/// One of the iterations that start from the points `rows` stops with a refusal.
pub open spec fn is_stopped<F: Real + CastTo<D>, W: Real + CastTo<D>, D: Real + CastTo<F>>(
    setting: Setting<W>,
    rows: Seq<Seq<F>>,
    error: EntropyError,
) -> bool {
    exists|k: nat, mid: Seq<Seq<F>>, step: D, after: Seq<Seq<F>>|
        #![trigger are_iterations::<F, W, D>(setting, k, rows, mid), is_iteration(setting, step, mid, after, Err(error))]
        k < NB_ITERATIONS && are_iterations::<F, W, D>(setting, k, rows, mid) && is_grad_step(
            (k + 1) as usize,
            step,
        ) && is_iteration(setting, step, mid, after, Err(error))
}

/// What the optimization gives: the cross entropy before and after it, and the embedded points.
pub struct Optimized<F, D> {
    pub initial_ce: D,
    pub final_ce: D,
    pub embedding: Matrix<F>,
}

/// `res` is the outcome of the optimization that starts from the points `rows`.
pub open spec fn is_optimization<
    F: Real + CastTo<W> + CastTo<D>,
    W: Real + CastTo<F> + CastTo<D>,
    D: Real + CastTo<F>,
>(setting: Setting<W>, rows: Seq<Seq<F>>, res: Result<Optimized<F, D>, EntropyError>) -> bool {
    match res {
        Ok(done) => {
            &&& is_entropy_outcome(setting, rows, Ok(done.initial_ce))
            &&& are_iterations::<F, W, D>(setting, NB_ITERATIONS as nat, rows, done.embedding@)
            &&& is_entropy_outcome(setting, done.embedding@, Ok(done.final_ce))
            &&& done.embedding.width() == rows[0].len()
        },
        Err(error) => {
            ||| is_entropy_outcome::<F, W, D>(setting, rows, Err(error))
            ||| (exists|ce: D| is_entropy(setting, rows, setting.edges.len(), ce)) && {
                ||| is_stopped::<F, W, D>(setting, rows, error)
                ||| exists|after: Seq<Seq<F>>|
                    #![trigger are_iterations::<F, W, D>(setting, NB_ITERATIONS as nat, rows, after)]
                    are_iterations::<F, W, D>(setting, NB_ITERATIONS as nat, rows, after)
                        && is_entropy_outcome::<F, W, D>(setting, after, Err(error))
            }
        },
    }
}

impl<F: Real + CastTo<W>, W: Real + CastTo<F>> EntropyOptim<F, W> {
    /// Minimizes the divergence between the embedded and the initial distribution of probability,
    /// with the cross entropy as in Umap.
    pub fn optimize<D: Real + CastTo<F>>(self) -> (res: Result<Optimized<F, D>, EntropyError>) where
        F: CastTo<D>,
        W: CastTo<D>,

        requires
            self.wf(),
        ensures
            is_optimization(self.setting(), self.rows(), res),
    {
        let ghost setting = self.setting();
        let ghost rows = self.rows();
        let mut optim = self;
        let initial_ce: D = match optim.ce_compute() {
            Ok(ce) => ce,
            Err(error) => {
                return Err(error);
            },
        };
        assert(is_entropy(setting, rows, setting.edges.len(), initial_ce));
        match optim.iterate::<D>() {
            Ok(_) => {},
            Err(error) => {
                return Err(error);
            },
        }
        let final_ce: D = match optim.ce_compute() {
            Ok(ce) => ce,
            Err(error) => {
                assert(are_iterations::<F, W, D>(
                    setting,
                    NB_ITERATIONS as nat,
                    rows,
                    optim.rows(),
                ));
                return Err(error);
            },
        };
        let embedding = optim.get_embedded();
        Ok(Optimized { initial_ce, final_ce, embedding })
    }
}

/// The optimization starts from the edges of the nodes with their probabilities, node by node and
/// in order, from the scales of the nodes and from the initial embedding.
pub proof fn law_optimization_start<F: Real, W: Real>(
    node_params: &NodeParams<W>,
    b: W,
    initial_embed: &Matrix<F>,
    optim: EntropyOptim<F, W>,
    i: int,
    k: int,
)
    requires
        call_ensures(EntropyOptim::<F, W>::new, (node_params, b, initial_embed), optim),
        0 <= i < node_params.params@.len(),
    ensures
        ({
            let lists = node_params.params@.map_values(|p: NodeParam<W>| p.edges@);
            &&& optim.edges@.len() == edges_before(lists, lists.len())
            &&& 0 <= k < node_params.params@[i].edges@.len() ==> optim.edges@[edges_before(lists, i as nat) + k] == (
                i as NodeIdx,
                node_params.params@[i].edges@[k],
            )
        }),
        optim.initial_scales@.len() == node_params.params@.len(),
        optim.initial_scales@[i] == node_params.params@[i].scale,
        optim.embedded@.map_values(|row: Vec<F>| row@) == initial_embed@,
        optim.b == b,
{
    let lists = node_params.params@.map_values(|p: NodeParam<W>| p.edges@);
    assert(lists =~= edge_lists(node_params.params@));
    assert(node_params.params@.len() == node_params.params.len());
    law_all_edges_in_order(lists, i, k);
}

/// The matrix of the embedded points has a row for each point, and its coordinates in the row.
pub proof fn law_embedded_matrix<F: Real, W: Real>(optim: &EntropyOptim<F, W>, m: Matrix<F>, i: int)
    requires
        call_ensures(EntropyOptim::<F, W>::get_embedded, (optim,), m),
        0 <= i < optim.embedded@.len(),
    ensures
        m@.len() == optim.embedded@.len(),
        m@[i] == optim.embedded@[i]@,
        m.width() == optim.embedded@[0]@.len(),
{
}

/// A weight that is given is a normal number, as the arithmetic answered when asked. A cross
/// entropy that is given is finite, unless there is no edge.
pub proof fn law_checked_numbers<
    F: Real + CastTo<W> + CastTo<D>,
    W: Real + CastTo<F> + CastTo<D>,
    D: Real,
>(
    initial_point: &Vec<F>,
    scale: F,
    b: W,
    other: &Vec<F>,
    w: Result<F, EntropyError>,
    optim: &EntropyOptim<F, W>,
    ce: Result<D, EntropyError>,
)
    requires
        call_ensures(cauchy_edge_weight::<F, W>, (initial_point, scale, b, other), w),
        call_ensures(EntropyOptim::<F, W>::ce_compute::<D>, (optim,), ce),
    ensures
        match w {
            Ok(weight) => is_normal(weight, true),
            Err(error) => error == EntropyError::WeightNotNormal && exists|weight: F| is_normal(weight, false),
        },
        match ce {
            Ok(entropy) => optim.edges@.len() == 0 && is_zero(entropy) || is_finite(entropy, true),
            Err(EntropyError::WeightNotNormal) => exists|weight: F| is_normal(weight, false),
            Err(EntropyError::NotFinite) => exists|entropy: D| is_finite(entropy, false),
            Err(EntropyError::WeightAboveOne) => false,
        },
{
    if w is Err {
        let weight = choose|weight: F|
            is_cauchy_weight(initial_point@, scale, b, other@, weight, false);
        assert(is_normal(weight, false));
    }
    let (setting, rows) = (optim.setting(), optim.rows());
    match ce {
        Err(EntropyError::WeightNotNormal) => {
            let (n, acc, weight) = choose|n: nat, acc: D, weight: F|
                n < setting.edges.len() && is_entropy(setting, rows, n, acc) && is_embedded_weight(
                    setting,
                    rows,
                    setting.edges[n as int],
                    weight,
                    false,
                );
            assert(is_normal(weight, false));
        },
        _ => {},
    }
}

/// A descent step along an edge moves no other point than the two ends of the edge, and no point
/// gets more or fewer coordinates.
pub proof fn law_edge_move_local<F: Real + CastTo<D>, W: Real + CastTo<D>, D: Real + CastTo<F>>(
    setting: Setting<W>,
    edge: (NodeIdx, OutEdge<W>),
    grad_step: D,
    rows: Seq<Seq<F>>,
    after: Seq<Seq<F>>,
    v: int,
)
    requires
        is_edge_move(setting, edge, grad_step, rows, after),
        edge.0 < rows.len(),
        edge.1.node < rows.len(),
        0 <= v < rows.len(),
    ensures
        after.len() == rows.len(),
        after[v].len() == rows[v].len(),
        v != edge.0 && v != edge.1.node ==> after[v] == rows[v],
{
}

/// No edge starts from or leads to the node `v`.
pub open spec fn is_isolated<W>(setting: Setting<W>, v: int) -> bool {
    forall|k: int|
        0 <= k < setting.edges.len() ==> (#[trigger] setting.edges[k]).0 != v
            && setting.edges[k].1.node != v
}

/// Descent steps leave an isolated point where it is, and no point gets more or fewer coordinates.
pub proof fn law_descent_local<F: Real + CastTo<D>, W: Real + CastTo<D>, D: Real + CastTo<F>>(
    setting: Setting<W>,
    grad_step: D,
    n: nat,
    rows: Seq<Seq<F>>,
    after: Seq<Seq<F>>,
    v: int,
)
    requires
        is_descent(setting, grad_step, n, rows, after),
        setting.fits(rows.len() as int),
        n <= setting.edges.len(),
        0 <= v < rows.len(),
    ensures
        after.len() == rows.len(),
        after[v].len() == rows[v].len(),
        is_isolated(setting, v) ==> after[v] == rows[v],
    decreases n,
{
    if n > 0 {
        let mid = choose|mid: Seq<Seq<F>>|
            is_descent(setting, grad_step, (n - 1) as nat, rows, mid) && #[trigger] is_edge_move(
                setting,
                setting.edges[n - 1],
                grad_step,
                mid,
                after,
            );
        law_descent_local(setting, grad_step, (n - 1) as nat, rows, mid, v);
        law_edge_move_local(setting, setting.edges[n - 1], grad_step, mid, after, v);
    }
}

/// The optimization leaves an isolated point where it is, and keeps the number of points and of
/// their coordinates.
pub proof fn law_iterations_local<F: Real + CastTo<D>, W: Real + CastTo<D>, D: Real + CastTo<F>>(
    setting: Setting<W>,
    k: nat,
    rows: Seq<Seq<F>>,
    after: Seq<Seq<F>>,
    v: int,
)
    requires
        are_iterations::<F, W, D>(setting, k, rows, after),
        setting.fits(rows.len() as int),
        0 <= v < rows.len(),
    ensures
        after.len() == rows.len(),
        after[v].len() == rows[v].len(),
        is_isolated(setting, v) ==> after[v] == rows[v],
    decreases k,
{
    if k > 0 {
        let (mid, step) = choose|mid: Seq<Seq<F>>, step: D|
            #![trigger is_descent(setting, step, setting.edges.len(), mid, after)]
            are_iterations::<F, W, D>(setting, (k - 1) as nat, rows, mid) && is_grad_step(
                k as usize,
                step,
            ) && is_descent(setting, step, setting.edges.len(), mid, after);
        law_iterations_local::<F, W, D>(setting, (k - 1) as nat, rows, mid, v);
        law_descent_local(setting, step, setting.edges.len(), mid, after, v);
    }
}

} // verus!
