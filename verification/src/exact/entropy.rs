//! The optimization in exact arithmetic.
use vstd::prelude::*;

use crate::entropy::{
    is_coordinate_move, is_cross_entropy, is_descent, is_edge_entropy, is_edge_move, is_edge_pull, is_edge_term,
    is_cauchy, is_cauchy_weight, is_embedded_weight, is_entropy, is_first_neighbour_scale, is_likely_term,
    is_point_move,
    is_pull, is_scaled_distance, is_squared_distance, is_unlikely_term, law_descent_local, Setting,
};
use crate::exact::{
    is_exact, is_faithful, keeps_value, law_ordered_sum_exact, law_total_exact, value_sum,
};
use crate::graph::{NodeIdx, OutEdge};
use crate::matrix::rectangular;
use crate::number::{
    is_cast, is_deterministic, is_diff, is_exp, is_finite, is_ln, is_neg, is_normal, is_one, is_power, is_prod,
    is_quot, is_ratio, is_squared_gap, is_sum, is_total, is_zero, CastTo, Real,
};
use crate::sparse::is_sum_in_some_order;
use crate::unique::entropy::lemma_embedded_weight_unique;
use crate::unique::is_steady;

verus! {

/// The cross entropy of a probability and a weight adds to the sum so far what it is on its own.
proof fn lemma_cross_entropy_exact<D: Real>(
    v: spec_fn(D) -> real,
    w: D,
    we: D,
    acc: D,
    r: D,
    other: D,
    s: D,
)
    requires
        is_exact(v),
        is_deterministic::<D>(),
        is_cross_entropy(acc, w, we, r),
        is_cross_entropy(other, w, we, s),
    ensures
        v(r) - v(acc) == v(s) - v(other),
{
    let p = choose|mid: D|
        #![trigger is_likely_term(acc, w, we, mid)]
        is_likely_term(acc, w, we, mid) && is_unlikely_term(mid, w, we, r);
    let q = choose|mid: D|
        #![trigger is_likely_term(other, w, we, mid)]
        is_likely_term(other, w, we, mid) && is_unlikely_term(mid, w, we, s);
    assert(v(p) - v(acc) == v(q) - v(other));
    assert(v(r) - v(p) == v(s) - v(q));
}

proof fn lemma_edge_entropy_exact<
    F: Real + CastTo<W> + CastTo<D>,
    W: Real + CastTo<F> + CastTo<D>,
    D: Real,
>(
    v: spec_fn(D) -> real,
    setting: Setting<W>,
    rows: Seq<Seq<F>>,
    edge: (NodeIdx, OutEdge<W>),
    acc: D,
    out: D,
    term: D,
)
    requires
        is_exact(v),
        is_steady::<F, W, D>(),
        is_edge_entropy(setting, rows, edge, acc, out),
        is_edge_term(setting, rows, edge, term),
    ensures
        v(out) == v(acc) + v(term),
{
    let zero = choose|zero: D|
        is_zero(zero) && is_edge_entropy(setting, rows, edge, zero, term);
    let (pw, pf, pe) = choose|w: D, f: F, we: D|
        is_cast(edge.1.weight, w) && is_embedded_weight(setting, rows, edge, f, true) && is_cast(
            f,
            we,
        ) && is_cross_entropy(acc, w, we, out);
    let (qw, qf, qe) = choose|w: D, f: F, we: D|
        is_cast(edge.1.weight, w) && is_embedded_weight(setting, rows, edge, f, true) && is_cast(
            f,
            we,
        ) && is_cross_entropy(zero, w, we, term);
    lemma_embedded_weight_unique(setting, rows, edge, pf, true, qf, true);
    assert(pw == qw && pe == qe);
    lemma_cross_entropy_exact(v, pw, pe, acc, out, zero, term);
}

/// The cross entropy of the first `n` edges is the sum of the cross entropies of each.
proof fn lemma_entropy_is_sum<
    F: Real + CastTo<W> + CastTo<D>,
    W: Real + CastTo<F> + CastTo<D>,
    D: Real,
>(
    v: spec_fn(D) -> real,
    setting: Setting<W>,
    rows: Seq<Seq<F>>,
    n: nat,
    ce: D,
    terms: Seq<D>,
)
    requires
        is_exact(v),
        is_steady::<F, W, D>(),
        n <= terms.len(),
        is_entropy(setting, rows, n, ce),
        forall|k: int|
            0 <= k < terms.len() ==> is_edge_term(setting, rows, setting.edges[k], #[trigger] terms[k]),
    ensures
        v(ce) == value_sum(v, terms.take(n as int)),
    decreases n,
{
    if n > 0 {
        let acc = choose|acc: D|
            is_entropy(setting, rows, (n - 1) as nat, acc) && #[trigger] is_edge_entropy(
                setting,
                rows,
                setting.edges[n - 1],
                acc,
                ce,
            ) && is_finite(ce, true);
        lemma_entropy_is_sum(v, setting, rows, (n - 1) as nat, acc, terms);
        assert(is_edge_term(setting, rows, setting.edges[n - 1], terms[n - 1]));
        lemma_edge_entropy_exact(v, setting, rows, setting.edges[n - 1], acc, ce, terms[n - 1]);
        assert(terms.take(n as int).drop_last() =~= terms.take(n - 1));
        assert(terms.take(n as int).last() == terms[n - 1]);
    }
}

/// The cross entropy of an embedding is the sum of the cross entropies of the edges, in whatever order they
/// are added.
pub proof fn law_entropy_is_sum_of_terms<
    F: Real + CastTo<W> + CastTo<D>,
    W: Real + CastTo<F> + CastTo<D>,
    D: Real,
>(
    v: spec_fn(D) -> real,
    setting: Setting<W>,
    rows: Seq<Seq<F>>,
    ce: D,
    terms: Seq<D>,
    sum: D,
)
    requires
        is_exact(v),
        is_steady::<F, W, D>(),
        is_entropy(setting, rows, setting.edges.len(), ce),
        terms.len() == setting.edges.len(),
        forall|k: int|
            0 <= k < terms.len() ==> is_edge_term(setting, rows, setting.edges[k], #[trigger] terms[k]),
        terms.len() > 0 ==> is_sum_in_some_order(terms, sum),
    ensures
        v(ce) == value_sum(v, terms),
        terms.len() > 0 ==> v(ce) == v(sum),
{
    lemma_entropy_is_sum(v, setting, rows, terms.len(), ce, terms);
    assert(terms.take(terms.len() as int) =~= terms);
    if terms.len() > 0 {
        law_ordered_sum_exact(v, terms, sum);
    }
}

/// The sum of the coordinates `k` of the points.
pub open spec fn column_sum<T>(v: spec_fn(T) -> real, rows: Seq<Seq<T>>, k: int) -> real
    decreases rows.len(),
{
    if rows.len() == 0 {
        0 as real
    } else {
        column_sum(v, rows.drop_last(), k) + v(rows.last()[k])
    }
}

/// Where one point changes, the sum changes by as much.
proof fn lemma_column_update<T>(
    v: spec_fn(T) -> real,
    rows: Seq<Seq<T>>,
    k: int,
    i: int,
    row: Seq<T>,
)
    requires
        0 <= i < rows.len(),
    ensures
        column_sum(v, rows.update(i, row), k) == column_sum(v, rows, k) + v(row[k]) - v(rows[i][k]),
    decreases rows.len(),
{
    let after = rows.update(i, row);
    if i == rows.len() - 1 {
        assert(after.drop_last() =~= rows.drop_last());
    } else {
        assert(after.drop_last() =~= rows.drop_last().update(i, row));
        assert(after.last() == rows.last());
        lemma_column_update(v, rows.drop_last(), k, i, row);
    }
}

/// A descent step along an edge that is no loop moves its ends by opposite amounts: the sum of each coordinate
/// over the points stays.
pub proof fn law_edge_move_keeps_centroid<
    F: Real + CastTo<D>,
    W: Real + CastTo<D>,
    D: Real + CastTo<F>,
>(
    v: spec_fn(F) -> real,
    setting: Setting<W>,
    edge: (NodeIdx, OutEdge<W>),
    grad_step: D,
    rows: Seq<Seq<F>>,
    after: Seq<Seq<F>>,
    width: nat,
    k: int,
)
    requires
        is_exact(v),
        is_edge_move(setting, edge, grad_step, rows, after),
        edge.0 < rows.len(),
        edge.1.node < rows.len(),
        edge.0 != edge.1.node,
        rectangular(rows, width),
        0 <= k < width,
    ensures
        column_sum(v, after, k) == column_sum(v, rows, k),
{
    let (i, j) = (edge.0 as int, edge.1.node as int);
    let (c, step, ni, nj) = choose|c: F, step: F, ni: Seq<F>, nj: Seq<F>|
        #![trigger is_point_move(rows[i], rows[j], c, step, ni, nj)]
        is_edge_pull::<F, W, D>(setting, edge, rows, c) && is_cast(grad_step, step)
            && is_point_move(rows[i], rows[j], c, step, ni, nj) && after == rows.update(
            i,
            ni,
        ).update(j, nj);
    assert(rows[i].len() == width);
    assert(is_coordinate_move(rows[i][k], rows[j][k], c, step, ni[k], nj[k]));
    assert(v(ni[k]) + v(nj[k]) == v(rows[i][k]) + v(rows[j][k]));
    lemma_column_update(v, rows, k, i, ni);
    lemma_column_update(v, rows.update(i, ni), k, j, nj);
}

/// Descent steps keep the centroid of the points.
pub proof fn law_descent_keeps_centroid<
    F: Real + CastTo<D>,
    W: Real + CastTo<D>,
    D: Real + CastTo<F>,
>(
    v: spec_fn(F) -> real,
    setting: Setting<W>,
    grad_step: D,
    n: nat,
    rows: Seq<Seq<F>>,
    after: Seq<Seq<F>>,
    width: nat,
    k: int,
)
    requires
        is_exact(v),
        is_descent(setting, grad_step, n, rows, after),
        n <= setting.edges.len(),
        setting.fits(rows.len() as int),
        setting.loop_free(),
        rectangular(rows, width),
        0 <= k < width,
    ensures
        column_sum(v, after, k) == column_sum(v, rows, k),
    decreases n,
{
    if n > 0 {
        let mid = choose|mid: Seq<Seq<F>>|
            is_descent(setting, grad_step, (n - 1) as nat, rows, mid) && #[trigger] is_edge_move(
                setting,
                setting.edges[n - 1],
                grad_step,
                mid,
                after,
            );
        law_descent_keeps_centroid(v, setting, grad_step, (n - 1) as nat, rows, mid, width, k);
        assert(setting.edges[n - 1].0 < rows.len());
        law_descent_local(setting, grad_step, (n - 1) as nat, rows, mid, 0);
        assert forall|u: int| 0 <= u < mid.len() implies (#[trigger] mid[u]).len() == width by {
            law_descent_local(setting, grad_step, (n - 1) as nat, rows, mid, u);
            assert(rows[u].len() == width);
        }
        law_edge_move_keeps_centroid(
            v,
            setting,
            setting.edges[n - 1],
            grad_step,
            mid,
            after,
            width,
            k,
        );
    }
}

/// A step of 0 moves nothing.
pub proof fn law_zero_step_moves_nothing<
    F: Real + CastTo<D>,
    W: Real + CastTo<D>,
    D: Real + CastTo<F>,
>(
    v: spec_fn(F) -> real,
    vd: spec_fn(D) -> real,
    setting: Setting<W>,
    grad_step: D,
    n: nat,
    rows: Seq<Seq<F>>,
    after: Seq<Seq<F>>,
)
    requires
        is_exact(v),
        is_faithful(v),
        keeps_value(vd, v),
        vd(grad_step) == 0 as real,
        is_descent(setting, grad_step, n, rows, after),
        n <= setting.edges.len(),
        setting.fits(rows.len() as int),
    ensures
        after == rows,
    decreases n,
{
    if n > 0 {
        let edge = setting.edges[n - 1];
        let mid = choose|mid: Seq<Seq<F>>|
            is_descent(setting, grad_step, (n - 1) as nat, rows, mid) && #[trigger] is_edge_move(
                setting,
                edge,
                grad_step,
                mid,
                after,
            );
        law_zero_step_moves_nothing(v, vd, setting, grad_step, (n - 1) as nat, rows, mid);
        let (i, j) = (edge.0 as int, edge.1.node as int);
        assert(edge.0 < rows.len());
        let (c, step, ni, nj) = choose|c: F, step: F, ni: Seq<F>, nj: Seq<F>|
            #![trigger is_point_move(rows[i], rows[j], c, step, ni, nj)]
            is_edge_pull::<F, W, D>(setting, edge, rows, c) && is_cast(grad_step, step)
                && is_point_move(rows[i], rows[j], c, step, ni, nj) && after == rows.update(
                i,
                ni,
            ).update(j, nj);
        lemma_zero_move(v, rows[i], rows[j], c, step, ni, nj);
        assert(after =~= rows);
    }
}

proof fn lemma_zero_move<F: Real>(
    v: spec_fn(F) -> real,
    yi: Seq<F>,
    yj: Seq<F>,
    c: F,
    step: F,
    ni: Seq<F>,
    nj: Seq<F>,
)
    requires
        is_exact(v),
        is_faithful(v),
        v(step) == 0 as real,
        is_point_move(yi, yj, c, step, ni, nj),
    ensures
        ni == yi,
        nj == yj,
{
    assert forall|k: int| 0 <= k < yi.len() implies ni[k] == yi[k] && (k < yj.len() ==> nj[k]
        == yj[k]) by {
        assert(is_coordinate_move(yi[k], yj[k], c, step, ni[k], nj[k]));
        let (d, g, m) = choose|d: F, g: F, m: F|
            is_diff(yj[k], yi[k], d) && is_prod(d, c, g)
                && is_prod(g, step, m) && is_diff(yi[k], m, ni[k])
                && is_sum(yj[k], m, nj[k]);
        assert(v(g) * v(step) == 0 as real) by (nonlinear_arith)
            requires
                v(step) == 0 as real,
        ;
        assert(v(m) == 0 as real);
        assert(v(ni[k]) == v(yi[k]) && v(nj[k]) == v(yj[k]));
    }
    assert(ni =~= yi);
    assert forall|k: int| 0 <= k < yj.len() implies #[trigger] nj[k] == yj[k] by {
        if k < yi.len() {
            assert(ni[k] == yi[k]);
        }
    }
    assert(nj =~= yj);
}

/// The squared distance of the first `n` coordinates of the points.
pub open spec fn value_distance<T>(v: spec_fn(T) -> real, y1: Seq<T>, y2: Seq<T>, n: nat) -> real
    decreases n,
{
    if n == 0 {
        0 as real
    } else {
        value_distance(v, y1, y2, (n - 1) as nat) + (v(y1[n - 1]) - v(y2[n - 1])) * (v(y1[n - 1])
            - v(y2[n - 1]))
    }
}

/// The number of coordinates that both points have.
pub open spec fn common<T>(y1: Seq<T>, y2: Seq<T>) -> nat {
    if y1.len() <= y2.len() {
        y1.len()
    } else {
        y2.len()
    }
}

/// A square is not negative.
proof fn lemma_square(x: real)
    ensures
        x * x >= 0 as real,
{
    assert(x * x >= 0 as real) by (nonlinear_arith);
}

proof fn lemma_gaps_exact<T: Real>(
    v: spec_fn(T) -> real,
    y1: Seq<T>,
    y2: Seq<T>,
    gaps: Seq<T>,
    n: nat,
)
    requires
        is_exact(v),
        n <= gaps.len(),
        forall|k: int| 0 <= k < gaps.len() ==> is_squared_gap(y1[k], y2[k], #[trigger] gaps[k]),
    ensures
        value_sum(v, gaps.take(n as int)) == value_distance(v, y1, y2, n),
        value_distance(v, y1, y2, n) >= 0 as real,
    decreases n,
{
    if n > 0 {
        lemma_gaps_exact(v, y1, y2, gaps, (n - 1) as nat);
        assert(is_squared_gap(y1[n - 1], y2[n - 1], gaps[n - 1]));
        assert(gaps.take(n as int).drop_last() =~= gaps.take(n - 1));
        assert(gaps.take(n as int).last() == gaps[n - 1]);
        lemma_square(v(y1[n - 1]) - v(y2[n - 1]));
    }
}

/// The squared distance of two points has the value of the sum of the squares of the gaps between their
/// coordinates, and is not negative.
pub proof fn law_distance_exact<F: Real>(v: spec_fn(F) -> real, y1: Seq<F>, y2: Seq<F>, d: F)
    requires
        is_exact(v),
        is_squared_distance(y1, y2, d),
    ensures
        v(d) == value_distance(v, y1, y2, common(y1, y2)),
        v(d) >= 0 as real,
{
    let gaps = choose|gaps: Seq<F>|
        #![trigger is_total(gaps, d)]
        gaps.len() == common(y1, y2) && (forall|k: int|
            0 <= k < gaps.len() ==> is_squared_gap(y1[k], y2[k], #[trigger] gaps[k])) && is_total(
            gaps,
            d,
        );
    law_total_exact(v, gaps, d);
    lemma_gaps_exact(v, y1, y2, gaps, gaps.len());
    assert(gaps.take(gaps.len() as int) =~= gaps);
}

/// A descent step changes the gap between two coordinates by the factor `1 + 2 * c * step`: it closes the gap
/// where the coefficient is negative, and widens it where the coefficient is positive.
pub proof fn law_step_scales_gap<F: Real>(
    v: spec_fn(F) -> real,
    yi: F,
    yj: F,
    c: F,
    step: F,
    ni: F,
    nj: F,
)
    requires
        is_exact(v),
        is_coordinate_move(yi, yj, c, step, ni, nj),
    ensures
        v(nj) - v(ni) == (v(yj) - v(yi)) * (1 as real + 2 as real * (v(c) * v(step))),
{
    let (d, g, m) = choose|d: F, g: F, m: F|
        is_diff(yj, yi, d) && is_prod(d, c, g) && is_prod(g, step, m) && is_diff(yi, m, ni)
            && is_sum(yj, m, nj);
    let (gap, x, t) = (v(yj) - v(yi), v(c), v(step));
    assert(v(m) == (gap * x) * t);
    assert(gap + 2 as real * ((gap * x) * t) == gap * (1 as real + 2 as real * (x * t)))
        by (nonlinear_arith);
}

/// The coefficient of an edge of probability 1 is `-2 / (scale + d)`.
pub proof fn law_certain_pull<W: Real + CastTo<D>, D: Real>(
    vw: spec_fn(W) -> real,
    vd: spec_fn(D) -> real,
    w: W,
    scale: W,
    d: D,
    c: D,
)
    requires
        is_exact(vw),
        is_exact(vd),
        keeps_value(vw, vd),
        is_pull(w, scale, d, c),
        vw(w) == 1 as real,
        vw(scale) > 0 as real,
        vd(d) >= 0 as real,
    ensures
        vd(c) * (vw(scale) + vd(d)) == -(2 as real),
{
    let (neg, m, s, a, t1, wd, one, q, small, e, h, k, n, t2, t, two) = choose|
        neg: W,
        m: D,
        s: D,
        a: D,
        t1: D,
        wd: D,
        one: D,
        q: D,
        small: D,
        e: D,
        h: D,
        k: D,
        n: D,
        t2: D,
        t: D,
        two: D,
    |
        is_neg(w, neg) && is_cast(neg, m) && is_cast(scale, s) && is_sum(s, d, a) && is_quot(
            m,
            a,
            t1,
        ) && is_cast(w, wd) && is_one(one) && is_diff(one, wd, q) && is_ratio(1, 1000, small)
            && is_sum(small, d, e) && is_quot(d, s, h) && is_sum(one, h, k) && is_prod(e, k, n)
            && is_quot(q, n, t2) && is_sum(t1, t2, t) && is_ratio(2, 1, two) && is_prod(t, two, c);
    assert(vd(m) == -(1 as real) && vd(q) == 0 as real);
    assert(vd(a) == vw(scale) + vd(d));
    assert(vd(t1) * vd(a) == -(1 as real));
    assert(vd(small) * (1000 as real) == 1 as real);
    assert(vd(e) > 0 as real);
    let (hv, sv, dv) = (vd(h), vw(scale), vd(d));
    assert(hv >= 0 as real) by (nonlinear_arith)
        requires
            hv * sv == dv,
            sv > 0 as real,
            dv >= 0 as real,
    ;
    let (ev, kv) = (vd(e), vd(k));
    assert(ev * kv > 0 as real) by (nonlinear_arith)
        requires
            ev > 0 as real,
            kv >= 1 as real,
    ;
    let (x, y) = (vd(t2), vd(n));
    assert(x == 0 as real) by (nonlinear_arith)
        requires
            x * y == 0 as real,
            y > 0 as real,
    ;
    assert(vd(two) * (1 as real) == 2 as real);
    assert(vd(t) == vd(t1));
    let (p, z) = (vd(t1), vd(a));
    assert((p * (2 as real)) * z == -(2 as real)) by (nonlinear_arith)
        requires
            p * z == -(1 as real),
    ;
}

/// A factor between -1 and 1 makes no gap wider, and one that is neither makes a gap narrower.
proof fn lemma_shrinks(gap: real, factor: real)
    requires
        -(1 as real) <= factor <= 1 as real,
    ensures
        (gap * factor) * (gap * factor) <= gap * gap,
        gap != 0 as real && -(1 as real) < factor < 1 as real ==> (gap * factor) * (gap * factor)
            < gap * gap,
{
    if gap != 0 as real && -(1 as real) < factor < 1 as real {
        assert((gap * factor) * (gap * factor) < gap * gap) by (nonlinear_arith)
            requires
                gap != 0 as real,
                -(1 as real) < factor < 1 as real,
        {
            assert(factor * factor < 1 as real);
            assert((gap * factor) * (gap * factor) == (gap * gap) * (factor * factor));
            assert(gap * gap > 0 as real);
        }
    }
    assert((gap * factor) * (gap * factor) <= gap * gap) by (nonlinear_arith)
        requires
            -(1 as real) <= factor <= 1 as real,
    {
        assert(factor * factor <= 1 as real);
        assert((gap * factor) * (gap * factor) == (gap * gap) * (factor * factor));
        assert(gap * gap >= 0 as real);
    }
}

/// An edge of probability 1 draws its ends together: with a step up to `(scale + d) / 2`, `d` being the squared
/// distance of the ends, no gap between their coordinates becomes wider. A gap that is not 0 becomes narrower, where the
/// step is neither 0 nor that long.
pub proof fn law_certain_edge_draws_together<
    F: Real + CastTo<D>,
    W: Real + CastTo<D>,
    D: Real + CastTo<F>,
>(
    vf: spec_fn(F) -> real,
    vw: spec_fn(W) -> real,
    vd: spec_fn(D) -> real,
    setting: Setting<W>,
    edge: (NodeIdx, OutEdge<W>),
    grad_step: D,
    rows: Seq<Seq<F>>,
    after: Seq<Seq<F>>,
    k: int,
)
    requires
        is_exact(vf),
        is_exact(vw),
        is_exact(vd),
        keeps_value(vf, vd),
        keeps_value(vw, vd),
        keeps_value(vd, vf),
        is_edge_move(setting, edge, grad_step, rows, after),
        edge.0 < rows.len(),
        edge.1.node < rows.len(),
        edge.0 != edge.1.node,
        vw(edge.1.weight) == 1 as real,
        vw(setting.scales[edge.0 as int]) > 0 as real,
        (0 as real) <= 2 as real * vd(grad_step) <= vw(setting.scales[edge.0 as int])
            + value_distance(
            vf,
            rows[edge.0 as int],
            rows[edge.1.node as int],
            common(rows[edge.0 as int], rows[edge.1.node as int]),
        ),
        0 <= k < rows[edge.0 as int].len(),
        k < rows[edge.1.node as int].len(),
    ensures
        ({
            let gap = vf(rows[edge.1.node as int][k]) - vf(rows[edge.0 as int][k]);
            let left = vf(after[edge.1.node as int][k]) - vf(after[edge.0 as int][k]);
            let bound = vw(setting.scales[edge.0 as int]) + value_distance(
                vf,
                rows[edge.0 as int],
                rows[edge.1.node as int],
                common(rows[edge.0 as int], rows[edge.1.node as int]),
            );
            &&& left * left <= gap * gap
            &&& gap != 0 as real && (0 as real) < 2 as real * vd(grad_step) < bound ==> left * left
                < gap * gap
        }),
{
    let (i, j) = (edge.0 as int, edge.1.node as int);
    let (yi, yj) = (rows[i], rows[j]);
    let scale = setting.scales[i];
    let (c, step, ni, nj) = choose|c: F, step: F, ni: Seq<F>, nj: Seq<F>|
        #![trigger is_point_move(rows[i], rows[j], c, step, ni, nj)]
        is_edge_pull::<F, W, D>(setting, edge, rows, c) && is_cast(grad_step, step)
            && is_point_move(rows[i], rows[j], c, step, ni, nj) && after == rows.update(
            i,
            ni,
        ).update(j, nj);
    let (df, d, cd) = choose|df: F, d: D, cd: D|
        is_squared_distance(yi, yj, df) && is_cast(df, d) && is_pull(
            edge.1.weight,
            scale,
            d,
            cd,
        ) && is_cast(cd, c);
    law_distance_exact(vf, yi, yj, df);
    law_certain_pull(vw, vd, edge.1.weight, scale, d, cd);
    assert(is_coordinate_move(yi[k], yj[k], c, step, ni[k], nj[k]));
    law_step_scales_gap(vf, yi[k], yj[k], c, step, ni[k], nj[k]);
    let (x, t, z) = (vf(c), vf(step), vw(scale) + vd(d));
    assert(-(1 as real) <= 1 as real + 2 as real * (x * t) <= 1 as real) by (nonlinear_arith)
        requires
            x * z == -(2 as real),
            z > 0 as real,
            (0 as real) <= 2 as real * t <= z,
    {
        assert(x < 0 as real);
        assert(x * t <= 0 as real);
        assert(x * (2 as real * t) >= x * z);
    }
    if (0 as real) < 2 as real * t < z {
        assert(-(1 as real) < 1 as real + 2 as real * (x * t) < 1 as real) by (nonlinear_arith)
            requires
                x * z == -(2 as real),
                z > 0 as real,
                (0 as real) < 2 as real * t < z,
        {
            assert(x < 0 as real);
            assert(x * t < 0 as real);
            assert(x * (2 as real * t) > x * z);
        }
    }
    lemma_shrinks(vf(yj[k]) - vf(yi[k]), 1 as real + 2 as real * (x * t));
}

/// `e` is `exp(b * ln(x))`.
pub open spec fn is_raised<W: Real>(x: W, b: W, e: W) -> bool {
    exists|l: W, m: W| is_ln(x, l) && is_prod(b, l, m) && is_exp(m, e)
}

/// `exp(b * ln(x))` is a power of `x` as a function of `x` is for a positive exponent: it grows with `x`, it is 0
/// at 0 and 1 at 1.
pub open spec fn raises<W: Real>(v: spec_fn(W) -> real, b: W) -> bool {
    &&& forall|x: W, y: W, e: W, f: W|
        #![trigger is_raised(x, b, e), is_raised(y, b, f)]
        is_raised(x, b, e) && is_raised(y, b, f) && (0 as real) <= v(x) <= v(y) ==> v(e) <= v(f)
    &&& forall|x: W, e: W| #[trigger]
        is_raised(x, b, e) && v(x) >= 0 as real ==> v(e) >= 0 as real
    &&& forall|x: W, e: W| #[trigger]
        is_raised(x, b, e) && v(x) == 0 as real ==> v(e) == 0 as real
    &&& forall|x: W, e: W| #[trigger]
        is_raised(x, b, e) && v(x) == 1 as real ==> v(e) == 1 as real
}

/// The numbers behind the weight of an embedded edge: the squared distance over the square of the scale, as a
/// number of either kind, and its power.
pub proof fn weight_from<F: Real + CastTo<W>, W: Real + CastTo<F>>(
    vf: spec_fn(F) -> real,
    vw: spec_fn(W) -> real,
    x: Seq<F>,
    scale: F,
    b: W,
    y: Seq<F>,
    w: F,
    normal: bool,
) -> (r: (W, W))
    requires
        is_exact(vf),
        keeps_value(vf, vw),
        keeps_value(vw, vf),
        vf(scale) != 0 as real,
        is_cauchy_weight(x, scale, b, y, w, normal),
    ensures
        is_raised(r.0, b, r.1),
        vw(r.0) * (vf(scale) * vf(scale)) == value_distance(vf, x, y, common(x, y)),
        vw(r.0) >= 0 as real,
        1 as real + vw(r.1) != 0 as real ==> vf(w) * (1 as real + vw(r.1)) == 1 as real,
{
    let r = choose|r: F|
        is_scaled_distance(x, y, scale, r) && is_cauchy(r, b, w) && is_normal(
            w,
            normal,
        );
    let (d, s) = choose|d: F, s: F|
        is_squared_distance(x, y, d) && is_prod(scale, scale, s) && is_quot(d, s, r);
    law_distance_exact(vf, x, y, d);
    let (p, l, m, e, f, one, den) = choose|p: W, l: W, m: W, e: W, f: F, one: F, den: F|
        is_cast(r, p) && is_ln(p, l) && is_prod(b, l, m) && is_exp(m, e) && is_cast(e, f) && is_one(
            one,
        ) && is_sum(one, f, den) && is_quot(one, den, w);
    assert(is_raised(p, b, e));
    let (sv, rv, dv) = (vf(scale), vf(r), vf(d));
    assert(sv * sv > 0 as real) by (nonlinear_arith)
        requires
            sv != 0 as real,
    ;
    let q = sv * sv;
    assert(rv >= 0 as real) by (nonlinear_arith)
        requires
            rv * q == dv,
            q > 0 as real,
            dv >= 0 as real,
    ;
    (p, e)
}

/// The weight of an embedded edge is positive and at most 1, and falls with the distance of the points. It is 1 at
/// distance 0, and 1/2 where the distance is the scale.
pub proof fn law_weight_falls_with_distance<F: Real + CastTo<W>, W: Real + CastTo<F>>(
    vf: spec_fn(F) -> real,
    vw: spec_fn(W) -> real,
    x: Seq<F>,
    scale: F,
    b: W,
    y1: Seq<F>,
    w1: F,
    normal1: bool,
    y2: Seq<F>,
    w2: F,
    normal2: bool,
)
    requires
        is_exact(vf),
        keeps_value(vf, vw),
        keeps_value(vw, vf),
        raises(vw, b),
        vf(scale) != 0 as real,
        is_cauchy_weight(x, scale, b, y1, w1, normal1),
        is_cauchy_weight(x, scale, b, y2, w2, normal2),
        value_distance(vf, x, y1, common(x, y1)) <= value_distance(vf, x, y2, common(x, y2)),
    ensures
        (0 as real) < vf(w2) <= vf(w1) <= 1 as real,
        value_distance(vf, x, y1, common(x, y1)) == 0 as real ==> vf(w1) == 1 as real,
        value_distance(vf, x, y1, common(x, y1)) == vf(scale) * vf(scale) ==> vf(w1) * (2 as real)
            == 1 as real,
{
    let (p, e) = weight_from(vf, vw, x, scale, b, y1, w1, normal1);
    let (q, f) = weight_from(vf, vw, x, scale, b, y2, w2, normal2);
    let (pv, qv, sv) = (vw(p), vw(q), vf(scale));
    assert(sv * sv > 0 as real) by (nonlinear_arith)
        requires
            sv != 0 as real,
    ;
    let s = sv * sv;
    let (d1, d2) = (value_distance(vf, x, y1, common(x, y1)), value_distance(vf, x, y2, common(x, y2)));
    assert(pv <= qv) by (nonlinear_arith)
        requires
            pv * s == d1,
            qv * s == d2,
            d1 <= d2,
            s > 0 as real,
    ;
    if d1 == 0 as real {
        assert(pv == 0 as real) by (nonlinear_arith)
            requires
                pv * s == 0 as real,
                s > 0 as real,
        ;
    }
    if d1 == s {
        assert(pv == 1 as real) by (nonlinear_arith)
            requires
                pv * s == s,
                s > 0 as real,
        ;
    }
    let (a, c, ev, fv) = (vf(w1), vf(w2), vw(e), vw(f));
    assert((0 as real) < c <= a <= 1 as real) by (nonlinear_arith)
        requires
            a * (1 as real + ev) == 1 as real,
            c * (1 as real + fv) == 1 as real,
            (0 as real) <= ev <= fv,
    ;
}

/// Powers have the values of a function `p` of the values, of a positive number and an exponent, whether they are
/// computed at once or as `exp(b * ln(x))`.
pub open spec fn has_powers<W: Real>(v: spec_fn(W) -> real, p: spec_fn(real, real) -> real) -> bool {
    &&& forall|a: W, x: W, r: W| #[trigger]
        is_power(a, x, r) && v(a) > 0 as real ==> v(r) == p(v(a), v(x))
    &&& forall|a: W, x: W, r: W| #[trigger]
        is_raised(a, x, r) && v(a) > 0 as real ==> v(r) == p(v(a), v(x))
    &&& forall|x: real, y: real| x > 0 as real ==> #[trigger] p(x, y) > 0 as real
    &&& forall|x: real| x > 0 as real ==> #[trigger] p(x, 1 as real) == x
    &&& forall|x: real, y: real, z: real|
        x > 0 as real ==> #[trigger] p(p(x, y), z) == p(x, y * z)
    &&& forall|x: real, y: real, z: real|
        x > 0 as real && y > 0 as real && x * y == 1 as real ==> #[trigger] p(x, z) * #[trigger] p(
            y,
            z,
        ) == 1 as real
}

/// The scale that is estimated from the first neighbour is the square of the scale at which the weight of the edge to
/// it is its probability, so that the point is not pushed.
pub proof fn law_first_neighbour_weight<F: Real + CastTo<W>, W: Real + CastTo<F>>(
    vf: spec_fn(F) -> real,
    vw: spec_fn(W) -> real,
    power: spec_fn(real, real) -> real,
    p: W,
    b: W,
    y1: Seq<F>,
    y2: Seq<F>,
    estimate: W,
    scale: F,
    w: F,
    normal: bool,
)
    requires
        is_exact(vf),
        is_exact(vw),
        keeps_value(vf, vw),
        keeps_value(vw, vf),
        has_powers(vw, power),
        (0 as real) < vw(p) < 1 as real,
        vw(b) != 0 as real,
        value_distance(vf, y1, y2, common(y1, y2)) > 0 as real,
        is_first_neighbour_scale(p, b, y1, y2, estimate),
        vf(scale) * vf(scale) == vw(estimate),
        is_cauchy_weight(y1, scale, b, y2, w, normal),
    ensures
        vf(w) == vw(p),
{
    let (one, q, odds, e, f, d, x) = choose|one: W, q: W, odds: W, e: W, f: W, d: F, x: W|
        is_one(one) && is_diff(one, p, q) && is_quot(p, q, odds) && is_quot(one, b, e) && is_power(
            odds,
            e,
            f,
        ) && is_squared_distance(y1, y2, d) && is_cast(d, x) && is_prod(f, x, estimate);
    law_distance_exact(vf, y1, y2, d);
    let dist = vf(d);
    let (pv, qv, ov, ev, fv, bv) = (vw(p), vw(q), vw(odds), vw(e), vw(f), vw(b));
    assert(ov > 0 as real) by (nonlinear_arith)
        requires
            ov * qv == pv,
            qv > 0 as real,
            pv > 0 as real,
    ;
    assert(fv == power(ov, ev) && fv > 0 as real);
    assert(vw(estimate) == fv * dist);
    assert(fv * dist > 0 as real) by (nonlinear_arith)
        requires
            fv > 0 as real,
            dist > 0 as real,
    ;
    let sv = vf(scale);
    assert(sv != 0 as real) by (nonlinear_arith)
        requires
            sv * sv > 0 as real,
    ;
    let (r, u) = weight_from(vf, vw, y1, scale, b, y2, w, normal);
    let (rv, uv, wv) = (vw(r), vw(u), vf(w));
    assert(rv * fv == 1 as real) by (nonlinear_arith)
        requires
            rv * (fv * dist) == dist,
            dist > 0 as real,
    ;
    assert(rv > 0 as real) by (nonlinear_arith)
        requires
            rv * fv == 1 as real,
            fv > 0 as real,
    ;
    assert(uv == power(rv, bv));
    assert(power(rv, bv) * power(fv, bv) == 1 as real);
    assert(power(power(ov, ev), bv) == power(ov, ev * bv));
    assert(power(fv, bv) == ov);
    assert(uv * ov == 1 as real);
    assert(uv > 0 as real);
    assert((1 as real + uv) * pv == 1 as real) by (nonlinear_arith)
        requires
            uv * ov == 1 as real,
            ov * qv == pv,
            qv == 1 as real - pv,
    {
        assert(uv * pv == (uv * ov) * qv);
    }
    assert(wv == pv) by (nonlinear_arith)
        requires
            wv * (1 as real + uv) == 1 as real,
            (1 as real + uv) * pv == 1 as real,
            uv > 0 as real,
    ;
}

} // verus!
