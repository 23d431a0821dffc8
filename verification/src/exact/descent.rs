//! The optimization in exact arithmetic, as formulas of the points, the scales and the
//! probabilities.
use vstd::prelude::*;

use crate::entropy::{
    are_iterations, is_above_one, is_coordinate_move, is_descent, is_edge_move, is_edge_pull,
    is_entropy_outcome, is_grad_step, is_iteration, is_optimization, is_point_move, is_pull,
    is_squared_distance, is_stopped, l2_dist, EntropyError, EntropyOptim, Optimized, Setting,
    NB_ITERATIONS,
};
use crate::exact::entropy::{law_distance_exact, raises, value_distance};
use crate::exact::weight::{
    are_measurable_edges, cross_sum, gap_between, is_measurable, is_normal_unless_zero,
    lemma_entropy_outcome, points_of,
};
use crate::exact::{is_exact, keeps_value};
use crate::graph::{NodeIdx, OutEdge};
use crate::number::{
    is_at_most, is_cast, is_count, is_diff, is_finite, is_neg, is_one, is_prod, is_quot, is_ratio,
    is_sum, CastTo, Real,
};

verus! {

/// The squared distance of two points is the sum of the squares of the differences of the
/// coordinates that both have.
pub proof fn law_l2_dist<F: Real>(v: spec_fn(F) -> real, y1: &Vec<F>, y2: &Vec<F>, d: F)
    requires
        is_exact(v),
        call_ensures(l2_dist::<F>, (y1, y2), d),
    ensures
        v(d) == value_distance(
            v,
            y1@,
            y2@,
            if y1@.len() <= y2@.len() {
                y1@.len()
            } else {
                y2@.len()
            },
        ),
        v(d) >= 0 as real,
{
    law_distance_exact(v, y1@, y2@, d);
}

/// The coefficient of the gradient at an edge of probability `w` between points of squared distance
/// `d`, `s` being the scale of the node that the edge starts from.
pub open spec fn pull_at(w: real, s: real, d: real) -> real {
    2 as real * (-w / (s + d) + (1 as real - w) / (((1 as real) / (1000 as real) + d) * (1 as real + d
        / s)))
}

/// The coefficient of the gradient has the value of its formula.
pub proof fn law_pull_exact<W: Real + CastTo<D>, D: Real>(
    vw: spec_fn(W) -> real,
    vd: spec_fn(D) -> real,
    w: W,
    scale: W,
    d: D,
    c: D,
)
    requires
        is_exact(vw),
        is_exact(vd),
        keeps_value(vw, vd),
        is_pull(w, scale, d, c),
        vw(scale) > 0 as real,
        vd(d) >= 0 as real,
    ensures
        vd(c) == pull_at(vw(w), vw(scale), vd(d)),
{
    let (neg, m, s, a, t1, wd, one, q, small, e, h, k, n, t2, t, two) = choose|
        neg: W,
        m: D,
        s: D,
        a: D,
        t1: D,
        wd: D,
        one: D,
        q: D,
        small: D,
        e: D,
        h: D,
        k: D,
        n: D,
        t2: D,
        t: D,
        two: D,
    |
        is_neg(w, neg) && is_cast(neg, m) && is_cast(scale, s) && is_sum(s, d, a) && is_quot(
            m,
            a,
            t1,
        ) && is_cast(w, wd) && is_one(one) && is_diff(one, wd, q) && is_ratio(1, 1000, small)
            && is_sum(small, d, e) && is_quot(d, s, h) && is_sum(one, h, k) && is_prod(e, k, n)
            && is_quot(q, n, t2) && is_sum(t1, t2, t) && is_ratio(2, 1, two) && is_prod(t, two, c);
    let (wv, sv, dv) = (vw(w), vw(scale), vd(d));
    let (av, x) = (sv + dv, vd(t1));
    assert(x == -wv / av) by (nonlinear_arith)
        requires
            x * av == -wv,
            av > 0 as real,
    ;
    let hv = vd(h);
    assert(hv == dv / sv) by (nonlinear_arith)
        requires
            hv * sv == dv,
            sv > 0 as real,
    ;
    assert(hv >= 0 as real) by (nonlinear_arith)
        requires
            hv * sv == dv,
            sv > 0 as real,
            dv >= 0 as real,
    ;
    assert(vd(small) * (1000 as real) == 1 as real);
    let (ev, kv, y) = (vd(e), vd(k), vd(t2));
    assert(ev == (1 as real) / (1000 as real) + dv);
    let nv = ev * kv;
    assert(nv > 0 as real) by (nonlinear_arith)
        requires
            nv == ev * kv,
            ev > 0 as real,
            kv >= 1 as real,
    ;
    let qv = 1 as real - wv;
    assert(y == qv / nv) by (nonlinear_arith)
        requires
            y * nv == qv,
            nv > 0 as real,
    ;
    assert(vd(two) * (1 as real) == 2 as real);
    let z = x + y;
    assert(z * (2 as real) == 2 as real * z) by (nonlinear_arith);
}

/// A step of length `t` along an edge, with the scale `scale` of the node that it starts from,
/// takes the points `before` to `after`. Each end moves by `t` times the coefficient times the way
/// to the other: away from it where the coefficient is positive. Nothing else moves. The
/// probability of the edge is not above 1.
pub open spec fn is_step<F, W>(
    vf: spec_fn(F) -> real,
    vw: spec_fn(W) -> real,
    edge: (NodeIdx, OutEdge<W>),
    scale: W,
    t: real,
    before: Seq<Seq<F>>,
    after: Seq<Seq<F>>,
) -> bool {
    let (i, j) = (edge.0 as int, edge.1.node as int);
    let c = pull_at(vw(edge.1.weight), vw(scale), gap_between(vf, before[i], before[j]));
    &&& vw(edge.1.weight) <= 1 as real
    &&& after.len() == before.len()
    &&& forall|u: int|
        0 <= u < before.len() && u != i && u != j ==> #[trigger] after[u] == before[u]
    &&& after[i].len() == before[i].len()
    &&& after[j].len() == before[j].len()
    &&& forall|k: int|
        0 <= k < before[i].len() ==> {
            let way = vf(before[j][k]) - vf(before[i][k]);
            &&& vf(#[trigger] after[i][k]) == vf(before[i][k]) - (way * c) * t
            &&& vf(after[j][k]) == vf(before[j][k]) + (way * c) * t
        }
    &&& forall|k: int|
        before[i].len() <= k < before[j].len() ==> #[trigger] after[j][k] == before[j][k]
}

/// The arithmetics of the optimization are exact, and the conversions between them keep the values.
pub open spec fn is_movable_exactly<
    F: Real + CastTo<D>,
    W: Real + CastTo<D>,
    D: Real + CastTo<F>,
>(vf: spec_fn(F) -> real, vw: spec_fn(W) -> real, vd: spec_fn(D) -> real) -> bool {
    &&& is_exact(vf)
    &&& is_exact(vw)
    &&& is_exact(vd)
    &&& keeps_value(vf, vd)
    &&& keeps_value(vw, vd)
    &&& keeps_value(vd, vf)
}

proof fn lemma_edge_move_value<F: Real + CastTo<D>, W: Real + CastTo<D>, D: Real + CastTo<F>>(
    vf: spec_fn(F) -> real,
    vw: spec_fn(W) -> real,
    vd: spec_fn(D) -> real,
    setting: Setting<W>,
    edge: (NodeIdx, OutEdge<W>),
    grad_step: D,
    rows: Seq<Seq<F>>,
    after: Seq<Seq<F>>,
)
    requires
        is_movable_exactly(vf, vw, vd),
        is_edge_move(setting, edge, grad_step, rows, after),
        edge.0 < rows.len(),
        edge.1.node < rows.len(),
        edge.0 != edge.1.node,
        rows[edge.0 as int].len() <= rows[edge.1.node as int].len(),
        vw(setting.scales[edge.0 as int]) > 0 as real,
    ensures
        is_step(vf, vw, edge, setting.scales[edge.0 as int], vd(grad_step), rows, after),
{
    let (i, j) = (edge.0 as int, edge.1.node as int);
    let scale = setting.scales[i];
    let one = choose|one: W| is_one(one) && is_at_most(edge.1.weight, one, true);
    let (c, step, ni, nj) = choose|c: F, step: F, ni: Seq<F>, nj: Seq<F>|
        #![trigger is_point_move(rows[i], rows[j], c, step, ni, nj)]
        is_edge_pull::<F, W, D>(setting, edge, rows, c) && is_cast(grad_step, step)
            && is_point_move(rows[i], rows[j], c, step, ni, nj) && after == rows.update(
            i,
            ni,
        ).update(j, nj);
    let (df, d, cd) = choose|df: F, d: D, cd: D|
        is_squared_distance(rows[i], rows[j], df) && is_cast(df, d) && is_pull(
            edge.1.weight,
            scale,
            d,
            cd,
        ) && is_cast(cd, c);
    law_distance_exact(vf, rows[i], rows[j], df);
    law_pull_exact(vw, vd, edge.1.weight, scale, d, cd);
    let cv = pull_at(vw(edge.1.weight), vw(scale), gap_between(vf, rows[i], rows[j]));
    assert(vf(c) == cv);
    assert forall|k: int| 0 <= k < rows[i].len() implies {
        let way = vf(rows[j][k]) - vf(rows[i][k]);
        &&& vf(#[trigger] after[i][k]) == vf(rows[i][k]) - (way * cv) * vd(grad_step)
        &&& vf(after[j][k]) == vf(rows[j][k]) + (way * cv) * vd(grad_step)
    } by {
        assert(after[i] == ni && after[j] == nj);
        assert(is_coordinate_move(rows[i][k], rows[j][k], c, step, ni[k], nj[k]));
    }
    assert(after[j] == nj);
}

/// A descent step along an edge moves its two ends along the way between them, by `grad_step` times
/// the gradient of the cross entropy of its probability `w` and the embedded weight
/// `1 / (1 + d / s)`, that is `2 (-w / (s + d) + (1 - w) / ((0.001 + d) (1 + d / s)))` times that
/// way; `s` is the scale of the node that the edge starts from. Nothing else changes. It is refused
/// where the probability is above 1, and then nothing moves.
pub proof fn law_edge_step<F: Real + CastTo<D>, W: Real + CastTo<D>, D: Real + CastTo<F>>(
    vf: spec_fn(F) -> real,
    vw: spec_fn(W) -> real,
    vd: spec_fn(D) -> real,
    optim: &mut EntropyOptim<F, W>,
    k: usize,
    grad_step: D,
    res: Result<(), EntropyError>,
)
    requires
        is_movable_exactly(vf, vw, vd),
        k < old(optim).edges@.len(),
        old(optim).is_movable(old(optim).edges@[k as int]),
        vw(old(optim).initial_scales@[old(optim).edges@[k as int].0 as int]) > 0 as real,
        call_ensures(
            EntropyOptim::<F, W>::ce_optim_edge_shannon::<D>,
            (optim, k, grad_step),
            res,
        ),
    ensures
        res is Ok <==> vw(old(optim).edges@[k as int].1.weight) <= 1 as real,
        res is Ok ==> is_step(
            vf,
            vw,
            old(optim).edges@[k as int],
            old(optim).initial_scales@[old(optim).edges@[k as int].0 as int],
            vd(grad_step),
            points_of(*old(optim)),
            points_of(*final(optim)),
        ),
        res matches Err(error) ==> error == EntropyError::WeightAboveOne && points_of(*final(optim)) == points_of(
            *old(optim),
        ),
        final(optim).edges@ == old(optim).edges@,
        final(optim).initial_scales@ == old(optim).initial_scales@,
        final(optim).b == old(optim).b,
        final(optim).embedded_scales == old(optim).embedded_scales,
{
    let before = *old(optim);
    let edge = before.edges@[k as int];
    let (rows, after) = (before.rows(), final(optim).rows());
    let (i, j) = (edge.0 as int, edge.1.node as int);
    assert(rows[i] == before.embedded@[i]@ && rows[j] == before.embedded@[j]@);
    assert(final(optim).setting() == before.setting());
    assert(before.setting().edges == before.edges@ && before.setting().scales == before.initial_scales@);
    match res {
        Ok(_) => {
            lemma_edge_move_value(vf, vw, vd, before.setting(), edge, grad_step, rows, after);
        },
        Err(_) => {},
    }
}

/// Steps along the edges, one after the other: there is a state before the first, and one after
/// each.
pub open spec fn are_steps_along<F, W>(
    vf: spec_fn(F) -> real,
    vw: spec_fn(W) -> real,
    edges: Seq<(NodeIdx, OutEdge<W>)>,
    scales: Seq<W>,
    t: real,
    states: Seq<Seq<Seq<F>>>,
) -> bool {
    &&& states.len() == edges.len() + 1
    &&& forall|n: int|
        0 <= n < edges.len() ==> is_step(
            vf,
            vw,
            #[trigger] edges[n],
            scales[edges[n].0 as int],
            t,
            states[n],
            states[n + 1],
        )
}

/// One step of length `t` along each edge, in order, takes the points `before` to `after`.
pub open spec fn is_pass<F, W>(
    vf: spec_fn(F) -> real,
    vw: spec_fn(W) -> real,
    edges: Seq<(NodeIdx, OutEdge<W>)>,
    scales: Seq<W>,
    t: real,
    before: Seq<Seq<F>>,
    after: Seq<Seq<F>>,
) -> bool {
    exists|states: Seq<Seq<Seq<F>>>| #[trigger]
        are_steps_along(vf, vw, edges, scales, t, states) && states.first() == before && states.last()
            == after
}

/// Every edge connects two different points of the same number of coordinates, and starts from a
/// node with a positive scale.
pub open spec fn are_movable_edges<F, W>(
    vw: spec_fn(W) -> real,
    edges: Seq<(NodeIdx, OutEdge<W>)>,
    scales: Seq<W>,
    points: Seq<Seq<F>>,
) -> bool {
    forall|k: int|
        0 <= k < edges.len() ==> {
            let (i, j) = ((#[trigger] edges[k]).0, edges[k].1.node);
            &&& i < points.len()
            &&& i < scales.len()
            &&& j < points.len()
            &&& i != j
            &&& points[i as int].len() == points[j as int].len()
            &&& vw(scales[i as int]) > 0 as real
        }
}

/// The points have as many coordinates each.
spec fn same_shape<F>(a: Seq<Seq<F>>, b: Seq<Seq<F>>) -> bool {
    &&& a.len() == b.len()
    &&& forall|u: int| 0 <= u < a.len() ==> (#[trigger] a[u]).len() == b[u].len()
}

/// Descent steps along the first `n` edges: the state before the first and after each.
proof fn descent_states<F: Real + CastTo<D>, W: Real + CastTo<D>, D: Real + CastTo<F>>(
    vf: spec_fn(F) -> real,
    vw: spec_fn(W) -> real,
    vd: spec_fn(D) -> real,
    setting: Setting<W>,
    grad_step: D,
    n: nat,
    rows: Seq<Seq<F>>,
    after: Seq<Seq<F>>,
) -> (states: Seq<Seq<Seq<F>>>)
    requires
        is_movable_exactly(vf, vw, vd),
        n <= setting.edges.len(),
        are_movable_edges(vw, setting.edges, setting.scales, rows),
        is_descent(setting, grad_step, n, rows, after),
    ensures
        are_steps_along(
            vf,
            vw,
            setting.edges.take(n as int),
            setting.scales,
            vd(grad_step),
            states,
        ),
        states.first() == rows,
        states.last() == after,
        same_shape(rows, after),
    decreases n,
{
    if n == 0 {
        seq![rows]
    } else {
        let edge = setting.edges[n - 1];
        let mid = choose|mid: Seq<Seq<F>>|
            is_descent(setting, grad_step, (n - 1) as nat, rows, mid) && #[trigger] is_edge_move(
                setting,
                edge,
                grad_step,
                mid,
                after,
            );
        let before = descent_states(
            vf,
            vw,
            vd,
            setting,
            grad_step,
            (n - 1) as nat,
            rows,
            mid,
        );
        let (i, j) = (edge.0 as int, edge.1.node as int);
        assert(mid[i].len() == rows[i].len() && mid[j].len() == rows[j].len());
        lemma_edge_move_value(vf, vw, vd, setting, edge, grad_step, mid, after);
        let states = before.push(after);
        let (short, long) = (setting.edges.take(n - 1), setting.edges.take(n as int));
        assert forall|m: int| 0 <= m < long.len() implies is_step(
            vf,
            vw,
            #[trigger] long[m],
            setting.scales[long[m].0 as int],
            vd(grad_step),
            states[m],
            states[m + 1],
        ) by {
            if m < n - 1 {
                assert(long[m] == short[m]);
                assert(is_step(
                    vf,
                    vw,
                    short[m],
                    setting.scales[short[m].0 as int],
                    vd(grad_step),
                    before[m],
                    before[m + 1],
                ));
            }
        }
        assert forall|u: int| 0 <= u < rows.len() implies (#[trigger] rows[u]).len() == after[u].len() by {
            assert(rows[u].len() == mid[u].len());
            assert(u != i && u != j ==> after[u] == mid[u]);
        }
        states
    }
}

proof fn lemma_pass<F: Real + CastTo<D>, W: Real + CastTo<D>, D: Real + CastTo<F>>(
    vf: spec_fn(F) -> real,
    vw: spec_fn(W) -> real,
    vd: spec_fn(D) -> real,
    setting: Setting<W>,
    grad_step: D,
    rows: Seq<Seq<F>>,
    after: Seq<Seq<F>>,
)
    requires
        is_movable_exactly(vf, vw, vd),
        are_movable_edges(vw, setting.edges, setting.scales, rows),
        is_descent(setting, grad_step, setting.edges.len(), rows, after),
    ensures
        is_pass(vf, vw, setting.edges, setting.scales, vd(grad_step), rows, after),
        same_shape(rows, after),
        are_movable_edges(vw, setting.edges, setting.scales, after),
{
    let n = setting.edges.len();
    let states = descent_states(vf, vw, vd, setting, grad_step, n, rows, after);
    assert(setting.edges.take(n as int) =~= setting.edges);
    assert(are_steps_along(vf, vw, setting.edges, setting.scales, vd(grad_step), states));
    assert forall|k: int| 0 <= k < n implies {
        let (i, j) = ((#[trigger] setting.edges[k]).0, setting.edges[k].1.node);
        &&& i < after.len()
        &&& j < after.len()
        &&& after[i as int].len() == after[j as int].len()
    } by {
        let (i, j) = (setting.edges[k].0 as int, setting.edges[k].1.node as int);
        assert(rows[i].len() == after[i].len() && rows[j].len() == after[j].len());
    }
}

/// An iteration is one descent step along each edge, in order. It succeeds where no probability is
/// above 1. Otherwise the steps are those along the edges before the first with such a probability.
pub proof fn law_gradient_iteration<
    F: Real + CastTo<D>,
    W: Real + CastTo<D>,
    D: Real + CastTo<F>,
>(
    vf: spec_fn(F) -> real,
    vw: spec_fn(W) -> real,
    vd: spec_fn(D) -> real,
    optim: &mut EntropyOptim<F, W>,
    grad_step: D,
    res: Result<(), EntropyError>,
)
    requires
        is_movable_exactly(vf, vw, vd),
        are_movable_edges(vw, old(optim).edges@, old(optim).initial_scales@, points_of(*old(optim))),
        call_ensures(EntropyOptim::<F, W>::gradient_iteration::<D>, (optim, grad_step), res),
    ensures
        res is Ok <==> forall|k: int|
            0 <= k < old(optim).edges@.len() ==> vw((#[trigger] old(optim).edges@[k]).1.weight) <= 1 as real,
        match res {
            Ok(_) => is_pass(
                vf,
                vw,
                old(optim).edges@,
                old(optim).initial_scales@,
                vd(grad_step),
                points_of(*old(optim)),
                points_of(*final(optim)),
            ),
            Err(error) => error == EntropyError::WeightAboveOne && exists|n: int|
                0 <= n < old(optim).edges@.len() && vw((#[trigger] old(optim).edges@[n]).1.weight)
                    > 1 as real && is_pass(
                    vf,
                    vw,
                    old(optim).edges@.take(n),
                    old(optim).initial_scales@,
                    vd(grad_step),
                    points_of(*old(optim)),
                    points_of(*final(optim)),
                ),
        },
        final(optim).edges@ == old(optim).edges@,
        final(optim).initial_scales@ == old(optim).initial_scales@,
        final(optim).b == old(optim).b,
        final(optim).embedded_scales == old(optim).embedded_scales,
{
    let before = *old(optim);
    let setting = before.setting();
    let (rows, after) = (before.rows(), final(optim).rows());
    assert(final(optim).setting() == setting);
    match res {
        Ok(_) => {
            lemma_pass(vf, vw, vd, setting, grad_step, rows, after);
            let states = descent_states(vf, vw, vd, setting, grad_step, setting.edges.len(), rows, after);
            assert(setting.edges.take(setting.edges.len() as int) =~= setting.edges);
            assert forall|k: int| 0 <= k < before.edges@.len() implies vw(
                (#[trigger] before.edges@[k]).1.weight,
            ) <= 1 as real by {
                assert(is_step(
                    vf,
                    vw,
                    setting.edges[k],
                    setting.scales[setting.edges[k].0 as int],
                    vd(grad_step),
                    states[k],
                    states[k + 1],
                ));
            }
        },
        Err(error) => {
            assert(error == EntropyError::WeightAboveOne);
            let n = choose|n: nat|
                n < setting.edges.len() && #[trigger] is_descent(setting, grad_step, n, rows, after)
                    && is_above_one(setting.edges[n as int]);
            let states = descent_states(vf, vw, vd, setting, grad_step, n, rows, after);
            assert(are_steps_along(
                vf,
                vw,
                before.edges@.take(n as int),
                setting.scales,
                vd(grad_step),
                states,
            ));
            let edge = before.edges@[n as int];
            let one = choose|one: W| is_one(one) && is_at_most(edge.1.weight, one, false);
            assert(vw(before.edges@[n as int].1.weight) > 1 as real);
        },
    }
}

/// The states between iterations, the step of the iteration `k` being `0.1 / k`.
pub open spec fn are_passes<F, W>(
    vf: spec_fn(F) -> real,
    vw: spec_fn(W) -> real,
    edges: Seq<(NodeIdx, OutEdge<W>)>,
    scales: Seq<W>,
    states: Seq<Seq<Seq<F>>>,
) -> bool {
    forall|k: int|
        1 <= k < states.len() ==> is_pass(
            vf,
            vw,
            edges,
            scales,
            (1 as real) / (10 as real * (k as real)),
            states[k - 1],
            #[trigger] states[k],
        )
}

proof fn iteration_states<F: Real + CastTo<D>, W: Real + CastTo<D>, D: Real + CastTo<F>>(
    vf: spec_fn(F) -> real,
    vw: spec_fn(W) -> real,
    vd: spec_fn(D) -> real,
    setting: Setting<W>,
    k: nat,
    rows: Seq<Seq<F>>,
    after: Seq<Seq<F>>,
) -> (states: Seq<Seq<Seq<F>>>)
    requires
        is_movable_exactly(vf, vw, vd),
        k <= usize::MAX,
        are_movable_edges(vw, setting.edges, setting.scales, rows),
        are_iterations::<F, W, D>(setting, k, rows, after),
    ensures
        states.len() == k + 1,
        are_passes(vf, vw, setting.edges, setting.scales, states),
        states.first() == rows,
        states.last() == after,
        same_shape(rows, after),
        are_movable_edges(vw, setting.edges, setting.scales, after),
    decreases k,
{
    if k == 0 {
        seq![rows]
    } else {
        let (mid, step) = choose|mid: Seq<Seq<F>>, step: D|
            #![trigger is_descent(setting, step, setting.edges.len(), mid, after)]
            are_iterations::<F, W, D>(setting, (k - 1) as nat, rows, mid) && is_grad_step(
                k as usize,
                step,
            ) && is_descent(setting, step, setting.edges.len(), mid, after);
        let before = iteration_states::<F, W, D>(vf, vw, vd, setting, (k - 1) as nat, rows, mid);
        lemma_pass(vf, vw, vd, setting, step, mid, after);
        let (init, n) = choose|init: D, n: D|
            is_ratio(1, 10, init) && is_count(k as usize, n) && is_quot(init, n, step);
        let (x, y, kv) = (vd(step), vd(init), k as real);
        assert(vd(n) == kv);
        assert(y * (10 as real) == 1 as real);
        assert(x == (1 as real) / (10 as real * kv)) by (nonlinear_arith)
            requires
                x * kv == y,
                y * (10 as real) == 1 as real,
                kv > 0 as real,
        ;
        let states = before.push(after);
        assert forall|m: int| 1 <= m < states.len() implies is_pass(
            vf,
            vw,
            setting.edges,
            setting.scales,
            (1 as real) / (10 as real * (m as real)),
            states[m - 1],
            #[trigger] states[m],
        ) by {
            if m < k {
                assert(states[m] == before[m] && states[m - 1] == before[m - 1]);
            }
        }
        assert forall|u: int| 0 <= u < rows.len() implies (#[trigger] rows[u]).len() == after[u].len() by {
            assert(rows[u].len() == mid[u].len());
        }
        states
    }
}

/// The optimization makes ten iterations. The iteration `k`, counted from 1, is a descent step of
/// length `0.1 / k` along each edge, in order. What is measured before and after is the cross
/// entropy of the points before and after.
pub proof fn law_optimize<
    F: Real + CastTo<W> + CastTo<D>,
    W: Real + CastTo<F> + CastTo<D>,
    D: Real + CastTo<F>,
>(
    vf: spec_fn(F) -> real,
    vw: spec_fn(W) -> real,
    vd: spec_fn(D) -> real,
    power: spec_fn(real, real) -> real,
    ln: spec_fn(real) -> real,
    optim: EntropyOptim<F, W>,
    done: Optimized<F, D>,
)
    requires
        is_movable_exactly(vf, vw, vd),
        is_measurable(vf, vw, vd, power, ln),
        raises(vw, optim.b),
        are_movable_edges(vw, optim.edges@, optim.initial_scales@, points_of(optim)),
        call_ensures(
            EntropyOptim::<F, W>::optimize::<D>,
            (optim,),
            Ok::<Optimized<F, D>, EntropyError>(done),
        ),
    ensures
        exists|states: Seq<Seq<Seq<F>>>| #[trigger]
            are_passes(vf, vw, optim.edges@, optim.initial_scales@, states) && states.len() == 11
                && states[0] == points_of(optim) && states[10] == done.embedding@,
        vd(done.initial_ce) == cross_sum(
            vf,
            vw,
            power,
            ln,
            optim.edges@,
            optim.initial_scales@,
            optim.b,
            points_of(optim),
            optim.edges@.len(),
        ),
        vd(done.final_ce) == cross_sum(
            vf,
            vw,
            power,
            ln,
            optim.edges@,
            optim.initial_scales@,
            optim.b,
            done.embedding@,
            optim.edges@.len(),
        ),
        done.embedding@.len() == optim.embedded@.len(),
{
    lemma_optimization(vf, vw, vd, power, ln, optim.setting(), optim.rows(), done);
    let states = choose|states: Seq<Seq<Seq<F>>>| #[trigger]
        are_passes(vf, vw, optim.setting().edges, optim.setting().scales, states) && states.len() == 11
            && states[0] == optim.rows() && states[10] == done.embedding@;
    assert(are_passes(vf, vw, optim.edges@, optim.initial_scales@, states));
}

/// In an arithmetic in which every number is finite, and normal unless it is 0, the optimization is
/// refused where the probability of an edge is above 1, and nowhere else.
pub proof fn law_optimize_refusals<
    F: Real + CastTo<W> + CastTo<D>,
    W: Real + CastTo<F> + CastTo<D>,
    D: Real + CastTo<F>,
>(
    vf: spec_fn(F) -> real,
    vw: spec_fn(W) -> real,
    vd: spec_fn(D) -> real,
    power: spec_fn(real, real) -> real,
    ln: spec_fn(real) -> real,
    optim: EntropyOptim<F, W>,
    res: Result<Optimized<F, D>, EntropyError>,
)
    requires
        is_movable_exactly(vf, vw, vd),
        is_measurable(vf, vw, vd, power, ln),
        raises(vw, optim.b),
        is_normal_unless_zero(vf),
        forall|a: D, r: bool| #[trigger] is_finite(a, r) ==> r,
        are_movable_edges(vw, optim.edges@, optim.initial_scales@, points_of(optim)),
        call_ensures(EntropyOptim::<F, W>::optimize::<D>, (optim,), res),
    ensures
        res is Ok <==> forall|k: int|
            0 <= k < optim.edges@.len() ==> vw((#[trigger] optim.edges@[k]).1.weight) <= 1 as real,
        res matches Err(error) ==> error == EntropyError::WeightAboveOne,
{
    lemma_optimization_refusals(vf, vw, vd, power, ln, optim.setting(), optim.rows(), res);
    assert(optim.setting().edges == optim.edges@);
}

/// The same in terms of the edges and the points.
pub proof fn lemma_optimization_refusals<
    F: Real + CastTo<W> + CastTo<D>,
    W: Real + CastTo<F> + CastTo<D>,
    D: Real + CastTo<F>,
>(
    vf: spec_fn(F) -> real,
    vw: spec_fn(W) -> real,
    vd: spec_fn(D) -> real,
    power: spec_fn(real, real) -> real,
    ln: spec_fn(real) -> real,
    setting: Setting<W>,
    rows: Seq<Seq<F>>,
    res: Result<Optimized<F, D>, EntropyError>,
)
    requires
        is_movable_exactly(vf, vw, vd),
        is_measurable(vf, vw, vd, power, ln),
        raises(vw, setting.b),
        is_normal_unless_zero(vf),
        forall|a: D, r: bool| #[trigger] is_finite(a, r) ==> r,
        are_movable_edges(vw, setting.edges, setting.scales, rows),
        is_optimization(setting, rows, res),
    ensures
        res is Ok <==> forall|k: int|
            0 <= k < setting.edges.len() ==> vw((#[trigger] setting.edges[k]).1.weight) <= 1 as real,
        res matches Err(error) ==> error == EntropyError::WeightAboveOne,
{
    assert(are_measurable_edges(vw, setting.edges, setting.scales, rows.len()));
    match res {
        Ok(done) => {
            let states = iteration_states::<F, W, D>(vf, vw, vd, setting, 10, rows, done.embedding@);
            assert(is_pass(
                vf,
                vw,
                setting.edges,
                setting.scales,
                (1 as real) / (10 as real * (1int as real)),
                states[0],
                states[1],
            ));
            let steps = choose|steps: Seq<Seq<Seq<F>>>| #[trigger]
                are_steps_along(
                    vf,
                    vw,
                    setting.edges,
                    setting.scales,
                    (1 as real) / (10 as real * (1int as real)),
                    steps,
                );
            assert forall|k: int| 0 <= k < setting.edges.len() implies vw(
                (#[trigger] setting.edges[k]).1.weight,
            ) <= 1 as real by {
                assert(is_step(
                    vf,
                    vw,
                    setting.edges[k],
                    setting.scales[setting.edges[k].0 as int],
                    (1 as real) / (10 as real * (1int as real)),
                    steps[k],
                    steps[k + 1],
                ));
            }
        },
        Err(error) => {
            if is_entropy_outcome::<F, W, D>(setting, rows, Err(error)) {
                lemma_entropy_outcome(vf, vw, vd, power, ln, setting, rows, Err::<D, EntropyError>(error));
            } else if is_stopped::<F, W, D>(setting, rows, error) {
                let (k, mid, step, after) = choose|
                    k: nat,
                    mid: Seq<Seq<F>>,
                    step: D,
                    after: Seq<Seq<F>>,
                |
                    #![trigger are_iterations::<F, W, D>(setting, k, rows, mid), is_iteration(setting, step, mid, after, Err(error))]
                    k < NB_ITERATIONS && are_iterations::<F, W, D>(setting, k, rows, mid) && is_grad_step(
                        (k + 1) as usize,
                        step,
                    ) && is_iteration(setting, step, mid, after, Err(error));
                let n = choose|n: nat|
                    n < setting.edges.len() && #[trigger] is_descent(setting, step, n, mid, after)
                        && is_above_one(setting.edges[n as int]);
                let edge = setting.edges[n as int];
                let one = choose|one: W| is_one(one) && is_at_most(edge.1.weight, one, false);
                assert(vw(setting.edges[n as int].1.weight) > 1 as real);
            } else {
                let after = choose|after: Seq<Seq<F>>|
                    #![trigger are_iterations::<F, W, D>(setting, NB_ITERATIONS as nat, rows, after)]
                    are_iterations::<F, W, D>(setting, NB_ITERATIONS as nat, rows, after)
                        && is_entropy_outcome::<F, W, D>(setting, after, Err(error));
                let states = iteration_states::<F, W, D>(
                    vf,
                    vw,
                    vd,
                    setting,
                    NB_ITERATIONS as nat,
                    rows,
                    after,
                );
                assert(are_measurable_edges(vw, setting.edges, setting.scales, after.len()));
                lemma_entropy_outcome(vf, vw, vd, power, ln, setting, after, Err::<D, EntropyError>(error));
            }
        },
    }
}

/// The same in terms of the edges, the scales and the points.
pub proof fn lemma_optimization<
    F: Real + CastTo<W> + CastTo<D>,
    W: Real + CastTo<F> + CastTo<D>,
    D: Real + CastTo<F>,
>(
    vf: spec_fn(F) -> real,
    vw: spec_fn(W) -> real,
    vd: spec_fn(D) -> real,
    power: spec_fn(real, real) -> real,
    ln: spec_fn(real) -> real,
    setting: Setting<W>,
    rows: Seq<Seq<F>>,
    done: Optimized<F, D>,
)
    requires
        is_movable_exactly(vf, vw, vd),
        is_measurable(vf, vw, vd, power, ln),
        raises(vw, setting.b),
        are_movable_edges(vw, setting.edges, setting.scales, rows),
        is_optimization(setting, rows, Ok::<Optimized<F, D>, EntropyError>(done)),
    ensures
        exists|states: Seq<Seq<Seq<F>>>| #[trigger]
            are_passes(vf, vw, setting.edges, setting.scales, states) && states.len() == 11 && states[0]
                == rows && states[10] == done.embedding@,
        vd(done.initial_ce) == cross_sum(
            vf,
            vw,
            power,
            ln,
            setting.edges,
            setting.scales,
            setting.b,
            rows,
            setting.edges.len(),
        ),
        vd(done.final_ce) == cross_sum(
            vf,
            vw,
            power,
            ln,
            setting.edges,
            setting.scales,
            setting.b,
            done.embedding@,
            setting.edges.len(),
        ),
        done.embedding@.len() == rows.len(),
{
    let after = done.embedding@;
    let states = iteration_states::<F, W, D>(vf, vw, vd, setting, 10, rows, after);
    assert(are_passes(vf, vw, setting.edges, setting.scales, states));
    assert(are_measurable_edges(vw, setting.edges, setting.scales, rows.len()));
    assert(are_measurable_edges(vw, setting.edges, setting.scales, after.len()));
    lemma_entropy_outcome(
        vf,
        vw,
        vd,
        power,
        ln,
        setting,
        rows,
        Ok::<D, EntropyError>(done.initial_ce),
    );
    lemma_entropy_outcome(
        vf,
        vw,
        vd,
        power,
        ln,
        setting,
        after,
        Ok::<D, EntropyError>(done.final_ce),
    );
}

} // verus!
