//! The optimization of an embedding has one outcome.
use vstd::prelude::*;

use crate::entropy::{
    are_iterations, is_above_one, is_cauchy, is_cauchy_weight, is_coordinate_move,
    is_cross_entropy, is_descent, is_edge_entropy, is_edge_move, is_edge_pull,
    is_embedded_weight, is_entropy, is_entropy_outcome, is_grad_step, is_iteration,
    is_likely_term, is_optimization, is_point_move, is_pull, is_scaled_distance,
    is_squared_distance, is_stopped, is_unlikely_term, law_descent_local,
    law_iterations_local, EntropyError, Optimized, Setting, NB_ITERATIONS,
};
use crate::graph::{NodeIdx, OutEdge};
use crate::number::{
    casts_once, is_cast, is_deterministic, is_finite, is_normal, is_prod, is_quot, is_squared_gap,
    is_total, CastTo, Real,
};
use crate::unique::{is_steady, law_total_unique};

verus! {

/// The squared distance of two points is unique.
pub proof fn law_distance_unique<F: Real>(y1: Seq<F>, y2: Seq<F>, d: F, e: F)
    requires
        is_deterministic::<F>(),
        is_squared_distance(y1, y2, d),
        is_squared_distance(y1, y2, e),
    ensures
        d == e,
{
    let n = if y1.len() <= y2.len() {
        y1.len()
    } else {
        y2.len()
    };
    let p = choose|gaps: Seq<F>|
        #![trigger is_total(gaps, d)]
        gaps.len() == n && (forall|k: int|
            0 <= k < gaps.len() ==> is_squared_gap(y1[k], y2[k], #[trigger] gaps[k])) && is_total(
            gaps,
            d,
        );
    let q = choose|gaps: Seq<F>|
        #![trigger is_total(gaps, e)]
        gaps.len() == n && (forall|k: int|
            0 <= k < gaps.len() ==> is_squared_gap(y1[k], y2[k], #[trigger] gaps[k])) && is_total(
            gaps,
            e,
        );
    assert forall|k: int| 0 <= k < p.len() implies p[k] == q[k] by {
        assert(is_squared_gap(y1[k], y2[k], p[k]) && is_squared_gap(y1[k], y2[k], q[k]));
    }
    assert(p =~= q);
    law_total_unique(p, d, e);
}

/// The weight of an embedded edge is unique, and so is the answer whether it is a normal number.
pub proof fn law_cauchy_weight_unique<F: Real + CastTo<W>, W: Real + CastTo<F>>(
    y1: Seq<F>,
    scale: F,
    b: W,
    y2: Seq<F>,
    v: F,
    v_normal: bool,
    w: F,
    w_normal: bool,
)
    requires
        is_deterministic::<F>(),
        is_deterministic::<W>(),
        casts_once::<F, W>(),
        casts_once::<W, F>(),
        is_cauchy_weight(y1, scale, b, y2, v, v_normal),
        is_cauchy_weight(y1, scale, b, y2, w, w_normal),
    ensures
        v == w,
        v_normal == w_normal,
{
    let p = choose|r: F|
        is_scaled_distance(y1, y2, scale, r) && is_cauchy(r, b, v)
            && is_normal(v, v_normal);
    let q = choose|r: F|
        is_scaled_distance(y1, y2, scale, r) && is_cauchy(r, b, w)
            && is_normal(w, w_normal);
    let d = scaled_from(y1, y2, scale, p);
    let e = scaled_from(y1, y2, scale, q);
    law_distance_unique(y1, y2, d, e);
    assert(p == q);
}

/// The squared distance behind a scaled distance.
proof fn scaled_from<F: Real>(y1: Seq<F>, y2: Seq<F>, scale: F, r: F) -> (d: F)
    requires
        is_scaled_distance(y1, y2, scale, r),
    ensures
        is_squared_distance(y1, y2, d),
        exists|s: F| is_prod(scale, scale, s) && is_quot(d, s, r),
{
    let (d, s) = choose|d: F, s: F|
        is_squared_distance(y1, y2, d) && is_prod(scale, scale, s)
            && is_quot(d, s, r);
    d
}

pub proof fn lemma_embedded_weight_unique<F: Real + CastTo<W>, W: Real + CastTo<F>>(
    setting: Setting<W>,
    rows: Seq<Seq<F>>,
    edge: (NodeIdx, OutEdge<W>),
    v: F,
    v_normal: bool,
    w: F,
    w_normal: bool,
)
    requires
        is_deterministic::<F>(),
        is_deterministic::<W>(),
        casts_once::<F, W>(),
        casts_once::<W, F>(),
        is_embedded_weight(setting, rows, edge, v, v_normal),
        is_embedded_weight(setting, rows, edge, w, w_normal),
    ensures
        v == w,
        v_normal == w_normal,
{
    let (yi, yj) = (rows[edge.0 as int], rows[edge.1.node as int]);
    let p = choose|scale: F|
        is_cast(setting.scales[edge.0 as int], scale) && is_cauchy_weight(
            yi,
            scale,
            setting.b,
            yj,
            v,
            v_normal,
        );
    let q = choose|scale: F|
        is_cast(setting.scales[edge.0 as int], scale) && is_cauchy_weight(
            yi,
            scale,
            setting.b,
            yj,
            w,
            w_normal,
        );
    assert(p == q);
    law_cauchy_weight_unique(yi, p, setting.b, yj, v, v_normal, w, w_normal);
}

pub proof fn lemma_edge_entropy_unique<
    F: Real + CastTo<W> + CastTo<D>,
    W: Real + CastTo<F> + CastTo<D>,
    D: Real,
>(
    setting: Setting<W>,
    rows: Seq<Seq<F>>,
    edge: (NodeIdx, OutEdge<W>),
    acc: D,
    r: D,
    s: D,
)
    requires
        is_steady::<F, W, D>(),
        is_edge_entropy(setting, rows, edge, acc, r),
        is_edge_entropy(setting, rows, edge, acc, s),
    ensures
        r == s,
{
    let (pw, pf, pe) = choose|w: D, f: F, we: D|
        is_cast(edge.1.weight, w) && is_embedded_weight(setting, rows, edge, f, true) && is_cast(
            f,
            we,
        ) && is_cross_entropy(acc, w, we, r);
    let (qw, qf, qe) = choose|w: D, f: F, we: D|
        is_cast(edge.1.weight, w) && is_embedded_weight(setting, rows, edge, f, true) && is_cast(
            f,
            we,
        ) && is_cross_entropy(acc, w, we, s);
    lemma_embedded_weight_unique(setting, rows, edge, pf, true, qf, true);
    assert(pw == qw && pe == qe);
    lemma_cross_entropy_unique(acc, pw, pe, r, s);
}

proof fn lemma_cross_entropy_unique<D: Real>(acc: D, w: D, we: D, r: D, s: D)
    requires
        is_deterministic::<D>(),
        is_cross_entropy(acc, w, we, r),
        is_cross_entropy(acc, w, we, s),
    ensures
        r == s,
{
    let p = choose|mid: D|
        #![trigger is_likely_term(acc, w, we, mid)]
        is_likely_term(acc, w, we, mid) && is_unlikely_term(
            mid,
            w,
            we,
            r,
        );
    let q = choose|mid: D|
        #![trigger is_likely_term(acc, w, we, mid)]
        is_likely_term(acc, w, we, mid) && is_unlikely_term(
            mid,
            w,
            we,
            s,
        );
    assert(p == q);
}

/// The cross entropy of the first `n` edges is unique.
pub proof fn law_entropy_unique<
    F: Real + CastTo<W> + CastTo<D>,
    W: Real + CastTo<F> + CastTo<D>,
    D: Real,
>(setting: Setting<W>, rows: Seq<Seq<F>>, n: nat, r: D, s: D)
    requires
        is_steady::<F, W, D>(),
        is_entropy(setting, rows, n, r),
        is_entropy(setting, rows, n, s),
    ensures
        r == s,
    decreases n,
{
    if n > 0 {
        let p = entropy_before(setting, rows, n, r);
        let q = entropy_before(setting, rows, n, s);
        law_entropy_unique(setting, rows, (n - 1) as nat, p, q);
        lemma_edge_entropy_unique(setting, rows, setting.edges[n - 1], p, r, s);
    }
}

/// The cross entropy without that of the last edge.
proof fn entropy_before<
    F: Real + CastTo<W> + CastTo<D>,
    W: Real + CastTo<F> + CastTo<D>,
    D: Real,
>(setting: Setting<W>, rows: Seq<Seq<F>>, n: nat, ce: D) -> (acc: D)
    requires
        n > 0,
        is_entropy(setting, rows, n, ce),
    ensures
        is_entropy(setting, rows, (n - 1) as nat, acc),
        is_edge_entropy(setting, rows, setting.edges[n - 1], acc, ce),
        is_finite(ce, true),
{
    choose|acc: D|
        is_entropy(setting, rows, (n - 1) as nat, acc) && #[trigger] is_edge_entropy(
            setting,
            rows,
            setting.edges[n - 1],
            acc,
            ce,
        ) && is_finite(ce, true)
}

/// Where there is a cross entropy of `n` edges, there is one of fewer, and nothing goes wrong at the
/// next edge.
proof fn entropy_at<
    F: Real + CastTo<W> + CastTo<D>,
    W: Real + CastTo<F> + CastTo<D>,
    D: Real,
>(setting: Setting<W>, rows: Seq<Seq<F>>, n: nat, ce: D, m: nat) -> (r: (D, D))
    requires
        m < n,
        is_entropy(setting, rows, n, ce),
    ensures
        is_entropy(setting, rows, m, r.0),
        is_edge_entropy(setting, rows, setting.edges[m as int], r.0, r.1),
        is_finite(r.1, true),
    decreases n,
{
    let acc = entropy_before(setting, rows, n, ce);
    if m == n - 1 {
        (acc, ce)
    } else {
        entropy_at(setting, rows, (n - 1) as nat, acc, m)
    }
}

/// The computation of the cross entropy goes wrong at the edge `n`, with the error `error`.
spec fn fails_at<
    F: Real + CastTo<W> + CastTo<D>,
    W: Real + CastTo<F> + CastTo<D>,
    D: Real,
>(setting: Setting<W>, rows: Seq<Seq<F>>, n: nat, acc: D, error: EntropyError) -> bool {
    &&& n < setting.edges.len()
    &&& is_entropy(setting, rows, n, acc)
    &&& match error {
        EntropyError::WeightNotNormal => exists|w: F|
            is_embedded_weight(setting, rows, setting.edges[n as int], w, false),
        EntropyError::NotFinite => exists|ce: D|
            is_edge_entropy(setting, rows, setting.edges[n as int], acc, ce) && is_finite(
                ce,
                false,
            ),
        EntropyError::WeightAboveOne => false,
    }
}

proof fn failure<
    F: Real + CastTo<W> + CastTo<D>,
    W: Real + CastTo<F> + CastTo<D>,
    D: Real,
>(setting: Setting<W>, rows: Seq<Seq<F>>, error: EntropyError) -> (r: (nat, D))
    requires
        is_entropy_outcome::<F, W, D>(setting, rows, Err(error)),
    ensures
        fails_at(setting, rows, r.0, r.1, error),
{
    match error {
        EntropyError::WeightNotNormal => {
            let (n, acc, w) = choose|n: nat, acc: D, w: F|
                n < setting.edges.len() && is_entropy(setting, rows, n, acc) && is_embedded_weight(
                    setting,
                    rows,
                    setting.edges[n as int],
                    w,
                    false,
                );
            assert(is_embedded_weight(setting, rows, setting.edges[n as int], w, false));
            (n, acc)
        },
        _ => {
            let (n, acc, ce) = choose|n: nat, acc: D, ce: D|
                n < setting.edges.len() && is_entropy(setting, rows, n, acc) && is_edge_entropy(
                    setting,
                    rows,
                    setting.edges[n as int],
                    acc,
                    ce,
                ) && is_finite(ce, false);
            assert(is_edge_entropy(setting, rows, setting.edges[n as int], acc, ce));
            (n, acc)
        },
    }
}

/// Where an edge has a finite cross entropy, nothing goes wrong at it.
proof fn lemma_no_failure<
    F: Real + CastTo<W> + CastTo<D>,
    W: Real + CastTo<F> + CastTo<D>,
    D: Real,
>(
    setting: Setting<W>,
    rows: Seq<Seq<F>>,
    n: nat,
    acc: D,
    next: D,
    other: D,
    error: EntropyError,
)
    requires
        is_steady::<F, W, D>(),
        is_entropy(setting, rows, n, acc),
        is_edge_entropy(setting, rows, setting.edges[n as int], acc, next),
        is_finite(next, true),
    ensures
        !fails_at(setting, rows, n, other, error),
{
    if fails_at(setting, rows, n, other, error) {
        let edge = setting.edges[n as int];
        law_entropy_unique(setting, rows, n, acc, other);
        match error {
            EntropyError::WeightNotNormal => {
                let w = choose|w: F| is_embedded_weight(setting, rows, edge, w, false);
                let (pw, f, pe) = choose|pw: D, f: F, pe: D|
                    is_cast(edge.1.weight, pw) && is_embedded_weight(setting, rows, edge, f, true)
                        && is_cast(f, pe) && is_cross_entropy(acc, pw, pe, next);
                lemma_embedded_weight_unique(setting, rows, edge, w, false, f, true);
            },
            _ => {
                let ce = choose|ce: D|
                    is_edge_entropy(setting, rows, edge, acc, ce) && is_finite(ce, false);
                lemma_edge_entropy_unique(setting, rows, edge, acc, ce, next);
            },
        }
    }
}

/// The computation of the cross entropy has one outcome.
pub proof fn law_entropy_outcome_unique<
    F: Real + CastTo<W> + CastTo<D>,
    W: Real + CastTo<F> + CastTo<D>,
    D: Real,
>(
    setting: Setting<W>,
    rows: Seq<Seq<F>>,
    a: Result<D, EntropyError>,
    b: Result<D, EntropyError>,
)
    requires
        is_steady::<F, W, D>(),
        is_entropy_outcome(setting, rows, a),
        is_entropy_outcome(setting, rows, b),
    ensures
        a == b,
{
    match (a, b) {
        (Ok(r), Ok(s)) => {
            law_entropy_unique(setting, rows, setting.edges.len(), r, s);
        },
        (Ok(r), Err(e)) => {
            lemma_not_both::<F, W, D>(setting, rows, r, e);
        },
        (Err(e), Ok(s)) => {
            lemma_not_both::<F, W, D>(setting, rows, s, e);
        },
        (Err(e), Err(f)) => {
            let (m, p) = failure::<F, W, D>(setting, rows, e);
            let (n, q) = failure::<F, W, D>(setting, rows, f);
            if m < n {
                let (acc, next) = entropy_at(setting, rows, n, q, m);
                lemma_no_failure(setting, rows, m, acc, next, p, e);
            } else if n < m {
                let (acc, next) = entropy_at(setting, rows, m, p, n);
                lemma_no_failure(setting, rows, n, acc, next, q, f);
            } else {
                law_entropy_unique(setting, rows, m, p, q);
                lemma_one_failure(setting, rows, m, p, e, f);
            }
        },
    }
}

/// Where there is a cross entropy, nothing goes wrong.
proof fn lemma_not_both<
    F: Real + CastTo<W> + CastTo<D>,
    W: Real + CastTo<F> + CastTo<D>,
    D: Real,
>(setting: Setting<W>, rows: Seq<Seq<F>>, ce: D, error: EntropyError)
    requires
        is_steady::<F, W, D>(),
        is_entropy(setting, rows, setting.edges.len(), ce),
    ensures
        !is_entropy_outcome::<F, W, D>(setting, rows, Err(error)),
{
    if is_entropy_outcome::<F, W, D>(setting, rows, Err(error)) {
        let (n, acc) = failure::<F, W, D>(setting, rows, error);
        let (p, next) = entropy_at(setting, rows, setting.edges.len(), ce, n);
        lemma_no_failure(setting, rows, n, p, next, acc, error);
    }
}

/// One thing goes wrong at an edge.
proof fn lemma_one_failure<
    F: Real + CastTo<W> + CastTo<D>,
    W: Real + CastTo<F> + CastTo<D>,
    D: Real,
>(
    setting: Setting<W>,
    rows: Seq<Seq<F>>,
    n: nat,
    acc: D,
    e: EntropyError,
    f: EntropyError,
)
    requires
        is_steady::<F, W, D>(),
        fails_at(setting, rows, n, acc, e),
        fails_at(setting, rows, n, acc, f),
    ensures
        e == f,
{
    if e != f {
        let edge = setting.edges[n as int];
        let w = choose|w: F| is_embedded_weight(setting, rows, edge, w, false);
        let ce = choose|ce: D|
            is_edge_entropy(setting, rows, edge, acc, ce) && is_finite(ce, false);
        let (pw, g, pe) = choose|pw: D, g: F, pe: D|
            is_cast(edge.1.weight, pw) && is_embedded_weight(setting, rows, edge, g, true)
                && is_cast(g, pe) && is_cross_entropy(acc, pw, pe, ce);
        lemma_embedded_weight_unique(setting, rows, edge, w, false, g, true);
    }
}

proof fn lemma_edge_pull_unique<
    F: Real + CastTo<W> + CastTo<D>,
    W: Real + CastTo<F> + CastTo<D>,
    D: Real + CastTo<F>,
>(setting: Setting<W>, edge: (NodeIdx, OutEdge<W>), rows: Seq<Seq<F>>, b: F, c: F)
    requires
        is_steady::<F, W, D>(),
        casts_once::<D, F>(),
        is_edge_pull::<F, W, D>(setting, edge, rows, b),
        is_edge_pull::<F, W, D>(setting, edge, rows, c),
    ensures
        b == c,
{
    let (yi, yj) = (rows[edge.0 as int], rows[edge.1.node as int]);
    let scale = setting.scales[edge.0 as int];
    let (pf, pd, pc) = choose|df: F, d: D, cd: D|
        is_squared_distance(yi, yj, df) && is_cast(df, d) && is_pull(edge.1.weight, scale, d, cd)
            && is_cast(cd, b);
    let (qf, qd, qc) = choose|df: F, d: D, cd: D|
        is_squared_distance(yi, yj, df) && is_cast(df, d) && is_pull(edge.1.weight, scale, d, cd)
            && is_cast(cd, c);
    law_distance_unique(yi, yj, pf, qf);
    assert(pd == qd);
    assert(pc == qc);
}

proof fn lemma_point_move_unique<F: Real>(
    yi: Seq<F>,
    yj: Seq<F>,
    c: F,
    step: F,
    pi: Seq<F>,
    pj: Seq<F>,
    qi: Seq<F>,
    qj: Seq<F>,
)
    requires
        is_deterministic::<F>(),
        is_point_move(yi, yj, c, step, pi, pj),
        is_point_move(yi, yj, c, step, qi, qj),
    ensures
        pi == qi,
        pj == qj,
{
    assert forall|k: int| #![trigger pi[k]] #![trigger pj[k]] 0 <= k < yi.len() implies pi[k] == qi[k]
        && (k < yj.len() ==> pj[k] == qj[k]) by {
        assert(is_coordinate_move(yi[k], yj[k], c, step, pi[k], pj[k]));
        assert(is_coordinate_move(yi[k], yj[k], c, step, qi[k], qj[k]));
    }
    assert(pi =~= qi);
    assert forall|k: int| 0 <= k < yj.len() implies #[trigger] pj[k] == qj[k] by {
        if k >= yi.len() {
            assert(pj[k] == yj[k] && qj[k] == yj[k]);
        }
    }
    assert(pj =~= qj);
}

/// A descent step along an edge leads to one embedding.
pub proof fn law_edge_move_unique<
    F: Real + CastTo<W> + CastTo<D>,
    W: Real + CastTo<F> + CastTo<D>,
    D: Real + CastTo<F>,
>(
    setting: Setting<W>,
    edge: (NodeIdx, OutEdge<W>),
    grad_step: D,
    rows: Seq<Seq<F>>,
    p: Seq<Seq<F>>,
    q: Seq<Seq<F>>,
)
    requires
        is_steady::<F, W, D>(),
        casts_once::<D, F>(),
        edge.0 < rows.len(),
        edge.1.node < rows.len(),
        is_edge_move(setting, edge, grad_step, rows, p),
        is_edge_move(setting, edge, grad_step, rows, q),
    ensures
        p == q,
{
    let (yi, yj) = (rows[edge.0 as int], rows[edge.1.node as int]);
    let (pc, ps, pi, pj) = choose|c: F, step: F, ni: Seq<F>, nj: Seq<F>|
        #![trigger is_point_move(yi, yj, c, step, ni, nj)]
        is_edge_pull::<F, W, D>(setting, edge, rows, c) && is_cast(grad_step, step)
            && is_point_move(yi, yj, c, step, ni, nj) && p == rows.update(edge.0 as int, ni).update(
            edge.1.node as int,
            nj,
        );
    let (qc, qs, qi, qj) = choose|c: F, step: F, ni: Seq<F>, nj: Seq<F>|
        #![trigger is_point_move(yi, yj, c, step, ni, nj)]
        is_edge_pull::<F, W, D>(setting, edge, rows, c) && is_cast(grad_step, step)
            && is_point_move(yi, yj, c, step, ni, nj) && q == rows.update(edge.0 as int, ni).update(
            edge.1.node as int,
            nj,
        );
    lemma_edge_pull_unique::<F, W, D>(setting, edge, rows, pc, qc);
    assert(ps == qs);
    lemma_point_move_unique(yi, yj, pc, ps, pi, pj, qi, qj);
}

/// The points before the last descent step.
proof fn descent_before<F: Real + CastTo<D>, W: Real + CastTo<D>, D: Real + CastTo<F>>(
    setting: Setting<W>,
    grad_step: D,
    n: nat,
    rows: Seq<Seq<F>>,
    after: Seq<Seq<F>>,
) -> (mid: Seq<Seq<F>>)
    requires
        0 < n <= setting.edges.len(),
        setting.fits(rows.len() as int),
        is_descent(setting, grad_step, n, rows, after),
    ensures
        is_descent(setting, grad_step, (n - 1) as nat, rows, mid),
        is_edge_move(setting, setting.edges[n - 1], grad_step, mid, after),
        mid.len() == rows.len(),
{
    let mid = choose|mid: Seq<Seq<F>>|
        is_descent(setting, grad_step, (n - 1) as nat, rows, mid) && #[trigger] is_edge_move(
            setting,
            setting.edges[n - 1],
            grad_step,
            mid,
            after,
        );
    assert(setting.edges[n - 1].0 < rows.len());
    law_descent_local(setting, grad_step, (n - 1) as nat, rows, mid, 0);
    mid
}

/// Descent steps along the first `n` edges lead to one embedding.
pub proof fn law_descent_unique<
    F: Real + CastTo<W> + CastTo<D>,
    W: Real + CastTo<F> + CastTo<D>,
    D: Real + CastTo<F>,
>(
    setting: Setting<W>,
    grad_step: D,
    n: nat,
    rows: Seq<Seq<F>>,
    p: Seq<Seq<F>>,
    q: Seq<Seq<F>>,
)
    requires
        is_steady::<F, W, D>(),
        casts_once::<D, F>(),
        n <= setting.edges.len(),
        setting.fits(rows.len() as int),
        is_descent(setting, grad_step, n, rows, p),
        is_descent(setting, grad_step, n, rows, q),
    ensures
        p == q,
    decreases n,
{
    if n > 0 {
        let a = descent_before(setting, grad_step, n, rows, p);
        let b = descent_before(setting, grad_step, n, rows, q);
        law_descent_unique(setting, grad_step, (n - 1) as nat, rows, a, b);
        assert(setting.edges[n - 1].0 < rows.len());
        law_edge_move_unique(setting, setting.edges[n - 1], grad_step, a, p, q);
    }
}

/// The states `states` are those between single steps along the first edges, each step taken once and in order.
pub open spec fn are_steps<F: Real + CastTo<D>, W: Real + CastTo<D>, D: Real + CastTo<F>>(
    setting: Setting<W>,
    grad_step: D,
    states: Seq<Seq<Seq<F>>>,
) -> bool {
    forall|k: int|
        0 <= k < states.len() - 1 ==> is_edge_move(
            setting,
            setting.edges[k],
            grad_step,
            #[trigger] states[k],
            states[k + 1],
        )
}

/// Single steps along the edges, one after the other, are a descent.
proof fn lemma_steps_descend<F: Real + CastTo<D>, W: Real + CastTo<D>, D: Real + CastTo<F>>(
    setting: Setting<W>,
    grad_step: D,
    states: Seq<Seq<Seq<F>>>,
    n: nat,
)
    requires
        n < states.len(),
        are_steps(setting, grad_step, states),
    ensures
        is_descent(setting, grad_step, n, states[0], states[n as int]),
    decreases n,
{
    if n > 0 {
        lemma_steps_descend(setting, grad_step, states, (n - 1) as nat);
        assert(is_edge_move(
            setting,
            setting.edges[n - 1],
            grad_step,
            states[n - 1],
            states[(n - 1) + 1],
        ));
    }
}

/// An iteration leads where single steps along the edges lead, each edge taken once and in order.
pub proof fn law_iteration_is_steps<
    F: Real + CastTo<W> + CastTo<D>,
    W: Real + CastTo<F> + CastTo<D>,
    D: Real + CastTo<F>,
>(
    setting: Setting<W>,
    grad_step: D,
    rows: Seq<Seq<F>>,
    after: Seq<Seq<F>>,
    res: Result<(), EntropyError>,
    states: Seq<Seq<Seq<F>>>,
)
    requires
        is_steady::<F, W, D>(),
        casts_once::<D, F>(),
        setting.fits(rows.len() as int),
        is_iteration(setting, grad_step, rows, after, res),
        states.len() == setting.edges.len() + 1,
        states[0] == rows,
        are_steps(setting, grad_step, states),
    ensures
        res is Ok,
        after == states.last(),
{
    lemma_steps_descend(setting, grad_step, states, setting.edges.len());
    law_iteration_unique(setting, grad_step, rows, after, res, states.last(), Ok(()));
}

/// An edge along which there is a descent step has no probability above 1.
proof fn lemma_not_above<F: Real + CastTo<D>, W: Real + CastTo<D>, D: Real + CastTo<F>>(
    setting: Setting<W>,
    grad_step: D,
    n: nat,
    rows: Seq<Seq<F>>,
    after: Seq<Seq<F>>,
    m: nat,
)
    requires
        is_deterministic::<W>(),
        m < n,
        is_descent(setting, grad_step, n, rows, after),
    ensures
        !is_above_one(setting.edges[m as int]),
    decreases n,
{
    let mid = choose|mid: Seq<Seq<F>>|
        is_descent(setting, grad_step, (n - 1) as nat, rows, mid) && #[trigger] is_edge_move(
            setting,
            setting.edges[n - 1],
            grad_step,
            mid,
            after,
        );
    if m < n - 1 {
        lemma_not_above(setting, grad_step, (n - 1) as nat, rows, mid, m);
    }
}

/// An iteration has one outcome.
pub proof fn law_iteration_unique<
    F: Real + CastTo<W> + CastTo<D>,
    W: Real + CastTo<F> + CastTo<D>,
    D: Real + CastTo<F>,
>(
    setting: Setting<W>,
    grad_step: D,
    rows: Seq<Seq<F>>,
    p: Seq<Seq<F>>,
    a: Result<(), EntropyError>,
    q: Seq<Seq<F>>,
    b: Result<(), EntropyError>,
)
    requires
        is_steady::<F, W, D>(),
        casts_once::<D, F>(),
        setting.fits(rows.len() as int),
        is_iteration(setting, grad_step, rows, p, a),
        is_iteration(setting, grad_step, rows, q, b),
    ensures
        p == q,
        a == b,
{
    let m = iteration_length(setting, grad_step, rows, p, a);
    let n = iteration_length(setting, grad_step, rows, q, b);
    if m < n {
        lemma_not_above(setting, grad_step, n, rows, q, m);
    } else if n < m {
        lemma_not_above(setting, grad_step, m, rows, p, n);
    }
    law_descent_unique(setting, grad_step, m, rows, p, q);
    if let (Ok(x), Ok(y)) = (a, b) {
        assert(x == y);
    }
}

/// How many steps an iteration makes.
proof fn iteration_length<F: Real + CastTo<D>, W: Real + CastTo<D>, D: Real + CastTo<F>>(
    setting: Setting<W>,
    grad_step: D,
    rows: Seq<Seq<F>>,
    after: Seq<Seq<F>>,
    res: Result<(), EntropyError>,
) -> (n: nat)
    requires
        is_iteration(setting, grad_step, rows, after, res),
    ensures
        n <= setting.edges.len(),
        is_descent(setting, grad_step, n, rows, after),
        res is Ok <==> n == setting.edges.len(),
        res is Err ==> res == Err::<(), EntropyError>(EntropyError::WeightAboveOne)
            && is_above_one(setting.edges[n as int]),
{
    match res {
        Ok(_) => setting.edges.len(),
        Err(_) => choose|n: nat|
            n < setting.edges.len() && #[trigger] is_descent(setting, grad_step, n, rows, after)
                && is_above_one(setting.edges[n as int]),
    }
}

/// The step of an iteration is unique.
proof fn lemma_step_unique<D: Real>(k: usize, a: D, b: D)
    requires
        is_deterministic::<D>(),
        is_grad_step(k, a),
        is_grad_step(k, b),
    ensures
        a == b,
{
}

/// The points and the step before the last iteration.
proof fn iterations_before<F: Real + CastTo<D>, W: Real + CastTo<D>, D: Real + CastTo<F>>(
    setting: Setting<W>,
    k: nat,
    rows: Seq<Seq<F>>,
    after: Seq<Seq<F>>,
) -> (r: (Seq<Seq<F>>, D))
    requires
        k > 0,
        are_iterations::<F, W, D>(setting, k, rows, after),
    ensures
        are_iterations::<F, W, D>(setting, (k - 1) as nat, rows, r.0),
        is_grad_step(k as usize, r.1),
        is_descent(setting, r.1, setting.edges.len(), r.0, after),
{
    choose|mid: Seq<Seq<F>>, step: D|
        #![trigger is_descent(setting, step, setting.edges.len(), mid, after)]
        are_iterations::<F, W, D>(setting, (k - 1) as nat, rows, mid) && is_grad_step(
            k as usize,
            step,
        ) && is_descent(setting, step, setting.edges.len(), mid, after)
}

/// The first `k` iterations lead to one embedding.
pub proof fn law_iterations_unique<
    F: Real + CastTo<W> + CastTo<D>,
    W: Real + CastTo<F> + CastTo<D>,
    D: Real + CastTo<F>,
>(setting: Setting<W>, k: nat, rows: Seq<Seq<F>>, p: Seq<Seq<F>>, q: Seq<Seq<F>>)
    requires
        is_steady::<F, W, D>(),
        casts_once::<D, F>(),
        rows.len() > 0,
        setting.fits(rows.len() as int),
        are_iterations::<F, W, D>(setting, k, rows, p),
        are_iterations::<F, W, D>(setting, k, rows, q),
    ensures
        p == q,
    decreases k,
{
    if k > 0 {
        let (a, s) = iterations_before::<F, W, D>(setting, k, rows, p);
        let (b, t) = iterations_before::<F, W, D>(setting, k, rows, q);
        law_iterations_unique::<F, W, D>(setting, (k - 1) as nat, rows, a, b);
        lemma_step_unique(k as usize, s, t);
        law_iterations_local::<F, W, D>(setting, (k - 1) as nat, rows, a, 0);
        law_descent_unique(setting, s, setting.edges.len(), a, p, q);
    }
}

/// Where `k` iterations were made, none of them was refused.
proof fn lemma_no_refusal<
    F: Real + CastTo<W> + CastTo<D>,
    W: Real + CastTo<F> + CastTo<D>,
    D: Real + CastTo<F>,
>(
    setting: Setting<W>,
    k: nat,
    rows: Seq<Seq<F>>,
    after: Seq<Seq<F>>,
    m: nat,
    mid: Seq<Seq<F>>,
    step: D,
    last: Seq<Seq<F>>,
    error: EntropyError,
)
    requires
        is_steady::<F, W, D>(),
        casts_once::<D, F>(),
        rows.len() > 0,
        setting.fits(rows.len() as int),
        m < k <= NB_ITERATIONS,
        are_iterations::<F, W, D>(setting, k, rows, after),
        are_iterations::<F, W, D>(setting, m, rows, mid),
        is_grad_step((m + 1) as usize, step),
    ensures
        !is_iteration(setting, step, mid, last, Err(error)),
    decreases k,
{
    let (a, s) = iterations_before::<F, W, D>(setting, k, rows, after);
    if m == k - 1 {
        law_iterations_unique::<F, W, D>(setting, m, rows, a, mid);
        lemma_step_unique(k as usize, s, step);
        law_iterations_local::<F, W, D>(setting, m, rows, mid, 0);
        if is_iteration(setting, step, mid, last, Err(error)) {
            law_iteration_unique(setting, step, mid, after, Ok(()), last, Err(error));
        }
    } else {
        lemma_no_refusal::<F, W, D>(
            setting,
            (k - 1) as nat,
            rows,
            a,
            m,
            mid,
            step,
            last,
            error,
        );
    }
}

/// The iteration that is refused: how many were made before it, the points and the step, and where it
/// stopped.
proof fn stop_of<F: Real + CastTo<D>, W: Real + CastTo<D>, D: Real + CastTo<F>>(
    setting: Setting<W>,
    rows: Seq<Seq<F>>,
    error: EntropyError,
) -> (r: (nat, Seq<Seq<F>>, D, Seq<Seq<F>>))
    requires
        is_stopped::<F, W, D>(setting, rows, error),
    ensures
        r.0 < NB_ITERATIONS,
        are_iterations::<F, W, D>(setting, r.0, rows, r.1),
        is_grad_step((r.0 + 1) as usize, r.2),
        is_iteration(setting, r.2, r.1, r.3, Err(error)),
{
    choose|k: nat, mid: Seq<Seq<F>>, step: D, after: Seq<Seq<F>>|
        #![trigger are_iterations::<F, W, D>(setting, k, rows, mid), is_iteration(setting, step, mid, after, Err(error))]
        k < NB_ITERATIONS && are_iterations::<F, W, D>(setting, k, rows, mid) && is_grad_step(
            (k + 1) as usize,
            step,
        ) && is_iteration(setting, step, mid, after, Err(error))
}

/// The iterations are stopped for one reason.
proof fn lemma_stop_unique<
    F: Real + CastTo<W> + CastTo<D>,
    W: Real + CastTo<F> + CastTo<D>,
    D: Real + CastTo<F>,
>(setting: Setting<W>, rows: Seq<Seq<F>>, e: EntropyError, f: EntropyError)
    requires
        is_stopped::<F, W, D>(setting, rows, e),
        is_stopped::<F, W, D>(setting, rows, f),
    ensures
        e == f,
{
    let (k, mid, step, after) = stop_of::<F, W, D>(setting, rows, e);
    let (m, nid, stop, last) = stop_of::<F, W, D>(setting, rows, f);
    assert(is_iteration(setting, step, mid, after, Err(e)));
    assert(is_iteration(setting, stop, nid, last, Err(f)));
}

/// The two outcomes of an optimization are the same.
pub open spec fn same_optimized<F, D>(
    a: Result<Optimized<F, D>, EntropyError>,
    b: Result<Optimized<F, D>, EntropyError>,
) -> bool {
    match (a, b) {
        (Ok(p), Ok(q)) => {
            &&& p.initial_ce == q.initial_ce
            &&& p.final_ce == q.final_ce
            &&& p.embedding@ == q.embedding@
            &&& p.embedding.width() == q.embedding.width()
        },
        (Err(e), Err(f)) => e == f,
        _ => false,
    }
}

/// At which stage the optimization stops: at the first cross entropy, in the iterations, at the second
/// cross entropy, or not at all.
spec fn stops_at<
    F: Real + CastTo<W> + CastTo<D>,
    W: Real + CastTo<F> + CastTo<D>,
    D: Real + CastTo<F>,
>(
    setting: Setting<W>,
    rows: Seq<Seq<F>>,
    res: Result<Optimized<F, D>, EntropyError>,
    stage: int,
    after: Seq<Seq<F>>,
) -> bool {
    match res {
        Ok(done) => {
            &&& stage == 3
            &&& after == done.embedding@
            &&& is_entropy_outcome(setting, rows, Ok(done.initial_ce))
            &&& are_iterations::<F, W, D>(setting, NB_ITERATIONS as nat, rows, after)
            &&& is_entropy_outcome(setting, after, Ok(done.final_ce))
            &&& done.embedding.width() == rows[0].len()
        },
        Err(error) => if stage == 0 {
            is_entropy_outcome::<F, W, D>(setting, rows, Err(error))
        } else {
            &&& exists|ce: D| is_entropy(setting, rows, setting.edges.len(), ce)
            &&& if stage == 1 {
                is_stopped::<F, W, D>(setting, rows, error)
            } else {
                &&& stage == 2
                &&& are_iterations::<F, W, D>(setting, NB_ITERATIONS as nat, rows, after)
                &&& is_entropy_outcome::<F, W, D>(setting, after, Err(error))
            }
        },
    }
}

proof fn stage_of<
    F: Real + CastTo<W> + CastTo<D>,
    W: Real + CastTo<F> + CastTo<D>,
    D: Real + CastTo<F>,
>(
    setting: Setting<W>,
    rows: Seq<Seq<F>>,
    res: Result<Optimized<F, D>, EntropyError>,
) -> (r: (int, Seq<Seq<F>>))
    requires
        is_optimization(setting, rows, res),
    ensures
        stops_at(setting, rows, res, r.0, r.1),
{
    match res {
        Ok(done) => (3, done.embedding@),
        Err(error) => if is_entropy_outcome::<F, W, D>(setting, rows, Err(error)) {
            (0, rows)
        } else if is_stopped::<F, W, D>(setting, rows, error) {
            (1, rows)
        } else {
            let after = choose|after: Seq<Seq<F>>|
                #![trigger are_iterations::<F, W, D>(setting, NB_ITERATIONS as nat, rows, after)]
                are_iterations::<F, W, D>(setting, NB_ITERATIONS as nat, rows, after)
                    && is_entropy_outcome::<F, W, D>(setting, after, Err(error));
            (2, after)
        },
    }
}

/// An optimization that goes further than the first cross entropy has one.
proof fn lemma_initial_entropy<
    F: Real + CastTo<W> + CastTo<D>,
    W: Real + CastTo<F> + CastTo<D>,
    D: Real + CastTo<F>,
>(
    setting: Setting<W>,
    rows: Seq<Seq<F>>,
    res: Result<Optimized<F, D>, EntropyError>,
    stage: int,
    after: Seq<Seq<F>>,
) -> (ce: D)
    requires
        stops_at(setting, rows, res, stage, after),
        stage > 0,
    ensures
        is_entropy(setting, rows, setting.edges.len(), ce),
{
    match res {
        Ok(done) => done.initial_ce,
        Err(_) => choose|ce: D| is_entropy(setting, rows, setting.edges.len(), ce),
    }
}

/// Two outcomes of which the first stops earlier are not both possible.
proof fn lemma_same_stage<
    F: Real + CastTo<W> + CastTo<D>,
    W: Real + CastTo<F> + CastTo<D>,
    D: Real + CastTo<F>,
>(
    setting: Setting<W>,
    rows: Seq<Seq<F>>,
    a: Result<Optimized<F, D>, EntropyError>,
    s: int,
    p: Seq<Seq<F>>,
    b: Result<Optimized<F, D>, EntropyError>,
    t: int,
    q: Seq<Seq<F>>,
)
    requires
        is_steady::<F, W, D>(),
        casts_once::<D, F>(),
        rows.len() > 0,
        setting.fits(rows.len() as int),
        stops_at(setting, rows, a, s, p),
        stops_at(setting, rows, b, t, q),
    ensures
        s >= t,
{
    if s < t {
        let e = a->Err_0;
        let ce = lemma_initial_entropy(setting, rows, b, t, q);
        if s == 0 {
            lemma_not_both::<F, W, D>(setting, rows, ce, e);
        } else if s == 1 {
            let (k, mid, step, after) = stop_of::<F, W, D>(setting, rows, e);
            lemma_no_refusal::<F, W, D>(
                setting,
                NB_ITERATIONS as nat,
                rows,
                q,
                k,
                mid,
                step,
                after,
                e,
            );
        } else {
            law_iterations_unique::<F, W, D>(setting, NB_ITERATIONS as nat, rows, p, q);
            lemma_not_both::<F, W, D>(setting, p, b->Ok_0.final_ce, e);
        }
    }
}

/// The optimization has one outcome.
pub proof fn law_optimization_unique<
    F: Real + CastTo<W> + CastTo<D>,
    W: Real + CastTo<F> + CastTo<D>,
    D: Real + CastTo<F>,
>(
    setting: Setting<W>,
    rows: Seq<Seq<F>>,
    a: Result<Optimized<F, D>, EntropyError>,
    b: Result<Optimized<F, D>, EntropyError>,
)
    requires
        is_steady::<F, W, D>(),
        casts_once::<D, F>(),
        rows.len() > 0,
        setting.fits(rows.len() as int),
        is_optimization(setting, rows, a),
        is_optimization(setting, rows, b),
    ensures
        same_optimized(a, b),
{
    let (s, p) = stage_of(setting, rows, a);
    let (t, q) = stage_of(setting, rows, b);
    lemma_same_stage(setting, rows, a, s, p, b, t, q);
    lemma_same_stage(setting, rows, b, t, q, a, s, p);
    if s >= 2 {
        law_iterations_unique::<F, W, D>(setting, NB_ITERATIONS as nat, rows, p, q);
    }
    match (a, b) {
        (Ok(x), Ok(y)) => {
            law_entropy_outcome_unique::<F, W, D>(
                setting,
                rows,
                Ok(x.initial_ce),
                Ok(y.initial_ce),
            );
            law_entropy_outcome_unique::<F, W, D>(setting, p, Ok(x.final_ce), Ok(y.final_ce));
        },
        (Err(e), Err(f)) => {
            if s == 0 {
                law_entropy_outcome_unique::<F, W, D>(setting, rows, Err(e), Err(f));
            } else if s == 1 {
                lemma_stop_unique::<F, W, D>(setting, rows, e, f);
            } else {
                law_entropy_outcome_unique::<F, W, D>(setting, p, Err(e), Err(f));
            }
        },
        _ => {},
    }
}

} // verus!
