//! The laplacian in exact arithmetic: the square roots of the degrees are in its kernel.
use vstd::prelude::*;

use crate::exact::search::law_midpoint_exact;
use crate::exact::{
    is_exact, law_ordered_sum_exact, law_total_exact, lemma_sums_to_exact, value_sum,
};
use crate::graph::{in_range, law_all_edges_complete, no_loop, KGraph, NodeIdx, OutEdge};
use crate::laplacian::{
    are_graph_terms, are_normalized, are_row_sums, are_term_sums, diagonal_terms, edge_lists,
    graph_edges, is_full_laplacian, is_full_normalized, is_full_term, is_lane_pair, is_laplacian,
    is_mirrored, is_row_sum, is_sparse_laplacian, is_sparse_term, is_symmetrized,
    is_transition_matrix, is_transition_row, lane, last_edges, last_weight, law_last_edges,
    leads_to, lemma_graph_edge, row_values, LaplacianGraph, MatRepr,
};
use crate::number::{
    are_casts, is_below, is_count, is_diff, is_exp, is_midpoint, is_neg, is_one, is_prod, is_quot,
    is_sqrt, is_sum, is_total, is_zero, sums_to, CastTo, Real,
};
use crate::scale::{
    are_affinities, are_params_of, is_affinity, is_nearest_mean, is_normalized, is_param,
    is_param_of, is_proba, is_raw_proba, is_uniform, law_params_keep_edges, weights, NodeParam,
};
use crate::sparse::{place_values, CsrMatrix};
use crate::unique::laplacian::{columns, increasing, lemma_columns};

verus! {

/// The sum of eight lanes of `m` numbers is that of the first `8 * m` numbers of the row.
proof fn lemma_lanes<W>(v: spec_fn(W) -> real, row: Seq<W>, m: nat)
    requires
        8 * m <= row.len(),
    ensures
        value_sum(v, row.take(8 * m as int)) == lanes_sum(v, row, m),
    decreases m,
{
    if m > 0 {
        let n = (m - 1) as nat;
        lemma_lanes(v, row, n);
        assert forall|k: int| 0 <= k < 8 implies value_sum(v, #[trigger] lane_part(row, k, m))
            == value_sum(v, lane_part(row, k, n)) + v(row[8 * n + k]) by {
            assert(lane_part(row, k, m).drop_last() =~= lane_part(row, k, n));
        }
        assert forall|j: int| 1 <= j <= 8 implies value_sum(v, #[trigger] row.take(8 * n + j))
            == value_sum(v, row.take(8 * n + j - 1)) + v(row[8 * n + j - 1]) by {
            assert(row.take(8 * n + j).drop_last() =~= row.take(8 * n + j - 1));
        }
        let base = 8 * n as int;
        assert(value_sum(v, row.take(base + 1)) == value_sum(v, row.take(base)) + v(row[base]));
        assert(value_sum(v, row.take(base + 2)) == value_sum(v, row.take(base + 1)) + v(row[base + 1]));
        assert(value_sum(v, row.take(base + 3)) == value_sum(v, row.take(base + 2)) + v(row[base + 2]));
        assert(value_sum(v, row.take(base + 4)) == value_sum(v, row.take(base + 3)) + v(row[base + 3]));
        assert(value_sum(v, row.take(base + 5)) == value_sum(v, row.take(base + 4)) + v(row[base + 4]));
        assert(value_sum(v, row.take(base + 6)) == value_sum(v, row.take(base + 5)) + v(row[base + 5]));
        assert(value_sum(v, row.take(base + 7)) == value_sum(v, row.take(base + 6)) + v(row[base + 6]));
        assert(value_sum(v, row.take(base + 8)) == value_sum(v, row.take(base + 7)) + v(row[base + 7]));
        assert(8 * m as int == base + 8);
    } else {
        assert(row.take(0) =~= Seq::empty());
    }
}

/// The first `m` numbers of the lane `k`.
spec fn lane_part<W>(row: Seq<W>, k: int, m: nat) -> Seq<W> {
    Seq::new(m, |q: int| row[8 * q + k])
}

spec fn lanes_sum<W>(v: spec_fn(W) -> real, row: Seq<W>, m: nat) -> real {
    value_sum(v, lane_part(row, 0, m)) + value_sum(v, lane_part(row, 1, m)) + value_sum(
        v,
        lane_part(row, 2, m),
    ) + value_sum(v, lane_part(row, 3, m)) + value_sum(v, lane_part(row, 4, m)) + value_sum(
        v,
        lane_part(row, 5, m),
    ) + value_sum(v, lane_part(row, 6, m)) + value_sum(v, lane_part(row, 7, m))
}

/// The sum of a row has the value of the sum of its numbers.
pub proof fn law_row_sum_exact<W: Real>(v: spec_fn(W) -> real, row: Seq<W>, r: W)
    requires
        is_exact(v),
        is_row_sum(row, r),
    ensures
        v(r) == value_sum(v, row),
{
    let m = (row.len() / 8) as nat;
    let rest = row.skip(8 * (row.len() / 8) as int);
    let (zero, pairs) = choose|zero: W, pairs: Seq<W>|
        #![trigger sums_to(zero, pairs + rest, r)]
        is_zero(zero) && pairs.len() == 4 && (forall|k: int|
            0 <= k < 4 ==> is_lane_pair(row, k, #[trigger] pairs[k])) && sums_to(
            zero,
            pairs + rest,
            r,
        );
    lemma_sums_to_exact(v, zero, pairs + rest, r);
    lemma_sum_append(v, pairs, rest);
    assert forall|k: int| 0 <= k < 4 implies v(#[trigger] pairs[k]) == value_sum(
        v,
        lane_part(row, k, m),
    ) + value_sum(v, lane_part(row, k + 4, m)) by {
        assert(is_lane_pair(row, k, pairs[k]));
        let (a, b) = choose|a: W, b: W|
            is_total(lane(row, k), a) && is_total(lane(row, k + 4), b) && is_sum(a, b, pairs[k]);
        law_total_exact(v, lane(row, k), a);
        law_total_exact(v, lane(row, k + 4), b);
        assert(lane(row, k) =~= lane_part(row, k, m));
        assert(lane(row, k + 4) =~= lane_part(row, k + 4, m));
    }
    assert(pairs =~= seq![pairs[0], pairs[1], pairs[2], pairs[3]]);
    lemma_sum_of_four(v, pairs);
    lemma_lanes(v, row, m);
    lemma_sum_append(v, row.take(8 * m as int), rest);
    assert(row.take(8 * m as int) + rest =~= row);
}

proof fn lemma_sum_of_four<W>(v: spec_fn(W) -> real, s: Seq<W>)
    requires
        s.len() == 4,
    ensures
        value_sum(v, s) == v(s[0]) + v(s[1]) + v(s[2]) + v(s[3]),
{
    assert(s.drop_last().drop_last().drop_last().drop_last() =~= Seq::empty());
    reveal_with_fuel(value_sum, 5);
}

/// The sum of two lists, one after the other.
proof fn lemma_sum_append<W>(v: spec_fn(W) -> real, a: Seq<W>, b: Seq<W>)
    ensures
        value_sum(v, a + b) == value_sum(v, a) + value_sum(v, b),
    decreases b.len(),
{
    if b.len() == 0 {
        assert(a + b =~= a);
    } else {
        assert((a + b).drop_last() =~= a + b.drop_last());
        lemma_sum_append(v, a, b.drop_last());
    }
}

/// The scalar product of the first `n` coordinates.
pub open spec fn dot<T>(v: spec_fn(T) -> real, a: Seq<T>, b: Seq<T>, n: nat) -> real
    decreases n,
{
    if n == 0 {
        0 as real
    } else {
        dot(v, a, b, (n - 1) as nat) + v(a[n - 1]) * v(b[n - 1])
    }
}

/// `roots` are the square roots of the degrees.
pub open spec fn are_roots<W: Real>(degrees: Seq<W>, roots: Seq<W>) -> bool {
    &&& roots.len() == degrees.len()
    &&& forall|j: int| 0 <= j < roots.len() ==> is_sqrt(degrees[j], #[trigger] roots[j])
}

/// All values are positive.
pub open spec fn all_positive<T>(v: spec_fn(T) -> real, s: Seq<T>) -> bool {
    forall|j: int| 0 <= j < s.len() ==> v(#[trigger] s[j]) > 0 as real
}

/// The square root of a product is the product of the square roots.
pub proof fn lemma_root_of_product(a: real, b: real, x: real, y: real, r: real)
    requires
        x >= 0 as real,
        y >= 0 as real,
        r >= 0 as real,
        x * x == a,
        y * y == b,
        r * r == a * b,
    ensures
        r == x * y,
{
    let z = x * y;
    assert(z >= 0 as real) by (nonlinear_arith)
        requires
            x >= 0 as real,
            y >= 0 as real,
            z == x * y,
    ;
    assert(z * z == (x * x) * (y * y)) by (nonlinear_arith)
        requires
            z == x * y,
    ;
    assert(r == z) by (nonlinear_arith)
        requires
            r >= 0 as real,
            z >= 0 as real,
            r * r == z * z,
    ;
}

/// The root of the product of two degrees has the value of the product of their roots.
proof fn lemma_roots<W: Real>(v: spec_fn(W) -> real, di: W, dj: W, si: W, sj: W, p: W, r: W)
    requires
        is_exact(v),
        v(di) > 0 as real,
        v(dj) > 0 as real,
        is_sqrt(di, si),
        is_sqrt(dj, sj),
        is_prod(di, dj, p),
        is_sqrt(p, r),
    ensures
        v(r) == v(si) * v(sj),
        v(si) > 0 as real,
        v(sj) > 0 as real,
        v(r) > 0 as real,
{
    let (a, b) = (v(di), v(dj));
    assert(a * b > 0 as real) by (nonlinear_arith)
        requires
            a > 0 as real,
            b > 0 as real,
    ;
    lemma_root_of_product(a, b, v(si), v(sj), v(r));
    let (x, y) = (v(si), v(sj));
    assert(x > 0 as real) by (nonlinear_arith)
        requires
            x * x > 0 as real,
            x >= 0 as real,
    ;
    assert(y > 0 as real) by (nonlinear_arith)
        requires
            y * y > 0 as real,
            y >= 0 as real,
    ;
    assert(x * y > 0 as real) by (nonlinear_arith)
        requires
            x > 0 as real,
            y > 0 as real,
    ;
}

/// A coefficient `-g / (x * y)`, times the root `y` and times the root `x`.
proof fn lemma_scaled_term(g: real, x: real, y: real, q: real)
    requires
        x > 0 as real,
        y > 0 as real,
        q * (x * y) == -g,
    ensures
        x * (q * y) == -g,
{
    assert(x * (q * y) == q * (x * y)) by (nonlinear_arith);
}

proof fn lemma_full_dot<W: Real>(
    v: spec_fn(W) -> real,
    g: Seq<Seq<W>>,
    degrees: Seq<W>,
    roots: Seq<W>,
    l: Seq<Seq<W>>,
    i: int,
    n: nat,
)
    requires
        is_exact(v),
        is_full_normalized(g, degrees, l),
        rectangular_square(g),
        degrees.len() == g.len(),
        are_roots(degrees, roots),
        all_positive(v, degrees),
        0 <= i < g.len(),
        n <= g.len(),
    ensures
        v(roots[i]) * dot(v, l[i], roots, n) == -value_sum(v, g[i].take(n as int)) + (if i < n {
            v(roots[i]) * v(roots[i])
        } else {
            0 as real
        }),
    decreases n,
{
    let s = v(roots[i]);
    if n > 0 {
        let j = n - 1;
        lemma_full_dot(v, g, degrees, roots, l, i, j as nat);
        assert(g[i].len() == g.len());
        assert(g[i].take(n as int).drop_last() =~= g[i].take(j));
        assert(g[i].take(n as int).last() == g[i][j]);
        assert(is_full_term(degrees[i], degrees[j], g[i][j], i == j, l[i][j]));
        let (p, r, m, q) = choose|p: W, r: W, m: W, q: W|
            is_prod(degrees[i], degrees[j], p) && is_sqrt(p, r) && is_neg(r, m) && is_quot(
                g[i][j],
                m,
                q,
            ) && (if i == j {
                exists|one: W| is_one(one) && is_sum(q, one, l[i][j])
            } else {
                l[i][j] == q
            });
        lemma_roots(v, degrees[i], degrees[j], roots[i], roots[j], p, r);
        let y = v(roots[j]);
        let (qv, rv, gv) = (v(q), v(r), v(g[i][j]));
        assert(qv * rv == -gv) by (nonlinear_arith)
            requires
                qv * (-rv) == gv,
        ;
        lemma_scaled_term(gv, s, y, qv);
        let before = dot(v, l[i], roots, j as nat);
        let lv = v(l[i][j]);
        assert(s * (before + lv * y) == s * before + s * (lv * y)) by (nonlinear_arith);
        if i == j {
            assert(s * (lv * y) == s * (qv * y) + s * y) by (nonlinear_arith)
                requires
                    lv == qv + 1 as real,
            ;
        }
    } else {
        assert(g[i].take(0) =~= Seq::empty());
        assert(s * (0 as real) == 0 as real) by (nonlinear_arith);
    }
}

/// Every row is as long as there are rows.
spec fn rectangular_square<W>(g: Seq<Seq<W>>) -> bool {
    forall|i: int| 0 <= i < g.len() ==> (#[trigger] g[i]).len() == g.len()
}

/// A product is 0 only where a factor is.
proof fn lemma_cancel(s: real, x: real)
    requires
        s > 0 as real,
        s * x == 0 as real,
    ensures
        x == 0 as real,
{
    assert(x == 0 as real) by (nonlinear_arith)
        requires
            s > 0 as real,
            s * x == 0 as real,
    ;
}

/// The square roots of the degrees are in the kernel of the full laplacian.
pub proof fn law_full_laplacian_kernel<W: Real>(
    v: spec_fn(W) -> real,
    lists: Seq<Seq<OutEdge<W>>>,
    degrees: Seq<W>,
    l: Seq<Seq<W>>,
    roots: Seq<W>,
    i: int,
)
    requires
        is_exact(v),
        is_full_laplacian(lists, degrees, l),
        are_roots(degrees, roots),
        all_positive(v, degrees),
        0 <= i < lists.len(),
    ensures
        dot(v, l[i], roots, lists.len()) == 0 as real,
{
    let (p, g) = choose|p: Seq<Seq<W>>, g: Seq<Seq<W>>|
        #![trigger is_symmetrized(p, g)]
        is_transition_matrix(lists, p) && is_symmetrized(p, g) && are_row_sums(g, degrees)
            && is_full_normalized(g, degrees, l);
    let n = lists.len();
    lemma_full_dot(v, g, degrees, roots, l, i, n);
    assert(g[i].len() == n);
    assert(g[i].take(n as int) =~= g[i]);
    assert(is_row_sum(g[i], degrees[i]));
    law_row_sum_exact(v, g[i], degrees[i]);
    assert(is_sqrt(degrees[i], roots[i]));
    let (s, d) = (v(roots[i]), v(degrees[i]));
    assert(d > 0 as real);
    assert(s > 0 as real) by (nonlinear_arith)
        requires
            s * s == d,
            s >= 0 as real,
            d > 0 as real,
    ;
    lemma_cancel(s, dot(v, l[i], roots, n));
}

/// The scalar product of the row `i` of a sparse matrix, given by its terms, with a vector.
pub open spec fn term_dot<W>(
    v: spec_fn(W) -> real,
    terms: Seq<(usize, usize, W)>,
    roots: Seq<W>,
    i: int,
) -> real
    decreases terms.len(),
{
    if terms.len() == 0 {
        0 as real
    } else {
        term_dot(v, terms.drop_last(), roots, i) + (if terms.last().0 == i {
            v(terms.last().2) * v(roots[terms.last().1 as int])
        } else {
            0 as real
        })
    }
}

/// An edge of a graph without loops connects different nodes.
proof fn lemma_no_loop_edge<W>(lists: Seq<Seq<OutEdge<W>>>, k: int)
    requires
        lists.len() <= NodeIdx::MAX,
        in_range(lists, lists.len() as int),
        no_loop(lists),
        0 <= k < graph_edges(lists).len(),
    ensures
        graph_edges(lists)[k].0 != graph_edges(lists)[k].1.node,
        graph_edges(lists)[k].0 < lists.len(),
        graph_edges(lists)[k].1.node < lists.len(),
{
    lemma_graph_edge(lists, k);
    let (a, e) = graph_edges(lists)[k];
    let m = choose|m: int| 0 <= m < lists[a as int].len() && lists[a as int][m] == e;
    assert(lists[a as int][m].node != a);
}

/// The terms of the graph stand inside the matrix, off the diagonal.
proof fn lemma_graph_term<W: Real>(
    lists: Seq<Seq<OutEdge<W>>>,
    g: Seq<(usize, usize, W)>,
    t: int,
)
    requires
        lists.len() <= NodeIdx::MAX,
        in_range(lists, lists.len() as int),
        no_loop(lists),
        are_graph_terms(lists, graph_edges(lists), g),
        0 <= t < g.len(),
    ensures
        g[t].0 != g[t].1,
        g[t].0 < lists.len(),
        g[t].1 < lists.len(),
{
    let k = t / 2;
    lemma_no_loop_edge(lists, k);
    assert(is_mirrored(lists, graph_edges(lists)[k], g[2 * k], g[2 * k + 1]));
}

proof fn lemma_sparse_dot<W: Real>(
    v: spec_fn(W) -> real,
    lists: Seq<Seq<OutEdge<W>>>,
    g: Seq<(usize, usize, W)>,
    zero: W,
    degrees: Seq<W>,
    roots: Seq<W>,
    l: Seq<(usize, usize, W)>,
    i: int,
    n: nat,
)
    requires
        is_exact(v),
        lists.len() <= NodeIdx::MAX,
        in_range(lists, lists.len() as int),
        no_loop(lists),
        is_zero(zero),
        are_graph_terms(lists, graph_edges(lists), g),
        are_normalized(g + diagonal_terms(lists.len(), zero), degrees, l),
        degrees.len() == lists.len(),
        are_roots(degrees, roots),
        all_positive(v, degrees),
        0 <= i < lists.len(),
        n <= g.len() + lists.len(),
    ensures
        v(roots[i]) * term_dot(v, l.take(n as int), roots, i) == -value_sum(
            v,
            row_values(g.take(if n <= g.len() {
                n as int
            } else {
                g.len() as int
            }), i),
        ) + (if i < n - g.len() {
            v(roots[i]) * v(roots[i])
        } else {
            0 as real
        }),
    decreases n,
{
    let s = v(roots[i]);
    let full = g + diagonal_terms(lists.len(), zero);
    if n > 0 {
        let t = n - 1;
        lemma_sparse_dot(v, lists, g, zero, degrees, roots, l, i, t as nat);
        let before = term_dot(v, l.take(t), roots, i);
        assert(l.take(n as int).drop_last() =~= l.take(t));
        assert(l.take(n as int).last() == l[t]);
        assert(l[t].0 == full[t].0 && l[t].1 == full[t].1);
        if t < g.len() {
            lemma_graph_term(lists, g, t);
            assert(full[t] == g[t]);
            assert(g.take(n as int).drop_last() =~= g.take(t));
            assert(g.take(n as int).last() == g[t]);
        } else {
            assert(full[t] == ((t - g.len()) as usize, (t - g.len()) as usize, zero));
            assert(g.take(g.len() as int) =~= g);
        }
        if l[t].0 == i {
            let j = full[t].1 as int;
            let y = v(roots[j]);
            let lv = v(l[t].2);
            assert(is_sparse_term(degrees[i], degrees[j], full[t].2, i == j, l[t].2));
            let (p, r) = choose|p: W, r: W|
                is_prod(degrees[i], degrees[j], p) && is_sqrt(p, r) && (if i == j {
                    exists|q: W, one: W|
                        is_quot(full[t].2, r, q) && is_one(one) && is_diff(one, q, l[t].2)
                } else {
                    exists|m: W| is_neg(full[t].2, m) && is_quot(m, r, l[t].2)
                });
            lemma_roots(v, degrees[i], degrees[j], roots[i], roots[j], p, r);
            assert(s * (before + lv * y) == s * before + s * (lv * y)) by (nonlinear_arith);
            if t < g.len() {
                lemma_scaled_term(v(g[t].2), s, y, lv);
                let rows = row_values(g.take(t), i);
                assert(row_values(g.take(n as int), i) == rows.push(g[t].2));
                assert(rows.push(g[t].2).drop_last() =~= rows);
            } else {
                let (q, one) = choose|q: W, one: W|
                    is_quot(zero, r, q) && is_one(one) && is_diff(one, q, l[t].2);
                let (qv, rv) = (v(q), v(r));
                assert(qv == 0 as real) by (nonlinear_arith)
                    requires
                        qv * rv == 0 as real,
                        rv > 0 as real,
                ;
                assert(lv == 1 as real);
                assert(s * (lv * y) == s * y) by (nonlinear_arith)
                    requires
                        lv == 1 as real,
                ;
            }
        }
    } else {
        assert(l.take(0) =~= Seq::empty());
        assert(g.take(0) =~= Seq::empty());
        assert(s * (0 as real) == 0 as real) by (nonlinear_arith);
    }
}

/// The square roots of the degrees are in the kernel of the matrix with the terms of the sparse
/// laplacian.
pub proof fn law_sparse_laplacian_kernel<W: Real>(
    v: spec_fn(W) -> real,
    lists: Seq<Seq<OutEdge<W>>>,
    degrees: Seq<W>,
    l: Seq<(usize, usize, W)>,
    roots: Seq<W>,
    i: int,
)
    requires
        is_exact(v),
        lists.len() <= NodeIdx::MAX,
        in_range(lists, lists.len() as int),
        no_loop(lists),
        is_sparse_laplacian(lists, degrees, l),
        are_roots(degrees, roots),
        all_positive(v, degrees),
        0 <= i < lists.len(),
    ensures
        term_dot(v, l, roots, i) == 0 as real,
{
    let (g, zero) = choose|g: Seq<(usize, usize, W)>, zero: W|
        #![trigger are_normalized(g + diagonal_terms(lists.len(), zero), degrees, l)]
        are_graph_terms(lists, graph_edges(lists), g) && are_term_sums(g, degrees) && is_zero(zero)
            && are_normalized(g + diagonal_terms(lists.len(), zero), degrees, l);
    let n = g.len() + lists.len();
    lemma_sparse_dot(v, lists, g, zero, degrees, roots, l, i, n);
    assert(l.len() == n);
    assert(l.take(n as int) =~= l);
    assert(g.take(g.len() as int) =~= g);
    assert(is_total(row_values(g, i), degrees[i]));
    law_total_exact(v, row_values(g, i), degrees[i]);
    assert(is_sqrt(degrees[i], roots[i]));
    let (s, d) = (v(roots[i]), v(degrees[i]));
    assert(d > 0 as real);
    assert(s > 0 as real) by (nonlinear_arith)
        requires
            s * s == d,
            s >= 0 as real,
            d > 0 as real,
    ;
    lemma_cancel(s, term_dot(v, l, roots, i));
}

/// The scalar product of the first `n` coefficients of the row `i` with a vector.
pub open spec fn csr_dot<W>(
    v: spec_fn(W) -> real,
    csr: CsrMatrix<W>,
    roots: Seq<W>,
    i: int,
    n: nat,
) -> real
    decreases n,
{
    if n == 0 {
        0 as real
    } else {
        let s = csr.indptr@[i] + n - 1;
        csr_dot(v, csr, roots, i, (n - 1) as nat) + v(csr.data@[s]) * v(
            roots[csr.indices@[s] as int],
        )
    }
}

/// The same sum, with the terms of each coefficient added up.
spec fn place_dot<W>(
    v: spec_fn(W) -> real,
    terms: Seq<(usize, usize, W)>,
    roots: Seq<W>,
    i: int,
    cols: Seq<usize>,
    n: nat,
) -> real
    decreases n,
{
    if n == 0 {
        0 as real
    } else {
        place_dot(v, terms, roots, i, cols, (n - 1) as nat) + value_sum(
            v,
            place_values(terms, i, cols[n - 1] as int),
        ) * v(roots[cols[n - 1] as int])
    }
}

/// Without terms there is nothing to add.
proof fn lemma_place_dot_empty<W>(
    v: spec_fn(W) -> real,
    roots: Seq<W>,
    i: int,
    cols: Seq<usize>,
    n: nat,
)
    ensures
        place_dot(v, Seq::empty(), roots, i, cols, n) == 0 as real,
    decreases n,
{
    if n > 0 {
        lemma_place_dot_empty(v, roots, i, cols, (n - 1) as nat);
        let x = v(roots[cols[n - 1] as int]);
        assert((0 as real) * x == 0 as real) by (nonlinear_arith);
    }
}

/// The last term counts at the place where it stands, and nowhere else.
proof fn lemma_place_dot_push<W>(
    v: spec_fn(W) -> real,
    terms: Seq<(usize, usize, W)>,
    roots: Seq<W>,
    i: int,
    cols: Seq<usize>,
    n: nat,
    s: int,
)
    requires
        terms.len() > 0,
        increasing(cols),
        n <= cols.len(),
        terms.last().0 == i ==> 0 <= s < cols.len() && cols[s] == terms.last().1,
    ensures
        place_dot(v, terms, roots, i, cols, n) == place_dot(
            v,
            terms.drop_last(),
            roots,
            i,
            cols,
            n,
        ) + (if terms.last().0 == i && s < n {
            v(terms.last().2) * v(roots[terms.last().1 as int])
        } else {
            0 as real
        }),
    decreases n,
{
    if n > 0 {
        let k = n - 1;
        lemma_place_dot_push(v, terms, roots, i, cols, k as nat, s);
        let old_values = place_values(terms.drop_last(), i, cols[k] as int);
        let x = terms.last().2;
        if terms.last().0 == i && s == k {
            assert(old_values.push(x).drop_last() =~= old_values);
            let (a, b, c) = (value_sum(v, old_values), v(x), v(roots[cols[k] as int]));
            assert((a + b) * c == a * c + b * c) by (nonlinear_arith);
        } else {
            assert(terms.last().0 == i ==> cols[s] != cols[k]);
        }
    }
}

proof fn lemma_place_dot<W>(
    v: spec_fn(W) -> real,
    terms: Seq<(usize, usize, W)>,
    roots: Seq<W>,
    i: int,
    cols: Seq<usize>,
)
    requires
        increasing(cols),
        forall|t: int|
            0 <= t < terms.len() && (#[trigger] terms[t]).0 == i ==> cols.contains(terms[t].1),
    ensures
        place_dot(v, terms, roots, i, cols, cols.len()) == term_dot(v, terms, roots, i),
    decreases terms.len(),
{
    if terms.len() == 0 {
        assert(terms =~= Seq::empty());
        lemma_place_dot_empty(v, roots, i, cols, cols.len());
    } else {
        let last = terms[terms.len() - 1];
        let s = if last.0 == i {
            choose|s: int| 0 <= s < cols.len() && cols[s] == last.1
        } else {
            0
        };
        assert(last.0 == i ==> cols.contains(last.1));
        lemma_place_dot_push(v, terms, roots, i, cols, cols.len(), s);
        assert forall|t: int|
            0 <= t < terms.drop_last().len() && (
            #[trigger] terms.drop_last()[t]).0 == i implies cols.contains(terms.drop_last()[t].1) by {
            assert(terms[t].0 == i);
        }
        lemma_place_dot(v, terms.drop_last(), roots, i, cols);
    }
}

proof fn lemma_csr_dot<W: Real>(
    v: spec_fn(W) -> real,
    csr: CsrMatrix<W>,
    terms: Seq<(usize, usize, W)>,
    roots: Seq<W>,
    i: int,
    n: nat,
)
    requires
        is_exact(v),
        csr.is_made_of(terms),
        0 <= i < csr.nbnodes,
        n <= columns(csr, i).len(),
    ensures
        csr_dot(v, csr, roots, i, n) == place_dot(v, terms, roots, i, columns(csr, i), n),
    decreases n,
{
    if n > 0 {
        lemma_csr_dot(v, csr, terms, roots, i, (n - 1) as nat);
        lemma_columns(csr, terms, i);
        let s = csr.indptr@[i] + n - 1;
        assert(csr.in_row(i, s));
        assert(columns(csr, i)[n - 1] == csr.indices@[s]);
        law_ordered_sum_exact(
            v,
            place_values(terms, i, csr.indices@[s] as int),
            csr.data@[s],
        );
    }
}

/// The row `i` of a compressed matrix, multiplied with a vector, gives what its terms give.
pub proof fn law_csr_dot<W: Real>(
    v: spec_fn(W) -> real,
    csr: CsrMatrix<W>,
    terms: Seq<(usize, usize, W)>,
    roots: Seq<W>,
    i: int,
)
    requires
        is_exact(v),
        csr.is_made_of(terms),
        0 <= i < csr.nbnodes,
    ensures
        csr_dot(v, csr, roots, i, (csr.indptr@[i + 1] - csr.indptr@[i]) as nat) == term_dot(
            v,
            terms,
            roots,
            i,
        ),
{
    let cols = columns(csr, i);
    lemma_columns(csr, terms, i);
    lemma_csr_dot(v, csr, terms, roots, i, cols.len());
    assert forall|t: int|
        0 <= t < terms.len() && (#[trigger] terms[t]).0 == i implies cols.contains(terms[t].1) by {
        let s = choose|s: int| csr.in_row(terms[t].0 as int, s) && csr.indices@[s] == terms[t].1;
        assert(csr.in_row(i, s));
        assert(cols[s - csr.indptr@[i]] == terms[t].1);
    }
    lemma_place_dot(v, terms, roots, i, cols);
}

/// The scalar product of the row `i` of the matrix with a vector.
pub open spec fn matrix_dot<W>(
    v: spec_fn(W) -> real,
    m: MatRepr<W>,
    roots: Seq<W>,
    i: int,
) -> real {
    match m {
        MatRepr::Full(full) => dot(v, full@[i], roots, full.width()),
        MatRepr::Sparse(csr) => csr_dot(
            v,
            csr,
            roots,
            i,
            (csr.indptr@[i + 1] - csr.indptr@[i]) as nat,
        ),
    }
}

/// A sum of values that are not negative is not, and is positive where one of them is.
pub proof fn lemma_sum_positive<T>(v: spec_fn(T) -> real, s: Seq<T>, k: int)
    requires
        forall|j: int| 0 <= j < s.len() ==> v(#[trigger] s[j]) >= 0 as real,
    ensures
        value_sum(v, s) >= 0 as real,
        0 <= k < s.len() && v(s[k]) > 0 as real ==> value_sum(v, s) > 0 as real,
    decreases s.len(),
{
    if s.len() > 0 {
        let front = s.drop_last();
        assert forall|j: int| 0 <= j < front.len() implies v(#[trigger] front[j]) >= 0 as real by {
            assert(front[j] == s[j]);
        }
        lemma_sum_positive(v, front, k);
        assert(v(s[s.len() - 1]) >= 0 as real);
        assert(0 <= k < front.len() ==> front[k] == s[k]);
    }
}

/// All edges of the graph have positive weights, and every node has an edge.
pub open spec fn has_positive_weights<W>(
    v: spec_fn(W) -> real,
    lists: Seq<Seq<OutEdge<W>>>,
) -> bool {
    &&& forall|i: int| 0 <= i < lists.len() ==> (#[trigger] lists[i]).len() > 0
    &&& forall|i: int, k: int|
        0 <= i < lists.len() && 0 <= k < lists[i].len() ==> v((#[trigger] lists[i][k]).weight)
            > 0 as real
}

/// The weight of the last edge to a node is the weight of an edge to it.
proof fn lemma_last_weight<W>(edges: Seq<OutEdge<W>>, node: NodeIdx)
    ensures
        leads_to(edges, node) ==> last_weight(edges, node) is Some,
        last_weight(edges, node) matches Some(w) ==> exists|k: int|
            0 <= k < edges.len() && (#[trigger] edges[k]).weight == w && edges[k].node == node,
    decreases edges.len(),
{
    if edges.len() > 0 {
        let front = edges.drop_last();
        lemma_last_weight(front, node);
        if edges.last().node == node {
            assert(edges[edges.len() - 1].weight == edges.last().weight);
        } else {
            if leads_to(edges, node) {
                let k = choose|k: int| 0 <= k < edges.len() && (#[trigger] edges[k]).node == node;
                assert(front[k].node == node);
            }
            if let Some(w) = last_weight(front, node) {
                let k = choose|k: int|
                    0 <= k < front.len() && (#[trigger] front[k]).weight == w && front[k].node
                        == node;
                assert(edges[k].weight == w);
            }
        }
    }
}

/// The degrees of a full laplacian are positive.
proof fn lemma_full_degree<W: Real>(
    v: spec_fn(W) -> real,
    lists: Seq<Seq<OutEdge<W>>>,
    degrees: Seq<W>,
    l: Seq<Seq<W>>,
    i: int,
)
    requires
        is_exact(v),
        lists.len() <= NodeIdx::MAX,
        in_range(lists, lists.len() as int),
        has_positive_weights(v, lists),
        is_full_laplacian(lists, degrees, l),
        0 <= i < lists.len(),
    ensures
        degrees.len() == lists.len(),
        v(degrees[i]) > 0 as real,
{
    let (p, g) = choose|p: Seq<Seq<W>>, g: Seq<Seq<W>>|
        #![trigger is_symmetrized(p, g)]
        is_transition_matrix(lists, p) && is_symmetrized(p, g) && are_row_sums(g, degrees)
            && is_full_normalized(g, degrees, l);
    let n = lists.len();
    let zero = choose|zero: W|
        is_zero(zero) && forall|a: int|
            0 <= a < p.len() ==> is_transition_row(lists[a], zero, #[trigger] p[a]);
    assert forall|a: int, b: int| 0 <= a < n && 0 <= b < n implies v(#[trigger] p[a][b])
        >= 0 as real && (leads_to(lists[a], b as NodeIdx) ==> v(p[a][b]) > 0 as real) by {
        assert(is_transition_row(lists[a], zero, p[a]));
        assert(p[a].len() == n);
        lemma_last_weight(lists[a], b as NodeIdx);
        if let Some(w) = last_weight(lists[a], b as NodeIdx) {
            let k = choose|k: int|
                0 <= k < lists[a].len() && (#[trigger] lists[a][k]).weight == w
                    && lists[a][k].node == b as NodeIdx;
            assert(v(lists[a][k].weight) > 0 as real);
        }
    }
    assert(lists[i].len() > 0);
    let j = lists[i][0].node as int;
    assert(j < n);
    assert(leads_to(lists[i], j as NodeIdx)) by {
        assert(lists[i][0].node == j as NodeIdx);
    }
    assert(g[i].len() == n);
    assert forall|b: int| 0 <= b < g[i].len() implies v(#[trigger] g[i][b]) >= 0 as real by {
        assert(is_midpoint(p[i][b], p[b][i], g[i][b]));
        law_midpoint_exact(v, p[i][b], p[b][i], g[i][b]);
        assert(v(p[i][b]) >= 0 as real && v(p[b][i]) >= 0 as real);
    }
    assert(is_midpoint(p[i][j], p[j][i], g[i][j]));
    law_midpoint_exact(v, p[i][j], p[j][i], g[i][j]);
    assert(v(p[i][j]) > 0 as real && v(p[j][i]) >= 0 as real);
    lemma_sum_positive(v, g[i], j);
    assert(is_row_sum(g[i], degrees[i]));
    law_row_sum_exact(v, g[i], degrees[i]);
}

/// The values in a row are those of terms in it.
proof fn lemma_row_values<W>(
    v: spec_fn(W) -> real,
    terms: Seq<(usize, usize, W)>,
    i: int,
    t: int,
)
    requires
        forall|a: int| 0 <= a < terms.len() ==> v((#[trigger] terms[a]).2) > 0 as real,
    ensures
        all_positive(v, row_values(terms, i)),
        0 <= t < terms.len() && terms[t].0 == i ==> row_values(terms, i).len() > 0,
    decreases terms.len(),
{
    if terms.len() > 0 {
        let front = terms.drop_last();
        assert forall|a: int| 0 <= a < front.len() implies v((#[trigger] front[a]).2)
            > 0 as real by {
            assert(front[a] == terms[a]);
        }
        lemma_row_values(v, front, i, t);
        assert(v(terms[terms.len() - 1].2) > 0 as real);
        assert(0 <= t < front.len() ==> front[t] == terms[t]);
    }
}

/// The degrees of a sparse laplacian are positive.
proof fn lemma_sparse_degree<W: Real>(
    v: spec_fn(W) -> real,
    lists: Seq<Seq<OutEdge<W>>>,
    degrees: Seq<W>,
    l: Seq<(usize, usize, W)>,
    i: int,
)
    requires
        is_exact(v),
        lists.len() <= NodeIdx::MAX,
        in_range(lists, lists.len() as int),
        has_positive_weights(v, lists),
        is_sparse_laplacian(lists, degrees, l),
        0 <= i < lists.len(),
    ensures
        v(degrees[i]) > 0 as real,
{
    let edges = graph_edges(lists);
    let (g, zero) = choose|g: Seq<(usize, usize, W)>, zero: W|
        #![trigger are_normalized(g + diagonal_terms(lists.len(), zero), degrees, l)]
        are_graph_terms(lists, edges, g) && are_term_sums(g, degrees) && is_zero(zero)
            && are_normalized(g + diagonal_terms(lists.len(), zero), degrees, l);
    assert forall|t: int| 0 <= t < g.len() implies v((#[trigger] g[t]).2) > 0 as real by {
        let k = t / 2;
        lemma_graph_edge(lists, k);
        assert(is_mirrored(lists, edges[k], g[2 * k], g[2 * k + 1]));
        let (a, e) = edges[k];
        let m = choose|m: int| 0 <= m < lists[a as int].len() && lists[a as int][m] == e;
        assert(v(lists[a as int][m].weight) > 0 as real);
        lemma_last_weight(lists[e.node as int], a);
        if let Some(w) = last_weight(lists[e.node as int], a) {
            let b = e.node as int;
            let q = choose|q: int|
                0 <= q < lists[b].len() && (#[trigger] lists[b][q]).weight == w
                    && lists[b][q].node == a;
            assert(v(lists[b][q].weight) > 0 as real);
            law_midpoint_exact(v, e.weight, w, g[2 * k].2);
        }
        assert(v(g[2 * k].2) > 0 as real);
        assert(g[2 * k + 1].2 == g[2 * k].2);
        assert(t == 2 * k || t == 2 * k + 1);
    }
    let kept = lists.map_values(|edges: Seq<OutEdge<W>>| last_edges(edges));
    assert(lists[i].len() > 0);
    assert(leads_to(lists[i], lists[i][0].node));
    law_last_edges(lists[i]);
    assert(leads_to(last_edges(lists[i]), lists[i][0].node));
    assert(kept[i] == last_edges(lists[i]) && kept[i].len() > 0);
    law_all_edges_complete(kept, i, 0);
    let k = choose|k: int| 0 <= k < edges.len() && edges[k] == (i as NodeIdx, kept[i][0]);
    assert(is_mirrored(lists, edges[k], g[2 * k], g[2 * k + 1]));
    lemma_row_values(v, g, i, 2 * k);
    let values = row_values(g, i);
    assert(v(values[0]) > 0 as real);
    lemma_sum_positive(v, values, 0);
    assert(is_total(values, degrees[i]));
    law_total_exact(v, values, degrees[i]);
}

/// The exponential function is positive.
pub open spec fn has_positive_exp<W: Real>(v: spec_fn(W) -> real) -> bool {
    forall|a: W, r: W| #[trigger] is_exp(a, r) ==> v(r) > 0 as real
}

/// A quotient of positive values is positive.
proof fn lemma_quotient_positive(q: real, d: real, x: real)
    requires
        q * d == x,
        d > 0 as real,
        x > 0 as real,
    ensures
        q > 0 as real,
{
    assert(q > 0 as real) by (nonlinear_arith)
        requires
            q * d == x,
            d > 0 as real,
            x > 0 as real,
    ;
}

/// The probabilities of the edges of a node are positive.
pub proof fn law_probabilities_positive<F: CastTo<W>, W: Real>(
    v: spec_fn(W) -> real,
    graph: &KGraph<F>,
    neighbours: Seq<OutEdge<F>>,
    param: NodeParam<W>,
)
    requires
        is_exact(v),
        has_positive_exp(v),
        neighbours.len() > 0,
        is_param_of(graph, neighbours, Ok(param)),
    ensures
        all_positive(v, weights(param.edges@)),
{
    let probas = weights(param.edges@);
    let (dist, mean) = choose|dist: Seq<W>, mean: W|
        #![trigger is_param(neighbours, dist, mean, Ok(param))]
        are_casts(weights(neighbours), dist) && is_nearest_mean(
            graph,
            neighbours,
            dist.first(),
            mean,
        ) && is_param(neighbours, dist, mean, Ok(param));
    assert(is_proba(dist, mean, probas));
    if is_below(dist.first(), dist.last(), true) && exists|raw: Seq<W>|
        #![trigger is_normalized(raw, probas)]
        is_raw_proba(dist, mean, raw, true) && is_normalized(raw, probas) {
        let raw = choose|raw: Seq<W>|
            #![trigger is_normalized(raw, probas)]
            is_raw_proba(dist, mean, raw, true) && is_normalized(raw, probas);
        lemma_raw_positive(v, dist, mean, raw);
        let sum = choose|sum: W|
            #![trigger is_total(raw, sum)]
            is_total(raw, sum) && forall|k: int|
                0 <= k < raw.len() ==> is_quot(raw[k], sum, #[trigger] probas[k]);
        law_total_exact(v, raw, sum);
        assert(dist.len() == neighbours.len());
        assert(v(raw[0]) > 0 as real);
        lemma_sum_positive(v, raw, 0);
        assert forall|k: int| 0 <= k < probas.len() implies v(#[trigger] probas[k]) > 0 as real by {
            assert(is_quot(raw[k], sum, probas[k]));
            lemma_quotient_positive(v(probas[k]), v(sum), v(raw[k]));
        }
    } else {
        assert(is_uniform(probas));
        let (one, n, p) = choose|one: W, n: W, p: W|
            is_one(one) && is_count(probas.len() as usize, n) && is_quot(one, n, p) && forall|
                k: int,
            |
                0 <= k < probas.len() ==> #[trigger] probas[k] == p;
        assert(probas.len() == param.edges.len());
        assert(param.edges@.len() == neighbours.len());
        assert(v(n) > 0 as real);
        lemma_quotient_positive(v(p), v(n), 1 as real);
    }
}

proof fn lemma_raw_positive<W: Real>(v: spec_fn(W) -> real, dist: Seq<W>, mean: W, raw: Seq<W>)
    requires
        has_positive_exp(v),
        is_raw_proba(dist, mean, raw, true),
    ensures
        raw.len() == dist.len(),
        all_positive(v, raw),
{
    let scale = choose|scale: W| are_affinities(dist, scale, raw);
    assert forall|k: int| 0 <= k < raw.len() implies v(#[trigger] raw[k]) > 0 as real by {
        assert(is_affinity(dist[k], scale, raw[k]));
    }
}

/// The edges of the parameters of a graph lead to nodes of the graph and have positive weights.
proof fn lemma_params_positive<F: CastTo<W>, W: Real>(
    v: spec_fn(W) -> real,
    graph: &KGraph<F>,
    params: Seq<NodeParam<W>>,
)
    requires
        is_exact(v),
        has_positive_exp(v),
        graph.wf(),
        are_params_of(graph, params),
    ensures
        has_positive_weights(v, edge_lists(params)),
        in_range(edge_lists(params), params.len() as int),
{
    let lists = edge_lists(params);
    assert forall|a: int, k: int| 0 <= a < lists.len() && 0 <= k < lists[a].len() implies (
    #[trigger] lists[a][k]).node < lists.len() && v(lists[a][k].weight) > 0 as real by {
        law_params_keep_edges(graph, params, a);
        assert(lists[a][k] == params[a].edges@[k]);
        assert(graph.neighbours@[a]@[k].node < lists.len());
        law_probabilities_positive(v, graph, graph.neighbours@[a]@, params[a]);
        assert(weights(params[a].edges@)[k] == lists[a][k].weight);
    }
    assert forall|a: int| 0 <= a < lists.len() implies (#[trigger] lists[a]).len() > 0 by {
        law_params_keep_edges(graph, params, a);
        assert(graph.neighbours@[a]@.len() > 0);
    }
}

/// The degrees of the laplacian of a graph are positive.
pub proof fn law_degrees_positive<F: CastTo<W>, W: Real>(
    v: spec_fn(W) -> real,
    graph: &KGraph<F>,
    params: Seq<NodeParam<W>>,
    laplacian: LaplacianGraph<W>,
)
    requires
        is_exact(v),
        has_positive_exp(v),
        graph.wf(),
        are_params_of(graph, params),
        is_laplacian(edge_lists(params), laplacian),
    ensures
        laplacian.degrees@.len() == graph.neighbours@.len(),
        all_positive(v, laplacian.degrees@),
{
    let lists = edge_lists(params);
    let degrees = laplacian.degrees@;
    lemma_params_positive(v, graph, params);
    match laplacian.sym_laplacian {
        MatRepr::Full(m) => {
            assert forall|j: int| 0 <= j < degrees.len() implies v(#[trigger] degrees[j]) > 0 as real by {
                lemma_full_degree(v, lists, degrees, m@, j);
            }
        },
        MatRepr::Sparse(csr) => {
            let terms = choose|terms: Seq<(usize, usize, W)>|
                #![trigger csr.is_made_of(terms)]
                is_sparse_laplacian(lists, degrees, terms) && csr.is_made_of(terms);
            assert forall|j: int| 0 <= j < degrees.len() implies v(#[trigger] degrees[j]) > 0 as real by {
                lemma_sparse_degree(v, lists, degrees, terms, j);
            }
        },
    }
}

/// The square roots of the degrees are in the kernel of the laplacian of a graph: every row of the
/// laplacian, multiplied with them, gives 0.
pub proof fn law_laplacian_kernel<F: CastTo<W>, W: Real>(
    v: spec_fn(W) -> real,
    graph: &KGraph<F>,
    params: Seq<NodeParam<W>>,
    laplacian: LaplacianGraph<W>,
    roots: Seq<W>,
    i: int,
)
    requires
        is_exact(v),
        has_positive_exp(v),
        graph.wf(),
        graph.loop_free(),
        are_params_of(graph, params),
        is_laplacian(edge_lists(params), laplacian),
        are_roots(laplacian.degrees@, roots),
        0 <= i < graph.neighbours@.len(),
    ensures
        matrix_dot(v, laplacian.sym_laplacian, roots, i) == 0 as real,
{
    let lists = edge_lists(params);
    let degrees = laplacian.degrees@;
    lemma_params_positive(v, graph, params);
    law_degrees_positive(v, graph, params, laplacian);
    assert forall|a: int, k: int| 0 <= a < lists.len() && 0 <= k < lists[a].len() implies (
    #[trigger] lists[a][k]).node != a by {
        law_params_keep_edges(graph, params, a);
        assert(lists[a][k] == params[a].edges@[k]);
        assert(graph.neighbours@[a]@[k].node != a);
    }
    match laplacian.sym_laplacian {
        MatRepr::Full(m) => {
            law_full_laplacian_kernel(v, lists, degrees, m@, roots, i);
        },
        MatRepr::Sparse(csr) => {
            let terms = choose|terms: Seq<(usize, usize, W)>|
                #![trigger csr.is_made_of(terms)]
                is_sparse_laplacian(lists, degrees, terms) && csr.is_made_of(terms);
            law_sparse_laplacian_kernel(v, lists, degrees, terms, roots, i);
            law_csr_dot(v, csr, terms, roots, i);
        },
    }
}

} // verus!
