//! The laplacian is unique.
use vstd::prelude::*;

use crate::graph::{in_range, no_loop, NodeIdx, OutEdge};
use crate::laplacian::{
    are_graph_terms, are_normalized, are_row_sums, are_term_sums, diagonal_terms, graph_edges,
    is_full_laplacian, is_full_normalized, is_full_term, is_lane_pair, is_laplacian, is_mirrored,
    is_row_sum, is_sparse_laplacian, is_sparse_term, is_symmetrized, is_transition_matrix, is_transition_row,
    lane, law_sparse_laplacian_in_range, row_values, LaplacianGraph, MatRepr,
};
use crate::number::{
    is_deterministic, is_midpoint, is_repeatable, is_sum, is_total, is_zero, sums_to, Real,
};
use crate::sparse::{
    is_sum_in_some_order, lemma_place_has_term, lemma_short_sums_equal, lemma_single_sum,
    place_values, CsrMatrix,
};
use crate::symmetry::{lemma_one_diagonal_term, law_sparse_terms_mirrored};
use crate::unique::{law_sum_unique, law_total_unique};

verus! {

proof fn lemma_transitions_unique<W: Real>(
    lists: Seq<Seq<OutEdge<W>>>,
    p: Seq<Seq<W>>,
    q: Seq<Seq<W>>,
)
    requires
        is_deterministic::<W>(),
        is_transition_matrix(lists, p),
        is_transition_matrix(lists, q),
    ensures
        p == q,
{
    let y = choose|zero: W|
        is_zero(zero) && forall|i: int|
            0 <= i < p.len() ==> is_transition_row(lists[i], zero, #[trigger] p[i]);
    let z = choose|zero: W|
        is_zero(zero) && forall|i: int|
            0 <= i < q.len() ==> is_transition_row(lists[i], zero, #[trigger] q[i]);
    assert(y == z);
    assert forall|i: int| 0 <= i < p.len() implies p[i] == q[i] by {
        assert(is_transition_row(lists[i], y, p[i]) && is_transition_row(lists[i], y, q[i]));
        assert(p[i].len() == q[i].len());
        assert forall|j: int| 0 <= j < p[i].len() implies p[i][j] == q[i][j] by {}
        assert(p[i] =~= q[i]);
    }
    assert(p =~= q);
}

proof fn lemma_symmetrized_unique<W: Real>(p: Seq<Seq<W>>, g: Seq<Seq<W>>, h: Seq<Seq<W>>)
    requires
        is_deterministic::<W>(),
        is_symmetrized(p, g),
        is_symmetrized(p, h),
    ensures
        g == h,
{
    assert forall|i: int| 0 <= i < g.len() implies g[i] == h[i] by {
        assert(g[i].len() == h[i].len());
        assert forall|j: int| 0 <= j < g[i].len() implies g[i][j] == h[i][j] by {
            assert(is_midpoint(p[i][j], p[j][i], g[i][j]));
            assert(is_midpoint(p[i][j], p[j][i], h[i][j]));
        }
        assert(g[i] =~= h[i]);
    }
    assert(g =~= h);
}

/// The sum of a row is unique.
pub proof fn law_row_sum_unique<W: Real>(row: Seq<W>, r: W, s: W)
    requires
        is_deterministic::<W>(),
        is_row_sum(row, r),
        is_row_sum(row, s),
    ensures
        r == s,
{
    let rest = row.skip(8 * (row.len() / 8) as int);
    let (y, p) = choose|zero: W, pairs: Seq<W>|
        #![trigger sums_to(zero, pairs + rest, r)]
        is_zero(zero) && pairs.len() == 4 && (forall|k: int|
            0 <= k < 4 ==> is_lane_pair(row, k, #[trigger] pairs[k])) && sums_to(
            zero,
            pairs + rest,
            r,
        );
    let (z, q) = choose|zero: W, pairs: Seq<W>|
        #![trigger sums_to(zero, pairs + rest, s)]
        is_zero(zero) && pairs.len() == 4 && (forall|k: int|
            0 <= k < 4 ==> is_lane_pair(row, k, #[trigger] pairs[k])) && sums_to(
            zero,
            pairs + rest,
            s,
        );
    assert forall|k: int| 0 <= k < 4 implies p[k] == q[k] by {
        assert(is_lane_pair(row, k, p[k]) && is_lane_pair(row, k, q[k]));
        let (a, b) = choose|a: W, b: W|
            is_total(lane(row, k), a) && is_total(lane(row, k + 4), b) && is_sum(a, b, p[k]);
        let (c, d) = choose|c: W, d: W|
            is_total(lane(row, k), c) && is_total(lane(row, k + 4), d) && is_sum(c, d, q[k]);
        law_total_unique(lane(row, k), a, c);
        law_total_unique(lane(row, k + 4), b, d);
    }
    assert(p =~= q);
    assert(y == z);
    law_sum_unique(y, p + rest, r, s);
}

/// The full laplacian and the degrees are unique.
pub proof fn law_full_laplacian_unique<W: Real>(
    lists: Seq<Seq<OutEdge<W>>>,
    d: Seq<W>,
    l: Seq<Seq<W>>,
    e: Seq<W>,
    m: Seq<Seq<W>>,
)
    requires
        is_deterministic::<W>(),
        is_full_laplacian(lists, d, l),
        is_full_laplacian(lists, e, m),
    ensures
        d == e,
        l == m,
{
    let (p, g) = choose|p: Seq<Seq<W>>, g: Seq<Seq<W>>|
        #![trigger is_symmetrized(p, g)]
        is_transition_matrix(lists, p) && is_symmetrized(p, g) && are_row_sums(g, d)
            && is_full_normalized(g, d, l);
    let (q, h) = choose|q: Seq<Seq<W>>, h: Seq<Seq<W>>|
        #![trigger is_symmetrized(q, h)]
        is_transition_matrix(lists, q) && is_symmetrized(q, h) && are_row_sums(h, e)
            && is_full_normalized(h, e, m);
    lemma_transitions_unique(lists, p, q);
    lemma_symmetrized_unique(p, g, h);
    assert forall|i: int| 0 <= i < d.len() implies d[i] == e[i] by {
        assert(is_row_sum(g[i], d[i]) && is_row_sum(g[i], e[i]));
        law_row_sum_unique(g[i], d[i], e[i]);
    }
    assert(d =~= e);
    assert forall|i: int| 0 <= i < l.len() implies l[i] == m[i] by {
        assert(l[i].len() == m[i].len());
        assert forall|j: int| 0 <= j < l[i].len() implies l[i][j] == m[i][j] by {
            assert(is_full_term(d[i], d[j], g[i][j], i == j, l[i][j]));
            assert(is_full_term(d[i], d[j], g[i][j], i == j, m[i][j]));
        }
        assert(l[i] =~= m[i]);
    }
    assert(l =~= m);
}

proof fn lemma_graph_terms_unique<W: Real>(
    lists: Seq<Seq<OutEdge<W>>>,
    g: Seq<(usize, usize, W)>,
    h: Seq<(usize, usize, W)>,
)
    requires
        is_deterministic::<W>(),
        are_graph_terms(lists, graph_edges(lists), g),
        are_graph_terms(lists, graph_edges(lists), h),
    ensures
        g == h,
{
    let edges = graph_edges(lists);
    assert forall|t: int| 0 <= t < g.len() implies g[t] == h[t] by {
        let k = t / 2;
        assert(is_mirrored(lists, edges[k], g[2 * k], g[2 * k + 1]));
        assert(is_mirrored(lists, edges[k], h[2 * k], h[2 * k + 1]));
        assert(g[2 * k].2 == h[2 * k].2);
    }
    assert(g =~= h);
}

/// The terms of the sparse laplacian and the degrees are unique.
pub proof fn law_sparse_laplacian_unique<W: Real>(
    lists: Seq<Seq<OutEdge<W>>>,
    d: Seq<W>,
    l: Seq<(usize, usize, W)>,
    e: Seq<W>,
    m: Seq<(usize, usize, W)>,
)
    requires
        is_deterministic::<W>(),
        is_sparse_laplacian(lists, d, l),
        is_sparse_laplacian(lists, e, m),
    ensures
        d == e,
        l == m,
{
    let edges = graph_edges(lists);
    let (g, y) = choose|g: Seq<(usize, usize, W)>, zero: W|
        #![trigger are_normalized(g + diagonal_terms(lists.len(), zero), d, l)]
        are_graph_terms(lists, edges, g) && are_term_sums(g, d) && is_zero(zero) && are_normalized(
            g + diagonal_terms(lists.len(), zero),
            d,
            l,
        );
    let (h, z) = choose|h: Seq<(usize, usize, W)>, zero: W|
        #![trigger are_normalized(h + diagonal_terms(lists.len(), zero), e, m)]
        are_graph_terms(lists, edges, h) && are_term_sums(h, e) && is_zero(zero) && are_normalized(
            h + diagonal_terms(lists.len(), zero),
            e,
            m,
        );
    lemma_graph_terms_unique(lists, g, h);
    assert(y == z);
    assert forall|i: int| 0 <= i < d.len() implies d[i] == e[i] by {
        assert(is_total(row_values(g, i), d[i]) && is_total(row_values(g, i), e[i]));
        law_total_unique(row_values(g, i), d[i], e[i]);
    }
    assert(d =~= e);
    let full = g + diagonal_terms(lists.len(), y);
    assert forall|t: int| 0 <= t < full.len() implies l[t] == m[t] by {
        let (i, j) = (full[t].0 as int, full[t].1 as int);
        assert(l[t].0 == m[t].0 && l[t].1 == m[t].1);
        assert(is_sparse_term(d[i], d[j], full[t].2, i == j, l[t].2));
        assert(is_sparse_term(d[i], d[j], full[t].2, i == j, m[t].2));
    }
    assert(l =~= m);
}

/// The numbers grow from one to the next.
pub open spec fn increasing(a: Seq<usize>) -> bool {
    forall|s: int, t: int| 0 <= s < t < a.len() ==> a[s] < a[t]
}

/// Increasing numbers are determined by which numbers they are.
proof fn lemma_increasing_unique(a: Seq<usize>, b: Seq<usize>)
    requires
        increasing(a),
        increasing(b),
        forall|x: usize| a.contains(x) == b.contains(x),
    ensures
        a == b,
    decreases a.len(),
{
    if a.len() == 0 {
        if b.len() > 0 {
            assert(b.contains(b[0]));
        }
        assert(a =~= b);
    } else {
        assert(a.contains(a[0]));
        assert(b.len() > 0);
        assert(a.contains(a.last()) && b.contains(b.last()));
        assert(b.contains(a.last()) && a.contains(b.last()));
        assert(a.last() == b.last());
        let (c, d) = (a.drop_last(), b.drop_last());
        assert forall|x: usize| c.contains(x) == d.contains(x) by {
            if c.contains(x) {
                let k = choose|k: int| 0 <= k < c.len() && c[k] == x;
                assert(a[k] == x);
                assert(a.contains(x));
                let m = choose|m: int| 0 <= m < b.len() && b[m] == x;
                assert(m != b.len() - 1);
                assert(d[m] == x);
            }
            if d.contains(x) {
                let k = choose|k: int| 0 <= k < d.len() && d[k] == x;
                assert(b[k] == x);
                assert(b.contains(x));
                let m = choose|m: int| 0 <= m < a.len() && a[m] == x;
                assert(m != a.len() - 1);
                assert(c[m] == x);
            }
        }
        lemma_increasing_unique(c, d);
        assert(a =~= c.push(a.last()));
        assert(b =~= d.push(b.last()));
    }
}

/// The columns in which the row `i` has a coefficient.
pub open spec fn columns<W>(csr: CsrMatrix<W>, i: int) -> Seq<usize> {
    csr.indices@.subrange(csr.indptr@[i] as int, csr.indptr@[i + 1] as int)
}

/// The columns of a row are those in which there is a term.
pub proof fn lemma_columns<W: Real>(csr: CsrMatrix<W>, terms: Seq<(usize, usize, W)>, i: int)
    requires
        csr.is_made_of(terms),
        0 <= i < csr.nbnodes,
    ensures
        columns(csr, i).len() == csr.indptr@[i + 1] - csr.indptr@[i],
        increasing(columns(csr, i)),
        forall|x: usize|
            #[trigger] columns(csr, i).contains(x) == (place_values(terms, i, x as int).len() > 0),
{
    let cols = columns(csr, i);
    let from = csr.indptr@[i] as int;
    assert(csr.indptr@[i] <= csr.indptr@[i + 1] <= csr.indptr@[csr.nbnodes as int]);
    assert forall|s: int, t: int| 0 <= s < t < cols.len() implies cols[s] < cols[t] by {
        assert(csr.in_row(i, from + s) && csr.in_row(i, from + t));
    }
    assert forall|x: usize| #[trigger] cols.contains(x) == (place_values(terms, i, x as int).len()
        > 0) by {
        if cols.contains(x) {
            let s = choose|s: int| 0 <= s < cols.len() && cols[s] == x;
            assert(csr.in_row(i, from + s));
            lemma_sum_of_some(place_values(terms, i, x as int), csr.data@[from + s]);
        }
        if place_values(terms, i, x as int).len() > 0 {
            let t = lemma_place_has_term(terms, i, x as int);
            let s = choose|s: int| csr.in_row(terms[t].0 as int, s) && csr.indices@[s] == terms[t].1;
            assert(csr.in_row(i, s));
            assert(cols[s - from] == x);
        }
    }
}

/// There is a sum only of some values.
proof fn lemma_sum_of_some<W: Real>(values: Seq<W>, v: W)
    requires
        is_sum_in_some_order(values, v),
    ensures
        values.len() > 0,
{
    broadcast use vstd::seq_lib::group_to_multiset_ensures;

    let order = choose|order: Seq<W>|
        #![trigger order.to_multiset()]
        order.len() > 0 && order.to_multiset() == values.to_multiset() && sums_to(
            order.first(),
            order.drop_first(),
            v,
        );
    assert(order.to_multiset().len() == values.to_multiset().len());
}

/// The rows begin at the same indices.
proof fn lemma_indptr_unique<W: Real>(
    a: CsrMatrix<W>,
    b: CsrMatrix<W>,
    terms: Seq<(usize, usize, W)>,
    i: int,
)
    requires
        a.is_made_of(terms),
        b.is_made_of(terms),
        a.nbnodes == b.nbnodes,
        0 <= i <= a.nbnodes,
    ensures
        a.indptr@[i] == b.indptr@[i],
        i > 0 ==> columns(a, i - 1) == columns(b, i - 1),
    decreases i,
{
    if i > 0 {
        lemma_indptr_unique(a, b, terms, i - 1);
        lemma_columns(a, terms, i - 1);
        lemma_columns(b, terms, i - 1);
        let (c, d) = (columns(a, i - 1), columns(b, i - 1));
        assert forall|x: usize| c.contains(x) == d.contains(x) by {}
        lemma_increasing_unique(c, d);
    }
}

/// Every coefficient lies in one of the rows.
proof fn lemma_row_of<W: Real>(csr: CsrMatrix<W>, s: int, n: int) -> (i: int)
    requires
        csr.wf(),
        0 <= n <= csr.nbnodes,
        0 <= s < csr.indptr@[n],
    ensures
        0 <= i < n,
        csr.in_row(i, s),
    decreases n,
{
    if csr.indptr@[n - 1] <= s {
        n - 1
    } else {
        lemma_row_of(csr, s, n - 1)
    }
}

/// The two matrices are the same.
pub open spec fn same_csr<W>(a: CsrMatrix<W>, b: CsrMatrix<W>) -> bool {
    &&& a.nbnodes == b.nbnodes
    &&& a.indptr@ == b.indptr@
    &&& a.indices@ == b.indices@
    &&& a.data@ == b.data@
}

/// At each place the terms have one sum, whatever the order.
pub open spec fn has_unique_sums<W: Real>(terms: Seq<(usize, usize, W)>) -> bool {
    forall|i: int, j: int, v: W, w: W|
        #![trigger is_sum_in_some_order(place_values(terms, i, j), v), is_sum_in_some_order(place_values(terms, i, j), w)]
        is_sum_in_some_order(place_values(terms, i, j), v) && is_sum_in_some_order(
            place_values(terms, i, j),
            w,
        ) ==> v == w
}

/// The compressed matrix is unique.
pub proof fn law_csr_unique<W: Real>(
    terms: Seq<(usize, usize, W)>,
    a: CsrMatrix<W>,
    b: CsrMatrix<W>,
)
    requires
        a.nbnodes == b.nbnodes,
        a.is_made_of(terms),
        b.is_made_of(terms),
        has_unique_sums(terms),
    ensures
        same_csr(a, b),
{
    let n = a.nbnodes as int;
    assert forall|i: int| 0 <= i <= n implies a.indptr@[i] == b.indptr@[i] by {
        lemma_indptr_unique(a, b, terms, i);
    }
    assert(a.indptr@ =~= b.indptr@);
    assert(a.indptr@.last() == a.indptr@[n] && b.indptr@.last() == b.indptr@[n]);
    assert forall|s: int|
        #![trigger a.indices@[s]]
        #![trigger a.data@[s]]
        0 <= s < a.data@.len() implies a.indices@[s] == b.indices@[s] && a.data@[s]
        == b.data@[s] by {
        let i = lemma_row_of(a, s, n);
        lemma_indptr_unique(a, b, terms, i + 1);
        let k = s - a.indptr@[i];
        lemma_columns(a, terms, i);
        lemma_columns(b, terms, i);
        assert(columns(a, i)[k] == a.indices@[s]);
        assert(columns(b, i)[k] == b.indices@[s]);
        assert(a.in_row(i, s) && b.in_row(i, s));
        let j = a.indices@[s] as int;
        assert(is_sum_in_some_order(place_values(terms, i, j), a.data@[s]));
        assert(is_sum_in_some_order(place_values(terms, i, j), b.data@[s]));
    }
    assert(a.indices@ =~= b.indices@);
    assert(a.data@ =~= b.data@);
}

/// In the sparse laplacian the terms at each place have one sum, as there are at most two.
pub proof fn law_sparse_sums_unique<W: Real>(
    lists: Seq<Seq<OutEdge<W>>>,
    degrees: Seq<W>,
    terms: Seq<(usize, usize, W)>,
)
    requires
        is_repeatable::<W>(),
        lists.len() <= NodeIdx::MAX,
        in_range(lists, lists.len() as int),
        no_loop(lists),
        is_sparse_laplacian(lists, degrees, terms),
    ensures
        has_unique_sums(terms),
{
    assert forall|i: int, j: int, v: W, w: W|
        #![trigger is_sum_in_some_order(place_values(terms, i, j), v), is_sum_in_some_order(place_values(terms, i, j), w)]
        is_sum_in_some_order(place_values(terms, i, j), v) && is_sum_in_some_order(
            place_values(terms, i, j),
            w,
        ) implies v == w by {
        if i != j {
            law_sparse_terms_mirrored(lists, degrees, terms, i, j);
            lemma_short_sums_equal(place_values(terms, i, j), v, w);
        } else {
            lemma_sum_of_some(place_values(terms, i, j), v);
            let t = lemma_place_has_term(terms, i, i);
            law_sparse_laplacian_in_range(lists, degrees, terms, t);
            let x = lemma_one_diagonal_term(lists, degrees, terms, i);
            lemma_single_sum(x, v);
            lemma_single_sum(x, w);
        }
    }
}

/// The two matrices are the same.
pub open spec fn same_matrix<W>(a: MatRepr<W>, b: MatRepr<W>) -> bool {
    match (a, b) {
        (MatRepr::Full(m), MatRepr::Full(n)) => m@ == n@ && m.width() == n.width(),
        (MatRepr::Sparse(m), MatRepr::Sparse(n)) => same_csr(m, n),
        _ => false,
    }
}

/// The laplacian of a graph is unique, as are the degrees.
pub proof fn law_laplacian_unique<W: Real>(
    lists: Seq<Seq<OutEdge<W>>>,
    a: LaplacianGraph<W>,
    b: LaplacianGraph<W>,
)
    requires
        is_repeatable::<W>(),
        lists.len() <= NodeIdx::MAX,
        in_range(lists, lists.len() as int),
        no_loop(lists),
        is_laplacian(lists, a),
        is_laplacian(lists, b),
    ensures
        same_matrix(a.sym_laplacian, b.sym_laplacian),
        a.degrees@ == b.degrees@,
{
    match (a.sym_laplacian, b.sym_laplacian) {
        (MatRepr::Full(m), MatRepr::Full(n)) => {
            law_full_laplacian_unique(lists, a.degrees@, m@, b.degrees@, n@);
        },
        (MatRepr::Sparse(m), MatRepr::Sparse(n)) => {
            let p = choose|terms: Seq<(usize, usize, W)>|
                #![trigger m.is_made_of(terms)]
                is_sparse_laplacian(lists, a.degrees@, terms) && m.is_made_of(terms);
            let q = choose|terms: Seq<(usize, usize, W)>|
                #![trigger n.is_made_of(terms)]
                is_sparse_laplacian(lists, b.degrees@, terms) && n.is_made_of(terms);
            law_sparse_laplacian_unique(lists, a.degrees@, p, b.degrees@, q);
            law_sparse_sums_unique(lists, a.degrees@, p);
            law_csr_unique(p, m, n);
        },
        _ => {},
    }
}

} // verus!
