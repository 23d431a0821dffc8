//! The laplacian is symmetric, and what it has on its diagonal.
use vstd::prelude::*;

use crate::graph::{all_edges, in_range, law_all_edges_sound, no_loop, NodeIdx, OutEdge};
use crate::laplacian::{
    are_graph_terms, are_normalized, are_row_sums, are_term_sums, diagonal_terms, graph_edges,
    is_full_laplacian, is_full_normalized, is_full_term, is_mirrored, is_sparse_laplacian, is_sparse_term,
    is_symmetrized, is_transition_matrix, last_edges, law_last_edges, lemma_graph_edge,
};
use crate::number::{is_midpoint, is_repeatable, is_zero, sums_to, Real};
use crate::sparse::{
    is_sum_in_some_order, lemma_place_has_term, lemma_short_sums_equal, lemma_single_sum, place_values,
    CsrMatrix,
};

verus! {

/// The full laplacian is a symmetric matrix.
pub proof fn law_full_laplacian_symmetric<W: Real>(
    lists: Seq<Seq<OutEdge<W>>>,
    degrees: Seq<W>,
    l: Seq<Seq<W>>,
    i: int,
    j: int,
)
    requires
        is_repeatable::<W>(),
        is_full_laplacian(lists, degrees, l),
        0 <= i < lists.len(),
        0 <= j < lists.len(),
    ensures
        l[i][j] == l[j][i],
{
    if i != j {
        let (p, g) = choose|p: Seq<Seq<W>>, g: Seq<Seq<W>>|
            #![trigger is_symmetrized(p, g)]
            is_transition_matrix(lists, p) && is_symmetrized(p, g) && are_row_sums(g, degrees)
                && is_full_normalized(g, degrees, l);
        assert(is_midpoint(p[i][j], p[j][i], g[i][j]));
        assert(is_midpoint(p[j][i], p[i][j], g[j][i]));
        assert(g[i][j] == g[j][i]);
        assert(is_full_term(degrees[i], degrees[j], g[i][j], false, l[i][j]));
        assert(is_full_term(degrees[j], degrees[i], g[j][i], false, l[j][i]));
    }
}

/// The sparse laplacian is symmetric: the terms that an edge contributes are equal, and each stands
/// at the other's place in the transposed matrix.
pub proof fn law_sparse_laplacian_symmetric<W: Real>(
    lists: Seq<Seq<OutEdge<W>>>,
    degrees: Seq<W>,
    l: Seq<(usize, usize, W)>,
    k: int,
)
    requires
        is_repeatable::<W>(),
        is_sparse_laplacian(lists, degrees, l),
        0 <= k < graph_edges(lists).len(),
    ensures
        l[2 * k].0 == l[2 * k + 1].1,
        l[2 * k].1 == l[2 * k + 1].0,
        l[2 * k].2 == l[2 * k + 1].2,
{
    let edges = graph_edges(lists);
    let (g, zero) = choose|g: Seq<(usize, usize, W)>, zero: W|
        #![trigger are_normalized(g + diagonal_terms(lists.len(), zero), degrees, l)]
        are_graph_terms(lists, edges, g) && are_term_sums(g, degrees) && is_zero(zero)
            && are_normalized(g + diagonal_terms(lists.len(), zero), degrees, l);
    let full = g + diagonal_terms(lists.len(), zero);
    let (a, b) = (2 * k, 2 * k + 1);
    assert(is_mirrored(lists, edges[k], g[a], g[b]));
    assert(full[a] == g[a] && full[b] == g[b]);
    assert(l[a].0 == full[a].0 && l[b].0 == full[b].0);
}

/// Where the lists lead to different nodes, no edge of the graph is listed twice.
proof fn lemma_all_edges_distinct<T>(lists: Seq<Seq<OutEdge<T>>>, a: int, b: int)
    requires
        lists.len() <= NodeIdx::MAX,
        forall|i: int, k: int, m: int|
            0 <= i < lists.len() && 0 <= k < m < lists[i].len() ==> (#[trigger] lists[i][k]).node
                != (#[trigger] lists[i][m]).node,
        0 <= a < b < all_edges(lists).len(),
    ensures
        all_edges(lists)[a].0 != all_edges(lists)[b].0 || all_edges(lists)[a].1.node != all_edges(
            lists,
        )[b].1.node,
    decreases lists.len(),
{
    let front = all_edges(lists.drop_last());
    if b < front.len() {
        assert forall|i: int, k: int, m: int|
            0 <= i < lists.drop_last().len() && 0 <= k < m < lists.drop_last()[i].len() implies (
        #[trigger] lists.drop_last()[i][k]).node != (#[trigger] lists.drop_last()[i][m]).node by {
            assert(lists[i][k].node != lists[i][m].node);
        }
        lemma_all_edges_distinct(lists.drop_last(), a, b);
    } else {
        let last = lists.len() - 1;
        assert(all_edges(lists)[b] == (last as NodeIdx, lists[last][b - front.len()]));
        if a < front.len() {
            law_all_edges_sound(lists.drop_last(), a);
            assert(all_edges(lists)[a] == front[a]);
        } else {
            assert(all_edges(lists)[a] == (last as NodeIdx, lists[last][a - front.len()]));
        }
    }
}

/// No edge of the graph is listed twice.
pub proof fn lemma_graph_edges_distinct<W>(lists: Seq<Seq<OutEdge<W>>>, a: int, b: int)
    requires
        lists.len() <= NodeIdx::MAX,
        0 <= a < b < graph_edges(lists).len(),
    ensures
        graph_edges(lists)[a].0 != graph_edges(lists)[b].0 || graph_edges(lists)[a].1.node
            != graph_edges(lists)[b].1.node,
{
    let kept = lists.map_values(|edges: Seq<OutEdge<W>>| last_edges(edges));
    assert forall|i: int, k: int, m: int|
        0 <= i < kept.len() && 0 <= k < m < kept[i].len() implies (#[trigger] kept[i][k]).node != (
    #[trigger] kept[i][m]).node by {
        law_last_edges(lists[i]);
        assert(kept[i] == last_edges(lists[i]));
    }
    lemma_all_edges_distinct(kept, a, b);
}

/// One of the first `n` edges of the graph leads from `i` to `j`.
spec fn has_edge<W>(lists: Seq<Seq<OutEdge<W>>>, n: int, i: int, j: int) -> bool {
    exists|k: int|
        0 <= k < n && (#[trigger] graph_edges(lists)[k]).0 == i && graph_edges(lists)[k].1.node == j
}

/// The terms that the first `n` edges contribute at two places that mirror one another are the same,
/// and at most two.
proof fn lemma_mirrored_places<W: Real>(
    lists: Seq<Seq<OutEdge<W>>>,
    degrees: Seq<W>,
    l: Seq<(usize, usize, W)>,
    n: int,
    i: int,
    j: int,
)
    requires
        is_repeatable::<W>(),
        lists.len() <= NodeIdx::MAX,
        in_range(lists, lists.len() as int),
        no_loop(lists),
        is_sparse_laplacian(lists, degrees, l),
        0 <= n <= graph_edges(lists).len(),
        2 * graph_edges(lists).len() <= l.len(),
        i != j,
    ensures
        place_values(l.take(2 * n), i, j) == place_values(l.take(2 * n), j, i),
        place_values(l.take(2 * n), i, j).len() <= (if has_edge(lists, n, i, j) {
            1int
        } else {
            0
        }) + (if has_edge(lists, n, j, i) {
            1int
        } else {
            0
        }),
    decreases n,
{
    if n > 0 {
        let k = n - 1;
        let edges = graph_edges(lists);
        let before = l.take(2 * k);
        let mid = l.take(2 * k + 1);
        let after = l.take(2 * k + 2);
        lemma_mirrored_places(lists, degrees, l, k, i, j);
        law_sparse_laplacian_symmetric(lists, degrees, l, k);
        lemma_sparse_place(lists, degrees, l, k);
        lemma_graph_edge(lists, k);
        assert(after.drop_last() =~= mid);
        assert(mid.drop_last() =~= before);
        assert(after.last() == l[2 * k + 1]);
        assert(mid.last() == l[2 * k]);
        let (a, e) = edges[k];
        assert(a != e.node) by {
            let m = choose|m: int| 0 <= m < lists[a as int].len() && lists[a as int][m] == e;
            assert(lists[a as int][m].node != a);
        }
        assert forall|x: int, y: int| #[trigger] has_edge(lists, k, x, y) implies has_edge(
            lists,
            n,
            x,
            y,
        ) by {
            let m = choose|m: int|
                0 <= m < k && (#[trigger] edges[m]).0 == x && edges[m].1.node == y;
            assert(edges[m].0 == x);
        }
        assert(has_edge(lists, n, a as int, e.node as int)) by {
            assert(edges[k].0 == a);
        }
        assert(!has_edge(lists, k, a as int, e.node as int)) by {
            if has_edge(lists, k, a as int, e.node as int) {
                let m = choose|m: int|
                    0 <= m < k && (#[trigger] edges[m]).0 == a && edges[m].1.node == e.node;
                lemma_graph_edges_distinct(lists, m, k);
            }
        }
        reveal_with_fuel(place_values, 3);
    } else {
        assert(l.take(0) =~= Seq::empty());
    }
}

/// The terms of the edge `k` stand at its ends.
proof fn lemma_sparse_place<W: Real>(
    lists: Seq<Seq<OutEdge<W>>>,
    degrees: Seq<W>,
    l: Seq<(usize, usize, W)>,
    k: int,
)
    requires
        is_sparse_laplacian(lists, degrees, l),
        0 <= k < graph_edges(lists).len(),
    ensures
        l[2 * k].0 == graph_edges(lists)[k].0,
        l[2 * k].1 == graph_edges(lists)[k].1.node,
        l[2 * k + 1].0 == graph_edges(lists)[k].1.node,
        l[2 * k + 1].1 == graph_edges(lists)[k].0,
{
    let edges = graph_edges(lists);
    let (g, zero) = choose|g: Seq<(usize, usize, W)>, zero: W|
        #![trigger are_normalized(g + diagonal_terms(lists.len(), zero), degrees, l)]
        are_graph_terms(lists, edges, g) && are_term_sums(g, degrees) && is_zero(zero)
            && are_normalized(g + diagonal_terms(lists.len(), zero), degrees, l);
    let full = g + diagonal_terms(lists.len(), zero);
    assert(is_mirrored(lists, edges[k], g[2 * k], g[2 * k + 1]));
    assert(full[2 * k] == g[2 * k] && full[2 * k + 1] == g[2 * k + 1]);
    assert(l[2 * k].0 == full[2 * k].0 && l[2 * k + 1].0 == full[2 * k + 1].0);
}

/// The coefficients of the sparse laplacian at two places that mirror one another have the same terms, in
/// the same order, and at most two.
pub proof fn law_sparse_terms_mirrored<W: Real>(
    lists: Seq<Seq<OutEdge<W>>>,
    degrees: Seq<W>,
    l: Seq<(usize, usize, W)>,
    i: int,
    j: int,
)
    requires
        is_repeatable::<W>(),
        lists.len() <= NodeIdx::MAX,
        in_range(lists, lists.len() as int),
        no_loop(lists),
        is_sparse_laplacian(lists, degrees, l),
        i != j,
    ensures
        place_values(l, i, j) == place_values(l, j, i),
        place_values(l, i, j).len() <= 2,
{
    let m = graph_edges(lists).len();
    let n = lists.len();
    assert(l.len() == 2 * m + n);
    lemma_mirrored_places(lists, degrees, l, m as int, i, j);
    lemma_diagonal_places(lists, degrees, l, n as int, i, j);
    lemma_diagonal_places(lists, degrees, l, n as int, j, i);
    assert(l.take(2 * m + n as int) =~= l);
}

/// The terms on the diagonal add nothing at a place off the diagonal.
proof fn lemma_diagonal_places<W: Real>(
    lists: Seq<Seq<OutEdge<W>>>,
    degrees: Seq<W>,
    l: Seq<(usize, usize, W)>,
    n: int,
    i: int,
    j: int,
)
    requires
        lists.len() <= NodeIdx::MAX,
        is_sparse_laplacian(lists, degrees, l),
        0 <= n <= lists.len(),
        i != j,
    ensures
        place_values(l.take(2 * graph_edges(lists).len() + n), i, j) == place_values(
            l.take(2 * graph_edges(lists).len() as int),
            i,
            j,
        ),
    decreases n,
{
    if n > 0 {
        let m = graph_edges(lists).len();
        lemma_diagonal_places(lists, degrees, l, n - 1, i, j);
        let (g, zero) = choose|g: Seq<(usize, usize, W)>, zero: W|
            #![trigger are_normalized(g + diagonal_terms(lists.len(), zero), degrees, l)]
            are_graph_terms(lists, graph_edges(lists), g) && are_term_sums(g, degrees) && is_zero(
                zero,
            ) && are_normalized(g + diagonal_terms(lists.len(), zero), degrees, l);
        let full = g + diagonal_terms(lists.len(), zero);
        let t = 2 * m + n - 1;
        assert(full[t] == ((n - 1) as usize, (n - 1) as usize, zero));
        assert(l[t].0 == full[t].0 && l[t].1 == full[t].1);
        assert(l.take(2 * m + n).drop_last() =~= l.take(t));
        assert(l.take(2 * m + n).last() == l[t]);
    }
}

/// The compressed laplacian is a symmetric matrix: the coefficient that mirrors a coefficient is in the
/// matrix too, and is equal to it.
pub proof fn law_csr_laplacian_symmetric<W: Real>(
    lists: Seq<Seq<OutEdge<W>>>,
    degrees: Seq<W>,
    terms: Seq<(usize, usize, W)>,
    csr: CsrMatrix<W>,
    i: int,
    s: int,
)
    requires
        is_repeatable::<W>(),
        lists.len() <= NodeIdx::MAX,
        in_range(lists, lists.len() as int),
        no_loop(lists),
        is_sparse_laplacian(lists, degrees, terms),
        csr.is_made_of(terms),
        csr.in_row(i, s),
    ensures
        exists|t: int| #[trigger]
            csr.in_row(csr.indices@[s] as int, t) && csr.indices@[t] == i && csr.data@[t]
                == csr.data@[s],
{
    broadcast use vstd::seq_lib::group_to_multiset_ensures;

    let j = csr.indices@[s] as int;
    let values = place_values(terms, i, j);
    if i != j {
        law_sparse_terms_mirrored(lists, degrees, terms, i, j);
        assert(is_sum_in_some_order(values, csr.data@[s]));
        assert(values.len() > 0) by {
            let order = choose|order: Seq<W>|
                #![trigger order.to_multiset()]
                order.len() > 0 && order.to_multiset() == values.to_multiset() && sums_to(
                    order.first(),
                    order.drop_first(),
                    csr.data@[s],
                );
            assert(order.to_multiset().len() == values.to_multiset().len());
        }
        let m = lemma_place_has_term(terms, j, i);
        let t = choose|t: int|
            csr.in_row(terms[m].0 as int, t) && csr.indices@[t] == terms[m].1;
        assert(csr.in_row(j, t));
        assert(is_sum_in_some_order(values, csr.data@[t]));
        lemma_short_sums_equal(values, csr.data@[s], csr.data@[t]);
    }
}

/// The terms of the first `n` edges stand off the diagonal.
proof fn lemma_edges_off_diagonal<W: Real>(
    lists: Seq<Seq<OutEdge<W>>>,
    degrees: Seq<W>,
    l: Seq<(usize, usize, W)>,
    n: int,
    i: int,
)
    requires
        lists.len() <= NodeIdx::MAX,
        in_range(lists, lists.len() as int),
        no_loop(lists),
        is_sparse_laplacian(lists, degrees, l),
        0 <= n <= graph_edges(lists).len(),
        2 * graph_edges(lists).len() <= l.len(),
    ensures
        place_values(l.take(2 * n), i, i).len() == 0,
    decreases n,
{
    if n > 0 {
        let k = n - 1;
        lemma_edges_off_diagonal(lists, degrees, l, k, i);
        lemma_sparse_place(lists, degrees, l, k);
        lemma_graph_edge(lists, k);
        let (a, e) = graph_edges(lists)[k];
        let m = choose|m: int| 0 <= m < lists[a as int].len() && lists[a as int][m] == e;
        assert(lists[a as int][m].node != a);
        assert(l.take(2 * k + 2).drop_last() =~= l.take(2 * k + 1));
        assert(l.take(2 * k + 1).drop_last() =~= l.take(2 * k));
        assert(l.take(2 * k + 2).last() == l[2 * k + 1]);
        assert(l.take(2 * k + 1).last() == l[2 * k]);
        reveal_with_fuel(place_values, 3);
    } else {
        assert(l.take(0) =~= Seq::empty());
    }
}

/// After the terms of the edges and `n` terms on the diagonal, a coefficient on the diagonal has one
/// term, once its own is there.
proof fn lemma_diagonal_place<W: Real>(
    lists: Seq<Seq<OutEdge<W>>>,
    degrees: Seq<W>,
    l: Seq<(usize, usize, W)>,
    n: int,
    i: int,
)
    requires
        lists.len() <= NodeIdx::MAX,
        in_range(lists, lists.len() as int),
        no_loop(lists),
        is_sparse_laplacian(lists, degrees, l),
        0 <= n <= lists.len(),
        0 <= i < lists.len(),
    ensures
        l.len() == 2 * graph_edges(lists).len() + lists.len(),
        place_values(l.take(2 * graph_edges(lists).len() + n), i, i) == (if i < n {
            seq![l[2 * graph_edges(lists).len() + i].2]
        } else {
            Seq::empty()
        }),
    decreases n,
{
    let m = graph_edges(lists).len();
    if n > 0 {
        lemma_diagonal_place(lists, degrees, l, n - 1, i);
        lemma_diagonal_term(lists, degrees, l, n - 1);
        let t = 2 * m + n - 1;
        assert(l.take(2 * m + n).drop_last() =~= l.take(t));
        assert(l.take(2 * m + n).last() == l[t]);
        assert(i == n - 1 ==> Seq::empty().push(l[t].2) =~= seq![l[t].2]);
    } else {
        lemma_edges_off_diagonal(lists, degrees, l, m as int, i);
        assert(place_values(l.take(2 * m as int), i, i) =~= Seq::empty());
    }
}

/// A coefficient on the diagonal has one term.
pub proof fn lemma_one_diagonal_term<W: Real>(
    lists: Seq<Seq<OutEdge<W>>>,
    degrees: Seq<W>,
    l: Seq<(usize, usize, W)>,
    i: int,
) -> (v: W)
    requires
        lists.len() <= NodeIdx::MAX,
        in_range(lists, lists.len() as int),
        no_loop(lists),
        is_sparse_laplacian(lists, degrees, l),
        0 <= i < lists.len(),
    ensures
        l.len() == 2 * graph_edges(lists).len() + lists.len(),
        v == l[2 * graph_edges(lists).len() + i].2,
        place_values(l, i, i) == seq![v],
{
    lemma_diagonal_place(lists, degrees, l, lists.len() as int, i);
    assert(l.take(l.len() as int) =~= l);
    l[2 * graph_edges(lists).len() + i].2
}

/// The term of the node `i` on the diagonal is `1 - 0 / sqrt(d * d)`, `d` being its degree.
pub proof fn lemma_diagonal_term<W: Real>(
    lists: Seq<Seq<OutEdge<W>>>,
    degrees: Seq<W>,
    l: Seq<(usize, usize, W)>,
    i: int,
)
    requires
        lists.len() <= NodeIdx::MAX,
        is_sparse_laplacian(lists, degrees, l),
        0 <= i < lists.len(),
    ensures
        l[2 * graph_edges(lists).len() + i].0 == i,
        l[2 * graph_edges(lists).len() + i].1 == i,
        exists|zero: W|
            is_zero(zero) && is_sparse_term(
                degrees[i],
                degrees[i],
                zero,
                true,
                l[2 * graph_edges(lists).len() + i].2,
            ),
{
    let m = graph_edges(lists).len();
    let (g, zero) = choose|g: Seq<(usize, usize, W)>, zero: W|
        #![trigger are_normalized(g + diagonal_terms(lists.len(), zero), degrees, l)]
        are_graph_terms(lists, graph_edges(lists), g) && are_term_sums(g, degrees) && is_zero(zero)
            && are_normalized(g + diagonal_terms(lists.len(), zero), degrees, l);
    let full = g + diagonal_terms(lists.len(), zero);
    let t = 2 * m + i;
    assert(full[t] == (i as usize, i as usize, zero));
    assert(l[t].0 == full[t].0 && l[t].1 == full[t].1);
    assert(is_sparse_term(degrees[i], degrees[i], zero, true, l[t].2));
}

/// The compressed laplacian of a graph without loops has every coefficient on the diagonal, and it is
/// `1 - 0 / sqrt(d * d)`, `d` being the degree of the node.
pub proof fn law_csr_laplacian_diagonal<W: Real>(
    lists: Seq<Seq<OutEdge<W>>>,
    degrees: Seq<W>,
    terms: Seq<(usize, usize, W)>,
    csr: CsrMatrix<W>,
    i: int,
)
    requires
        lists.len() <= NodeIdx::MAX,
        in_range(lists, lists.len() as int),
        no_loop(lists),
        is_sparse_laplacian(lists, degrees, terms),
        csr.is_made_of(terms),
        0 <= i < lists.len(),
    ensures
        exists|s: int, zero: W|
            #![trigger csr.in_row(i, s), is_zero(zero)]
            csr.in_row(i, s) && csr.indices@[s] == i && is_zero(zero) && is_sparse_term(
                degrees[i],
                degrees[i],
                zero,
                true,
                csr.data@[s],
            ),
{
    let t = 2 * graph_edges(lists).len() + i;
    lemma_diagonal_term(lists, degrees, terms, i);
    let v = lemma_one_diagonal_term(lists, degrees, terms, i);
    let s = choose|s: int| csr.in_row(terms[t].0 as int, s) && csr.indices@[s] == terms[t].1;
    assert(csr.in_row(i, s));
    lemma_single_sum(v, csr.data@[s]);
    let zero = choose|zero: W|
        is_zero(zero) && is_sparse_term(degrees[i], degrees[i], zero, true, terms[t].2);
    assert(is_zero(zero));
}

} // verus!
