//! The coefficients of the laplacian in exact arithmetic, as formulas of the probabilities of the
//! edges.
use vstd::prelude::*;

use crate::exact::laplacian::{law_row_sum_exact, lemma_root_of_product};
use crate::exact::search::law_midpoint_exact;
use crate::exact::{is_exact, is_root_of, law_ordered_sum_exact, law_total_exact, value_sum};
use crate::graph::{
    in_range, law_all_edges_complete, law_all_edges_sound, no_loop, NodeIdx, OutEdge,
};
use crate::laplacian::{
    are_graph_terms, are_normalized, are_row_sums, are_term_sums, diagonal_terms, edge_lists,
    full_laplacian, graph_edges, is_full_laplacian, is_full_normalized, is_full_term, is_mirrored,
    is_mutual_weight, is_row_sum, is_sparse_laplacian, is_sparse_term, is_symmetrized,
    is_transition_matrix, is_transition_row, last_edges, last_weight, law_last_edges, leads_to,
    lemma_edge_lists, lemma_graph_edge, row_values, sparse_laplacian, LaplacianGraph, MatRepr,
};
use crate::matrix::Matrix;
use crate::number::{
    is_diff, is_midpoint, is_neg, is_one, is_prod, is_quot, is_sqrt, is_sum, is_total, is_zero,
    Real,
};
use crate::scale::NodeParams;
use crate::sparse::{lemma_place_has_term, place_values, CsrMatrix};
use crate::symmetry::{lemma_diagonal_term, lemma_graph_edges_distinct, lemma_one_diagonal_term};

verus! {

/// The edge of index `k` is the last that leads to `node`.
pub open spec fn is_last_to<W>(edges: Seq<OutEdge<W>>, k: int, node: int) -> bool {
    &&& 0 <= k < edges.len()
    &&& edges[k].node == node
    &&& forall|m: int| k < m < edges.len() ==> (#[trigger] edges[m]).node != node
}

/// `x` is the probability of a transition to `node` from a node with these edges: that of the last
/// edge that leads there, and 0 where none does.
pub open spec fn is_transition<W>(
    v: spec_fn(W) -> real,
    edges: Seq<OutEdge<W>>,
    node: int,
    x: real,
) -> bool {
    ||| exists|k: int| #[trigger] is_last_to(edges, k, node) && v(edges[k].weight) == x
    ||| (forall|k: int| 0 <= k < edges.len() ==> (#[trigger] edges[k]).node != node) && x == 0 as real
}

/// `t(i, j)` is the probability of a transition from the node `i` to the node `j`.
pub open spec fn are_transitions<W>(
    v: spec_fn(W) -> real,
    lists: Seq<Seq<OutEdge<W>>>,
    t: spec_fn(int, int) -> real,
) -> bool {
    forall|i: int, j: int|
        0 <= i < lists.len() && 0 <= j < lists.len() ==> is_transition(
            v,
            lists[i],
            j,
            #[trigger] t(i, j),
        )
}

/// The sum of the probabilities of transitions between the node `i` and the first `n` nodes, in
/// both directions.
pub open spec fn both_ways(t: spec_fn(int, int) -> real, i: int, n: nat) -> real
    decreases n,
{
    if n == 0 {
        0 as real
    } else {
        both_ways(t, i, (n - 1) as nat) + (t(i, n - 1) + t(n - 1, i))
    }
}

/// The probability of a transition has the value of the last weight.
proof fn lemma_transition<W>(v: spec_fn(W) -> real, edges: Seq<OutEdge<W>>, node: NodeIdx, x: real)
    requires
        is_transition(v, edges, node as int, x),
    ensures
        x == (match last_weight(edges, node) {
            Some(w) => v(w),
            None => 0 as real,
        }),
        last_weight(edges, node) is Some <==> leads_to(edges, node),
    decreases edges.len(),
{
    if edges.len() > 0 {
        let front = edges.drop_last();
        let n = edges.len() - 1;
        if edges[n].node == node {
            assert(leads_to(edges, node));
            let k = choose|k: int| #[trigger] is_last_to(edges, k, node as int) && v(edges[k].weight) == x;
            assert(k == n);
        } else {
            if exists|k: int| #[trigger] is_last_to(edges, k, node as int) && v(edges[k].weight) == x {
                let k = choose|k: int| #[trigger]
                    is_last_to(edges, k, node as int) && v(edges[k].weight) == x;
                assert forall|m: int| k < m < front.len() implies (#[trigger] front[m]).node != node by {
                    assert(front[m] == edges[m]);
                }
                assert(front[k] == edges[k]);
                assert(is_last_to(front, k, node as int));
            } else {
                assert forall|m: int| 0 <= m < front.len() implies (#[trigger] front[m]).node != node by {
                    assert(front[m] == edges[m]);
                }
            }
            lemma_transition(v, front, node, x);
            if leads_to(front, node) {
                let k = choose|k: int| 0 <= k < front.len() && (#[trigger] front[k]).node == node;
                assert(edges[k].node == node);
            }
            if leads_to(edges, node) {
                let k = choose|k: int| 0 <= k < edges.len() && (#[trigger] edges[k]).node == node;
                assert(front[k].node == node);
            }
        }
    }
}

proof fn lemma_row_of_both_ways<W: Real>(
    v: spec_fn(W) -> real,
    t: spec_fn(int, int) -> real,
    row: Seq<W>,
    i: int,
    n: nat,
)
    requires
        n <= row.len(),
        forall|j: int| 0 <= j < row.len() ==> v(#[trigger] row[j]) * (2 as real) == t(i, j) + t(j, i),
    ensures
        value_sum(v, row.take(n as int)) * (2 as real) == both_ways(t, i, n),
    decreases n,
{
    if n > 0 {
        lemma_row_of_both_ways(v, t, row, i, (n - 1) as nat);
        assert(row.take(n as int).drop_last() =~= row.take(n - 1));
        assert(row.take(n as int).last() == row[n - 1]);
        assert(v(row[n - 1]) * (2 as real) == t(i, n - 1) + t(n - 1, i));
    } else {
        assert(row.take(0) =~= Seq::empty());
    }
}

/// The degrees and the coefficients of a full laplacian.
pub proof fn lemma_full_coefficient<W: Real>(
    v: spec_fn(W) -> real,
    lists: Seq<Seq<OutEdge<W>>>,
    t: spec_fn(int, int) -> real,
    degrees: Seq<W>,
    l: Seq<Seq<W>>,
    i: int,
    j: int,
    a: real,
    b: real,
)
    requires
        is_exact(v),
        lists.len() <= NodeIdx::MAX,
        are_transitions(v, lists, t),
        is_full_laplacian(lists, degrees, l),
        0 <= i < lists.len(),
        0 <= j < lists.len(),
    ensures
        degrees.len() == lists.len(),
        l.len() == lists.len(),
        l[i].len() == lists.len(),
        v(degrees[i]) * (2 as real) == both_ways(t, i, lists.len()),
        v(degrees[i]) > 0 as real && v(degrees[j]) > 0 as real && is_root_of(
            a,
            v(degrees[i]),
        ) && is_root_of(b, v(degrees[j])) ==> (v(l[i][j]) - (if i == j {
            1 as real
        } else {
            0 as real
        })) * (a * b) * (2 as real) == -(t(i, j) + t(j, i)),
{
    let (p, g) = choose|p: Seq<Seq<W>>, g: Seq<Seq<W>>|
        #![trigger is_symmetrized(p, g)]
        is_transition_matrix(lists, p) && is_symmetrized(p, g) && are_row_sums(g, degrees)
            && is_full_normalized(g, degrees, l);
    let n = lists.len();
    let zero = choose|zero: W|
        is_zero(zero) && forall|x: int|
            0 <= x < p.len() ==> is_transition_row(lists[x], zero, #[trigger] p[x]);
    assert forall|x: int, y: int| 0 <= x < n && 0 <= y < n implies v(#[trigger] p[x][y]) == t(x, y) by {
        assert(is_transition_row(lists[x], zero, p[x]));
        assert(p[x].len() == n);
        assert(is_transition(v, lists[x], y, t(x, y)));
        lemma_transition(v, lists[x], y as NodeIdx, t(x, y));
    }
    assert(g[i].len() == n);
    assert forall|y: int| 0 <= y < g[i].len() implies v(#[trigger] g[i][y]) * (2 as real) == t(i, y) + t(
        y,
        i,
    ) by {
        assert(is_midpoint(p[i][y], p[y][i], g[i][y]));
        law_midpoint_exact(v, p[i][y], p[y][i], g[i][y]);
        assert(v(p[i][y]) == t(i, y) && v(p[y][i]) == t(y, i));
    }
    lemma_row_of_both_ways(v, t, g[i], i, n);
    assert(g[i].take(n as int) =~= g[i]);
    assert(is_row_sum(g[i], degrees[i]));
    law_row_sum_exact(v, g[i], degrees[i]);
    let (di, dj) = (v(degrees[i]), v(degrees[j]));
    if di > 0 as real && dj > 0 as real && is_root_of(a, di) && is_root_of(b, dj) {
        assert(is_full_term(degrees[i], degrees[j], g[i][j], i == j, l[i][j]));
        let (w, r, m, q) = choose|w: W, r: W, m: W, q: W|
            is_prod(degrees[i], degrees[j], w) && is_sqrt(w, r) && is_neg(r, m) && is_quot(
                g[i][j],
                m,
                q,
            ) && (if i == j {
                exists|one: W| is_one(one) && is_sum(q, one, l[i][j])
            } else {
                l[i][j] == q
            });
        assert(di * dj > 0 as real) by (nonlinear_arith)
            requires
                di > 0 as real,
                dj > 0 as real,
        ;
        let (rv, qv, gv) = (v(r), v(q), v(g[i][j]));
        lemma_root_of_product(di, dj, a, b, rv);
        assert(rv > 0 as real) by (nonlinear_arith)
            requires
                rv >= 0 as real,
                rv * rv > 0 as real,
        ;
        assert((qv * rv) * (2 as real) == -(gv * (2 as real))) by (nonlinear_arith)
            requires
                qv * (-rv) == gv,
        ;
    }
}

/// The full laplacian of a graph with the probabilities `t(i, j)` of transitions has the degrees
/// `d(i)`, half the sums over `j` of `t(i, j) + t(j, i)`, and the coefficients
/// `-(t(i, j) + t(j, i)) / (2 sqrt(d(i) d(j)))`, plus 1 on the diagonal. `a` and `b` are the square
/// roots of the two degrees.
pub proof fn law_full_laplacian<W: Real>(
    v: spec_fn(W) -> real,
    params: &NodeParams<W>,
    t: spec_fn(int, int) -> real,
    res: (Matrix<W>, Vec<W>),
    i: int,
    j: int,
    a: real,
    b: real,
)
    requires
        is_exact(v),
        params.wf(),
        are_transitions(v, Seq::new(params.params@.len(), |x: int| params.params@[x].edges@), t),
        call_ensures(full_laplacian::<W>, (params,), res),
        0 <= i < params.params@.len(),
        0 <= j < params.params@.len(),
    ensures
        ({
            let (l, degrees, n) = (res.0@, res.1@, params.params@.len());
            &&& l.len() == n
            &&& l[i].len() == n
            &&& degrees.len() == n
            &&& v(degrees[i]) * (2 as real) == both_ways(t, i, n)
            &&& v(degrees[i]) > 0 as real && v(degrees[j]) > 0 as real && is_root_of(
                a,
                v(degrees[i]),
            ) && is_root_of(b, v(degrees[j])) ==> (v(l[i][j]) - (if i == j {
                1 as real
            } else {
                0 as real
            })) * (a * b) * (2 as real) == -(t(i, j) + t(j, i))
        }),
{
    let lists = Seq::new(params.params@.len(), |x: int| params.params@[x].edges@);
    assert(lists =~= edge_lists(params.params@));
    assert(params.params@.len() == params.params.len());
    lemma_full_coefficient(v, lists, t, res.1@, res.0@, i, j, a, b);
}

/// One of the first `n` edges of the graph leads from `i` to `j`.
spec fn has_link<W>(lists: Seq<Seq<OutEdge<W>>>, n: int, i: int, j: int) -> bool {
    exists|k: int|
        0 <= k < n && (#[trigger] graph_edges(lists)[k]).0 == i && graph_edges(lists)[k].1.node == j
}

/// The value that an edge from `i` to `j` has in the symmetrized graph: its own, or the mean of
/// both directions.
spec fn link_value<W>(
    v: spec_fn(W) -> real,
    lists: Seq<Seq<OutEdge<W>>>,
    t: spec_fn(int, int) -> real,
    i: int,
    j: int,
) -> real {
    if leads_to(lists[j], i as NodeIdx) {
        (t(i, j) + t(j, i)) / (2 as real)
    } else {
        t(i, j)
    }
}

/// The edge `k` of the graph carries the probability of its transition.
proof fn lemma_link<W: Real>(
    v: spec_fn(W) -> real,
    lists: Seq<Seq<OutEdge<W>>>,
    t: spec_fn(int, int) -> real,
    k: int,
    value: W,
)
    requires
        is_exact(v),
        lists.len() <= NodeIdx::MAX,
        in_range(lists, lists.len() as int),
        are_transitions(v, lists, t),
        0 <= k < graph_edges(lists).len(),
        is_mutual_weight(lists, graph_edges(lists)[k].0, graph_edges(lists)[k].1, value),
    ensures
        v(value) == link_value(
            v,
            lists,
            t,
            graph_edges(lists)[k].0 as int,
            graph_edges(lists)[k].1.node as int,
        ),
{
    let (i, e) = graph_edges(lists)[k];
    let j = e.node;
    lemma_graph_edge(lists, k);
    let kept = lists.map_values(|edges: Seq<OutEdge<W>>| last_edges(edges));
    law_all_edges_sound(kept, k);
    let own = lists[i as int];
    assert(kept[i as int] == last_edges(own));
    let m = choose|m: int| 0 <= m < last_edges(own).len() && last_edges(own)[m] == e;
    law_last_edges(own);
    assert(last_weight(own, last_edges(own)[m].node) == Some(last_edges(own)[m].weight));
    assert(is_transition(v, own, j as int, t(i as int, j as int)));
    lemma_transition(v, own, j, t(i as int, j as int));
    assert(is_transition(v, lists[j as int], i as int, t(j as int, i as int)));
    lemma_transition(v, lists[j as int], i, t(j as int, i as int));
    if let Some(w) = last_weight(lists[j as int], i) {
        law_midpoint_exact(v, e.weight, w, value);
    }
}

/// What the first `n` edges of the graph contribute at a place off the diagonal.
proof fn lemma_place_value<W: Real>(
    v: spec_fn(W) -> real,
    lists: Seq<Seq<OutEdge<W>>>,
    t: spec_fn(int, int) -> real,
    g: Seq<(usize, usize, W)>,
    n: int,
    i: int,
    j: int,
)
    requires
        is_exact(v),
        lists.len() <= NodeIdx::MAX,
        in_range(lists, lists.len() as int),
        are_transitions(v, lists, t),
        are_graph_terms(lists, graph_edges(lists), g),
        0 <= n <= graph_edges(lists).len(),
        i != j,
    ensures
        value_sum(v, place_values(g.take(2 * n), i, j)) == (if has_link(lists, n, i, j) {
            link_value(v, lists, t, i, j)
        } else {
            0 as real
        }) + (if has_link(lists, n, j, i) {
            link_value(v, lists, t, j, i)
        } else {
            0 as real
        }),
    decreases n,
{
    let edges = graph_edges(lists);
    if n > 0 {
        let k = n - 1;
        lemma_place_value(v, lists, t, g, k, i, j);
        assert(is_mirrored(lists, edges[k], g[2 * k], g[2 * k + 1]));
        let value = g[2 * k].2;
        lemma_link(v, lists, t, k, value);
        let (x, y) = (edges[k].0 as int, edges[k].1.node as int);
        let (before, mid, after) = (g.take(2 * k), g.take(2 * k + 1), g.take(2 * n));
        assert(after.drop_last() =~= mid);
        assert(mid.drop_last() =~= before);
        assert(after.last() == g[2 * k + 1]);
        assert(mid.last() == g[2 * k]);
        lemma_link_grows(lists, k, i, j);
        lemma_link_grows(lists, k, j, i);
        let old_values = place_values(before, i, j);
        assert(old_values.push(value).drop_last() =~= old_values);
        reveal_with_fuel(place_values, 3);
        if x == i && y == j {
            assert(place_values(mid, i, j) == old_values.push(value));
            assert(place_values(after, i, j) == old_values.push(value));
        } else if x == j && y == i {
            assert(place_values(mid, i, j) == old_values);
            assert(place_values(after, i, j) == old_values.push(value));
        } else {
            assert(place_values(after, i, j) == old_values);
        }
    } else {
        assert(g.take(0) =~= Seq::empty());
    }
}

/// With one more edge there is one more link, and no link twice.
proof fn lemma_link_grows<W>(lists: Seq<Seq<OutEdge<W>>>, k: int, i: int, j: int)
    requires
        lists.len() <= NodeIdx::MAX,
        0 <= k < graph_edges(lists).len(),
    ensures
        has_link(lists, k + 1, i, j) == (has_link(lists, k, i, j) || (graph_edges(lists)[k].0 == i
            && graph_edges(lists)[k].1.node == j)),
        graph_edges(lists)[k].0 == i && graph_edges(lists)[k].1.node == j ==> !has_link(lists, k, i, j),
{
    let edges = graph_edges(lists);
    if has_link(lists, k, i, j) {
        let m = choose|m: int| 0 <= m < k && (#[trigger] edges[m]).0 == i && edges[m].1.node == j;
        assert(edges[m].0 == i);
        if edges[k].0 == i && edges[k].1.node == j {
            lemma_graph_edges_distinct(lists, m, k);
        }
    }
    if has_link(lists, k + 1, i, j) {
        let m = choose|m: int| 0 <= m < k + 1 && (#[trigger] edges[m]).0 == i && edges[m].1.node == j;
        assert(edges[m].0 == i);
    }
    if edges[k].0 == i && edges[k].1.node == j {
        assert(has_link(lists, k + 1, i, j));
    }
}

/// Every edge of the lists is an edge of the graph, as far as it leads to a node.
proof fn lemma_links<W>(lists: Seq<Seq<OutEdge<W>>>, i: int, j: int)
    requires
        lists.len() <= NodeIdx::MAX,
        in_range(lists, lists.len() as int),
        0 <= i < lists.len(),
        0 <= j < lists.len(),
    ensures
        has_link(lists, graph_edges(lists).len() as int, i, j) == leads_to(lists[i], j as NodeIdx),
{
    let edges = graph_edges(lists);
    let kept = lists.map_values(|list: Seq<OutEdge<W>>| last_edges(list));
    assert(kept[i] == last_edges(lists[i]));
    if leads_to(lists[i], j as NodeIdx) {
        law_last_edges(lists[i]);
        assert(leads_to(last_edges(lists[i]), j as NodeIdx));
        let m = choose|m: int| 0 <= m < kept[i].len() && (#[trigger] kept[i][m]).node == j as NodeIdx;
        law_all_edges_complete(kept, i, m);
        let k = choose|k: int| 0 <= k < edges.len() && edges[k] == (i as NodeIdx, kept[i][m]);
        assert(edges[k].0 == i);
    }
    if has_link(lists, edges.len() as int, i, j) {
        let k = choose|k: int|
            0 <= k < edges.len() && (#[trigger] edges[k]).0 == i && edges[k].1.node == j;
        lemma_graph_edge(lists, k);
        let m = choose|m: int| 0 <= m < lists[i].len() && lists[i][m] == edges[k].1;
        assert(lists[i][m].node == j as NodeIdx);
    }
}

/// The terms of the graph at a place off the diagonal sum to the probabilities of the transitions
/// in both directions.
proof fn lemma_both_directions<W: Real>(
    v: spec_fn(W) -> real,
    lists: Seq<Seq<OutEdge<W>>>,
    t: spec_fn(int, int) -> real,
    g: Seq<(usize, usize, W)>,
    i: int,
    j: int,
)
    requires
        is_exact(v),
        lists.len() <= NodeIdx::MAX,
        in_range(lists, lists.len() as int),
        are_transitions(v, lists, t),
        are_graph_terms(lists, graph_edges(lists), g),
        0 <= i < lists.len(),
        0 <= j < lists.len(),
        i != j,
    ensures
        value_sum(v, place_values(g, i, j)) == t(i, j) + t(j, i),
{
    let n = graph_edges(lists).len() as int;
    lemma_place_value(v, lists, t, g, n, i, j);
    assert(g.take(2 * n) =~= g);
    lemma_links(lists, i, j);
    lemma_links(lists, j, i);
    assert(is_transition(v, lists[i], j, t(i, j)) && is_transition(v, lists[j], i, t(j, i)));
    lemma_transition(v, lists[i], j as NodeIdx, t(i, j));
    lemma_transition(v, lists[j], i as NodeIdx, t(j, i));
}

/// The sum of the terms at the first `m` places of the row `i`.
spec fn place_sum<W>(v: spec_fn(W) -> real, terms: Seq<(usize, usize, W)>, i: int, m: nat) -> real
    decreases m,
{
    if m == 0 {
        0 as real
    } else {
        place_sum(v, terms, i, (m - 1) as nat) + value_sum(v, place_values(terms, i, m - 1))
    }
}

proof fn lemma_place_sum_push<W>(
    v: spec_fn(W) -> real,
    terms: Seq<(usize, usize, W)>,
    i: int,
    m: nat,
)
    requires
        terms.len() > 0,
    ensures
        place_sum(v, terms, i, m) == place_sum(v, terms.drop_last(), i, m) + (if terms.last().0 == i
            && terms.last().1 < m {
            v(terms.last().2)
        } else {
            0 as real
        }),
    decreases m,
{
    if m > 0 {
        lemma_place_sum_push(v, terms, i, (m - 1) as nat);
        let values = place_values(terms.drop_last(), i, m - 1);
        assert(values.push(terms.last().2).drop_last() =~= values);
    }
}

/// The terms of a row are those at its places.
proof fn lemma_row_places<W>(v: spec_fn(W) -> real, terms: Seq<(usize, usize, W)>, i: int, n: nat)
    requires
        forall|a: int| 0 <= a < terms.len() ==> (#[trigger] terms[a]).1 < n,
    ensures
        value_sum(v, row_values(terms, i)) == place_sum(v, terms, i, n),
    decreases terms.len(),
{
    if terms.len() > 0 {
        let front = terms.drop_last();
        assert forall|a: int| 0 <= a < front.len() implies (#[trigger] front[a]).1 < n by {
            assert(front[a] == terms[a]);
        }
        lemma_row_places(v, front, i, n);
        lemma_place_sum_push(v, terms, i, n);
        assert(terms[terms.len() - 1].1 < n);
        let values = row_values(front, i);
        assert(values.push(terms.last().2).drop_last() =~= values);
    } else {
        lemma_no_places(v, terms, i, n);
    }
}

proof fn lemma_no_places<W>(v: spec_fn(W) -> real, terms: Seq<(usize, usize, W)>, i: int, n: nat)
    requires
        terms.len() == 0,
    ensures
        place_sum(v, terms, i, n) == 0 as real,
    decreases n,
{
    if n > 0 {
        lemma_no_places(v, terms, i, (n - 1) as nat);
    }
}

/// No term of the graph stands on the diagonal.
proof fn lemma_no_diagonal<W: Real>(
    lists: Seq<Seq<OutEdge<W>>>,
    g: Seq<(usize, usize, W)>,
    i: int,
)
    requires
        lists.len() <= NodeIdx::MAX,
        in_range(lists, lists.len() as int),
        no_loop(lists),
        are_graph_terms(lists, graph_edges(lists), g),
    ensures
        place_values(g, i, i).len() == 0,
        forall|a: int| 0 <= a < g.len() ==> (#[trigger] g[a]).1 < lists.len(),
{
    let edges = graph_edges(lists);
    assert forall|a: int| 0 <= a < g.len() implies (#[trigger] g[a]).1 < lists.len() && g[a].0 != g[a].1 by {
        let k = a / 2;
        lemma_graph_edge(lists, k);
        assert(is_mirrored(lists, edges[k], g[2 * k], g[2 * k + 1]));
        let (x, e) = edges[k];
        let m = choose|m: int| 0 <= m < lists[x as int].len() && lists[x as int][m] == e;
        assert(lists[x as int][m].node != x);
        assert(a == 2 * k || a == 2 * k + 1);
    }
    if place_values(g, i, i).len() > 0 {
        let a = lemma_place_has_term(g, i, i);
        assert(g[a].0 != g[a].1);
    }
}

proof fn lemma_sparse_degrees<W: Real>(
    v: spec_fn(W) -> real,
    lists: Seq<Seq<OutEdge<W>>>,
    t: spec_fn(int, int) -> real,
    g: Seq<(usize, usize, W)>,
    i: int,
    n: nat,
)
    requires
        is_exact(v),
        lists.len() <= NodeIdx::MAX,
        in_range(lists, lists.len() as int),
        no_loop(lists),
        are_transitions(v, lists, t),
        are_graph_terms(lists, graph_edges(lists), g),
        0 <= i < lists.len(),
        n <= lists.len(),
    ensures
        place_sum(v, g, i, n) == both_ways(t, i, n),
    decreases n,
{
    if n > 0 {
        let j = n - 1;
        lemma_sparse_degrees(v, lists, t, g, i, j as nat);
        if i == j {
            lemma_no_diagonal(lists, g, i);
            assert(place_values(g, i, i) =~= Seq::empty());
            assert(is_transition(v, lists[i], i, t(i, i)));
            assert forall|k: int| 0 <= k < lists[i].len() implies (#[trigger] lists[i][k]).node != i by {}
            assert(t(i, i) == 0 as real) by {
                if exists|k: int| #[trigger] is_last_to(lists[i], k, i) && v(lists[i][k].weight) == t(i, i) {
                    let k = choose|k: int| #[trigger]
                        is_last_to(lists[i], k, i) && v(lists[i][k].weight) == t(i, i);
                    assert(lists[i][k].node != i);
                }
            }
        } else {
            lemma_both_directions(v, lists, t, g, i, j);
        }
    }
}

/// A term of the laplacian off the diagonal is that of the graph, with the opposite sign, over the
/// roots of the degrees.
proof fn lemma_normalized_places<W: Real>(
    v: spec_fn(W) -> real,
    full: Seq<(usize, usize, W)>,
    degrees: Seq<W>,
    l: Seq<(usize, usize, W)>,
    i: int,
    j: int,
    a: real,
    b: real,
    n: nat,
)
    requires
        is_exact(v),
        are_normalized(full, degrees, l),
        n <= full.len(),
        i != j,
        v(degrees[i]) > 0 as real,
        v(degrees[j]) > 0 as real,
        is_root_of(a, v(degrees[i])),
        is_root_of(b, v(degrees[j])),
    ensures
        value_sum(v, place_values(l.take(n as int), i, j)) * (a * b) == -value_sum(
            v,
            place_values(full.take(n as int), i, j),
        ),
    decreases n,
{
    let c = a * b;
    if n > 0 {
        let m = n - 1;
        lemma_normalized_places(v, full, degrees, l, i, j, a, b, m as nat);
        assert(l.take(n as int).drop_last() =~= l.take(m));
        assert(full.take(n as int).drop_last() =~= full.take(m));
        assert(l.take(n as int).last() == l[m] && full.take(n as int).last() == full[m]);
        assert(l[m].0 == full[m].0 && l[m].1 == full[m].1);
        if full[m].0 == i && full[m].1 == j {
            assert(is_sparse_term(degrees[i], degrees[j], full[m].2, false, l[m].2));
            let (p, r) = choose|p: W, r: W|
                is_prod(degrees[i], degrees[j], p) && is_sqrt(p, r) && exists|q: W|
                    is_neg(full[m].2, q) && is_quot(q, r, l[m].2);
            let q = choose|q: W| is_neg(full[m].2, q) && is_quot(q, r, l[m].2);
            let (di, dj, rv) = (v(degrees[i]), v(degrees[j]), v(r));
            assert(di * dj > 0 as real) by (nonlinear_arith)
                requires
                    di > 0 as real,
                    dj > 0 as real,
            ;
            lemma_root_of_product(di, dj, a, b, rv);
            assert(rv != 0 as real) by (nonlinear_arith)
                requires
                    rv * rv > 0 as real,
            ;
            let (x, y) = (place_values(l.take(m), i, j), place_values(full.take(m), i, j));
            assert(x.push(l[m].2).drop_last() =~= x);
            assert(y.push(full[m].2).drop_last() =~= y);
            let (s, u) = (value_sum(v, x), v(l[m].2));
            assert((s + u) * c == s * c + u * c) by (nonlinear_arith);
        }
    } else {
        assert(l.take(0) =~= Seq::empty());
        assert(full.take(0) =~= Seq::empty());
        assert((0 as real) * c == 0 as real) by (nonlinear_arith);
    }
}

/// The terms on the diagonal stand at no place off it.
proof fn lemma_without_diagonal<W>(g: Seq<(usize, usize, W)>, zero: W, n: nat, i: int, j: int)
    requires
        i != j,
    ensures
        place_values(g + diagonal_terms(n, zero), i, j) == place_values(g, i, j),
    decreases n,
{
    if n > 0 {
        let m = (n - 1) as nat;
        lemma_without_diagonal(g, zero, m, i, j);
        let full = g + diagonal_terms(n, zero);
        assert(full.drop_last() =~= g + diagonal_terms(m, zero));
        assert(full.last() == (m as usize, m as usize, zero));
    } else {
        assert(g + diagonal_terms(0, zero) =~= g);
    }
}

/// `x` is the coefficient of the matrix at the row `i` and the column `j`, 0 where the matrix holds
/// none there.
pub open spec fn is_coefficient<W>(
    v: spec_fn(W) -> real,
    csr: CsrMatrix<W>,
    i: int,
    j: int,
    x: real,
) -> bool {
    ||| exists|s: int|
        csr.indptr@[i] <= s < csr.indptr@[i + 1] && #[trigger] csr.indices@[s] == j && v(csr.data@[s]) == x
    ||| (forall|s: int|
        csr.indptr@[i] <= s < csr.indptr@[i + 1] ==> #[trigger] csr.indices@[s] != j) && x == 0 as real
}

/// A coefficient is the sum of the terms at its place.
proof fn lemma_coefficient<W: Real>(
    v: spec_fn(W) -> real,
    csr: CsrMatrix<W>,
    terms: Seq<(usize, usize, W)>,
    i: int,
    j: int,
    x: real,
)
    requires
        is_exact(v),
        csr.is_made_of(terms),
        0 <= i < csr.nbnodes,
        is_coefficient(v, csr, i, j, x),
    ensures
        x == value_sum(v, place_values(terms, i, j)),
{
    if exists|s: int|
        csr.indptr@[i] <= s < csr.indptr@[i + 1] && #[trigger] csr.indices@[s] == j && v(csr.data@[s]) == x {
        let s = choose|s: int|
            csr.indptr@[i] <= s < csr.indptr@[i + 1] && #[trigger] csr.indices@[s] == j && v(csr.data@[s])
                == x;
        assert(csr.in_row(i, s));
        law_ordered_sum_exact(v, place_values(terms, i, j), csr.data@[s]);
    } else {
        if place_values(terms, i, j).len() > 0 {
            let m = lemma_place_has_term(terms, i, j);
            let s = choose|s: int| csr.in_row(terms[m].0 as int, s) && csr.indices@[s] == terms[m].1;
            assert(csr.indices@[s] == j);
        }
        assert(place_values(terms, i, j) =~= Seq::empty());
    }
}

/// The degrees and the coefficients of a sparse laplacian.
pub proof fn lemma_sparse_coefficient<W: Real>(
    v: spec_fn(W) -> real,
    lists: Seq<Seq<OutEdge<W>>>,
    t: spec_fn(int, int) -> real,
    degrees: Seq<W>,
    terms: Seq<(usize, usize, W)>,
    csr: CsrMatrix<W>,
    i: int,
    j: int,
    a: real,
    b: real,
    x: real,
)
    requires
        is_exact(v),
        lists.len() <= NodeIdx::MAX,
        in_range(lists, lists.len() as int),
        no_loop(lists),
        are_transitions(v, lists, t),
        is_sparse_laplacian(lists, degrees, terms),
        csr.is_made_of(terms),
        csr.nbnodes == lists.len(),
        0 <= i < lists.len(),
        0 <= j < lists.len(),
    ensures
        degrees.len() == lists.len(),
        v(degrees[i]) == both_ways(t, i, lists.len()),
        v(degrees[i]) > 0 as real && v(degrees[j]) > 0 as real && is_root_of(
            a,
            v(degrees[i]),
        ) && is_root_of(b, v(degrees[j])) && is_coefficient(v, csr, i, j, x) ==> (if i == j {
            x == 1 as real
        } else {
            x * (a * b) == -(t(i, j) + t(j, i))
        }),
{
    let n = lists.len();
    let (g, zero) = choose|g: Seq<(usize, usize, W)>, zero: W|
        #![trigger are_normalized(g + diagonal_terms(lists.len(), zero), degrees, terms)]
        are_graph_terms(lists, graph_edges(lists), g) && are_term_sums(g, degrees) && is_zero(zero)
            && are_normalized(g + diagonal_terms(lists.len(), zero), degrees, terms);
    assert(is_total(row_values(g, i), degrees[i]));
    law_total_exact(v, row_values(g, i), degrees[i]);
    lemma_no_diagonal(lists, g, i);
    lemma_row_places(v, g, i, n);
    lemma_sparse_degrees(v, lists, t, g, i, n);
    if v(degrees[i]) > 0 as real && v(degrees[j]) > 0 as real && is_root_of(
        a,
        v(degrees[i]),
    ) && is_root_of(b, v(degrees[j])) && is_coefficient(v, csr, i, j, x) {
        lemma_coefficient(v, csr, terms, i, j, x);
        if i == j {
            let one = lemma_one_diagonal_term(lists, degrees, terms, i);
            lemma_diagonal_term(lists, degrees, terms, i);
            let z = choose|z: W| is_zero(z) && is_sparse_term(degrees[i], degrees[i], z, true, one);
            let (p, r) = choose|p: W, r: W|
                is_prod(degrees[i], degrees[i], p) && is_sqrt(p, r) && exists|q: W, o: W|
                    is_quot(z, r, q) && is_one(o) && is_diff(o, q, one);
            let (q, o) = choose|q: W, o: W| is_quot(z, r, q) && is_one(o) && is_diff(o, q, one);
            let (d, rv, qv) = (v(degrees[i]), v(r), v(q));
            assert(d * d > 0 as real) by (nonlinear_arith)
                requires
                    d > 0 as real,
            ;
            assert(rv != 0 as real) by (nonlinear_arith)
                requires
                    rv * rv > 0 as real,
            ;
            assert(qv == 0 as real) by (nonlinear_arith)
                requires
                    qv * rv == 0 as real,
                    rv != 0 as real,
            ;
            assert(v(one) == 1 as real);
            let single = place_values(terms, i, i);
            assert(single.len() == 1 && single.last() == one);
            assert(value_sum(v, single.drop_last()) == 0 as real);
            assert(value_sum(v, single) == v(one));
            assert(x == 1 as real);
        } else {
            let full = g + diagonal_terms(n, zero);
            lemma_normalized_places(v, full, degrees, terms, i, j, a, b, full.len());
            assert(terms.take(full.len() as int) =~= terms);
            assert(full.take(full.len() as int) =~= full);
            lemma_without_diagonal(g, zero, n, i, j);
            lemma_both_directions(v, lists, t, g, i, j);
            assert(x * (a * b) == -(t(i, j) + t(j, i)));
        }
    }
}

/// The sparse laplacian of a graph with the probabilities `t(i, j)` of transitions has the degrees
/// `d(i)`, the sums over `j` of `t(i, j) + t(j, i)`, the coefficients
/// `-(t(i, j) + t(j, i)) / sqrt(d(i) d(j))` off the diagonal, and 1 on the diagonal. `a` and `b`
/// are the square roots of the two degrees.
pub proof fn law_sparse_laplacian<W: Real>(
    v: spec_fn(W) -> real,
    params: &NodeParams<W>,
    t: spec_fn(int, int) -> real,
    res: (CsrMatrix<W>, Vec<W>),
    i: int,
    j: int,
    a: real,
    b: real,
    x: real,
)
    requires
        is_exact(v),
        params.wf(),
        no_loop(Seq::new(params.params@.len(), |k: int| params.params@[k].edges@)),
        are_transitions(v, Seq::new(params.params@.len(), |k: int| params.params@[k].edges@), t),
        call_ensures(sparse_laplacian::<W>, (params,), res),
        0 <= i < params.params@.len(),
        0 <= j < params.params@.len(),
    ensures
        ({
            let (csr, degrees, n) = (res.0, res.1@, params.params@.len());
            &&& csr.nbnodes == n
            &&& degrees.len() == n
            &&& v(degrees[i]) == both_ways(t, i, n)
            &&& v(degrees[i]) > 0 as real && v(degrees[j]) > 0 as real && is_root_of(
                a,
                v(degrees[i]),
            ) && is_root_of(b, v(degrees[j])) && is_coefficient(v, csr, i, j, x) ==> (
            if i == j {
                x == 1 as real
            } else {
                x * (a * b) == -(t(i, j) + t(j, i))
            })
        }),
{
    let lists = Seq::new(params.params@.len(), |k: int| params.params@[k].edges@);
    assert(lists =~= edge_lists(params.params@));
    assert(params.params@.len() == params.params.len());
    lemma_edge_lists(params);
    let terms = choose|terms: Seq<(usize, usize, W)>|
        #![trigger res.0.is_made_of(terms)]
        is_sparse_laplacian(edge_lists(params.params@), res.1@, terms) && res.0.is_made_of(terms);
    lemma_sparse_coefficient(v, lists, t, res.1@, terms, res.0, i, j, a, b, x);
}

/// The laplacian of a graph with the probabilities `t(i, j)` of transitions has the degrees and the
/// coefficients of a full laplacian, or those of a sparse one. `a` and `b` are the square roots of
/// the degrees of the nodes `i` and `j`, and `x` is the coefficient of a sparse matrix at their
/// place.
pub open spec fn is_laplacian_value<W>(
    v: spec_fn(W) -> real,
    t: spec_fn(int, int) -> real,
    laplacian: LaplacianGraph<W>,
    i: int,
    j: int,
    a: real,
    b: real,
    x: real,
) -> bool {
    let degrees = laplacian.degrees@;
    let roots = is_root_of(a, v(degrees[i])) && is_root_of(b, v(degrees[j]));
    let both = t(i, j) + t(j, i);
    match laplacian.sym_laplacian {
        MatRepr::Full(m) => {
            &&& m.width() == degrees.len()
            &&& m@.len() == degrees.len()
            &&& v(degrees[i]) * (2 as real) == both_ways(t, i, degrees.len())
            &&& roots ==> (v(m@[i][j]) - (if i == j {
                1 as real
            } else {
                0 as real
            })) * (a * b) * (2 as real) == -both
        },
        MatRepr::Sparse(csr) => {
            &&& csr.nbnodes == degrees.len()
            &&& v(degrees[i]) == both_ways(t, i, degrees.len())
            &&& roots && is_coefficient(v, csr, i, j, x) ==> (if i == j {
                x == 1 as real
            } else {
                x * (a * b) == -both
            })
        },
    }
}

} // verus!
