//! The normalized symmetric laplacian of the graph of transition probabilities.
use vstd::prelude::*;

use crate::graph::{
    all_edges, in_range, law_all_edges_sound, no_loop, tagged, NodeIdx, OutEdge,
};
use crate::matrix::{rectangular, Matrix};
use crate::number::{
    is_diff, is_midpoint, is_neg, is_one, is_prod, is_quot, is_sqrt, is_sum, is_total,
    is_zero, lemma_total_push, midpoint, sums_to, Real,
};
use crate::scale::{NodeParam, NodeParams};
use crate::sparse::{compressed, CsrMatrix, Triplets};
use crate::summand::Summand;

verus! {

/// Up to this number of nodes the laplacian is a full matrix.
pub const DENSE_LIMIT: usize = 300;

/// A matrix, full or sparse.
pub enum MatRepr<W> {
    Full(Matrix<W>),
    Sparse(CsrMatrix<W>),
}

/// The normalized symmetric laplacian, and the degrees (the sums of the rows of the symmetrized
/// graph), which lead back from its eigenvectors to those of the random walk laplacian.
pub struct LaplacianGraph<W> {
    pub sym_laplacian: MatRepr<W>,
    pub degrees: Vec<W>,
}

/// The edges out of each node.
pub open spec fn edge_lists<W>(params: Seq<NodeParam<W>>) -> Seq<Seq<OutEdge<W>>> {
    params.map_values(|p: NodeParam<W>| p.edges@)
}

/// The weight of the last edge that leads to `node`.
pub open spec fn last_weight<W>(edges: Seq<OutEdge<W>>, node: NodeIdx) -> Option<W>
    decreases edges.len(),
{
    if edges.len() == 0 {
        None
    } else if edges.last().node == node {
        Some(edges.last().weight)
    } else {
        last_weight(edges.drop_last(), node)
    }
}

/// `row` is the row of the matrix of transition probabilities for a node with these edges, with
/// `zero` for the nodes that no edge leads to.
pub open spec fn is_transition_row<W>(edges: Seq<OutEdge<W>>, zero: W, row: Seq<W>) -> bool {
    forall|j: int|
        0 <= j < row.len() ==> #[trigger] row[j] == match last_weight(edges, j as NodeIdx) {
            Some(w) => w,
            None => zero,
        }
}

/// `p` is the square matrix of transition probabilities.
pub open spec fn is_transition_matrix<W: Real>(
    lists: Seq<Seq<OutEdge<W>>>,
    p: Seq<Seq<W>>,
) -> bool {
    &&& p.len() == lists.len()
    &&& rectangular(p, lists.len())
    &&& exists|zero: W|
        is_zero(zero) && forall|i: int|
            0 <= i < p.len() ==> is_transition_row(lists[i], zero, #[trigger] p[i])
}

/// `g` is the mean of the square matrix `p` and its transpose.
pub open spec fn is_symmetrized<W: Real>(p: Seq<Seq<W>>, g: Seq<Seq<W>>) -> bool {
    &&& g.len() == p.len()
    &&& rectangular(g, p.len())
    &&& forall|i: int, j: int|
        0 <= i < p.len() && 0 <= j < p.len() ==> is_midpoint(p[i][j], p[j][i], #[trigger] g[i][j])
}

/// Every eighth number from the index `k` on, as far as there are eight together.
pub open spec fn lane<W>(row: Seq<W>, k: int) -> Seq<W> {
    Seq::new((row.len() / 8) as nat, |q: int| row[8 * q + k])
}

/// `q` is the sum of the numbers of the lanes `k` and `k + 4`.
pub open spec fn is_lane_pair<W: Real>(row: Seq<W>, k: int, q: W) -> bool {
    exists|a: W, b: W| is_total(lane(row, k), a) && is_total(lane(row, k + 4), b) && is_sum(a, b, q)
}

/// `r` is the sum of the numbers of the row, taken in eight lanes: the lanes are summed in pairs, then the pairs
/// and the numbers that are left are added up.
pub open spec fn is_row_sum<W: Real>(row: Seq<W>, r: W) -> bool {
    exists|zero: W, pairs: Seq<W>|
        #![trigger sums_to(zero, pairs + row.skip(8 * (row.len() / 8) as int), r)]
        is_zero(zero) && pairs.len() == 4 && (forall|k: int|
            0 <= k < 4 ==> is_lane_pair(row, k, #[trigger] pairs[k])) && sums_to(
            zero,
            pairs + row.skip(8 * (row.len() / 8) as int),
            r,
        )
}

/// The degrees are the sums of the rows of `g`.
pub open spec fn are_row_sums<W: Real>(g: Seq<Seq<W>>, degrees: Seq<W>) -> bool {
    &&& degrees.len() == g.len()
    &&& forall|i: int| 0 <= i < g.len() ==> is_row_sum(g[i], #[trigger] degrees[i])
}

/// `v` is `g / -sqrt(di * dj)`, plus 1 on the diagonal.
pub open spec fn is_full_term<W: Real>(di: W, dj: W, g: W, diagonal: bool, v: W) -> bool {
    exists|p: W, r: W, m: W, q: W|
        is_prod(di, dj, p) && is_sqrt(p, r) && is_neg(r, m) && is_quot(g, m, q) && (if diagonal {
            exists|one: W| is_one(one) && is_sum(q, one, v)
        } else {
            v == q
        })
}

/// `l` is `I - D^-1/2 G D^-1/2`, `D` holding the degrees.
pub open spec fn is_full_normalized<W: Real>(
    g: Seq<Seq<W>>,
    degrees: Seq<W>,
    l: Seq<Seq<W>>,
) -> bool {
    &&& l.len() == g.len()
    &&& rectangular(l, g.len())
    &&& forall|i: int, j: int|
        0 <= i < g.len() && 0 <= j < g.len() ==> is_full_term(
            degrees[i],
            degrees[j],
            g[i][j],
            i == j,
            #[trigger] l[i][j],
        )
}

/// `l` is the laplacian, as a full matrix, of the graph with these edges.
pub open spec fn is_full_laplacian<W: Real>(
    lists: Seq<Seq<OutEdge<W>>>,
    degrees: Seq<W>,
    l: Seq<Seq<W>>,
) -> bool {
    exists|p: Seq<Seq<W>>, g: Seq<Seq<W>>|
        #![trigger is_symmetrized(p, g)]
        is_transition_matrix(lists, p) && is_symmetrized(p, g) && are_row_sums(g, degrees)
            && is_full_normalized(g, degrees, l)
}

/// One of the edges leads to `node`.
pub open spec fn leads_to<W>(edges: Seq<OutEdge<W>>, node: NodeIdx) -> bool {
    exists|k: int| 0 <= k < edges.len() && (#[trigger] edges[k]).node == node
}

/// The edges without those that a later edge to the same node replaces.
pub open spec fn last_edges<W>(edges: Seq<OutEdge<W>>) -> Seq<OutEdge<W>>
    decreases edges.len(),
{
    if edges.len() == 0 {
        Seq::empty()
    } else {
        let rest = last_edges(edges.drop_first());
        if leads_to(edges.drop_first(), edges.first().node) {
            rest
        } else {
            seq![edges.first()] + rest
        }
    }
}

/// The edges of the graph, without those that are replaced.
pub open spec fn graph_edges<W>(lists: Seq<Seq<OutEdge<W>>>) -> Seq<(NodeIdx, OutEdge<W>)> {
    all_edges(lists.map_values(|edges: Seq<OutEdge<W>>| last_edges(edges)))
}

/// `v` is the weight of the edge `e` out of the node `i`, or its mean with the weight of the edge
/// in the other direction where there is one.
pub open spec fn is_mutual_weight<W: Real>(
    lists: Seq<Seq<OutEdge<W>>>,
    i: NodeIdx,
    e: OutEdge<W>,
    v: W,
) -> bool {
    match last_weight(lists[e.node as int], i) {
        Some(w) => is_midpoint(e.weight, w, v),
        None => v == e.weight,
    }
}

/// The terms `a` and `b` are what an edge contributes to the symmetrized graph: its weight in both
/// directions.
pub open spec fn is_mirrored<W: Real>(
    lists: Seq<Seq<OutEdge<W>>>,
    edge: (NodeIdx, OutEdge<W>),
    a: (usize, usize, W),
    b: (usize, usize, W),
) -> bool {
    &&& a.0 == edge.0 && a.1 == edge.1.node
    &&& b.0 == edge.1.node && b.1 == edge.0
    &&& a.2 == b.2
    &&& is_mutual_weight(lists, edge.0, edge.1, a.2)
}

/// The terms of the symmetrized graph: those of the first edge, then those of the second.
pub open spec fn are_graph_terms<W: Real>(
    lists: Seq<Seq<OutEdge<W>>>,
    edges: Seq<(NodeIdx, OutEdge<W>)>,
    terms: Seq<(usize, usize, W)>,
) -> bool {
    &&& terms.len() == 2 * edges.len()
    &&& forall|k: int|
        0 <= k < edges.len() ==> is_mirrored(
            lists,
            #[trigger] edges[k],
            terms[2 * k],
            terms[2 * k + 1],
        )
}

/// The values of the terms in the row `row`.
pub open spec fn row_values<W>(terms: Seq<(usize, usize, W)>, row: int) -> Seq<W>
    decreases terms.len(),
{
    if terms.len() == 0 {
        Seq::empty()
    } else if terms.last().0 == row {
        row_values(terms.drop_last(), row).push(terms.last().2)
    } else {
        row_values(terms.drop_last(), row)
    }
}

/// The degrees are the sums of the rows of the matrix with these terms.
pub open spec fn are_term_sums<W: Real>(terms: Seq<(usize, usize, W)>, degrees: Seq<W>) -> bool {
    forall|i: int|
        0 <= i < degrees.len() ==> is_total(row_values(terms, i), #[trigger] degrees[i])
}

/// `v` is `1 - g / sqrt(di * dj)` on the diagonal and `-g / sqrt(di * dj)` elsewhere.
pub open spec fn is_sparse_term<W: Real>(di: W, dj: W, g: W, diagonal: bool, v: W) -> bool {
    exists|p: W, r: W|
        is_prod(di, dj, p) && is_sqrt(p, r) && (if diagonal {
            exists|q: W, one: W| is_quot(g, r, q) && is_one(one) && is_diff(one, q, v)
        } else {
            exists|m: W| is_neg(g, m) && is_quot(m, r, v)
        })
}

/// The terms `l` of the laplacian are the terms `g` of the graph, normalized with the degrees.
pub open spec fn are_normalized<W: Real>(
    g: Seq<(usize, usize, W)>,
    degrees: Seq<W>,
    l: Seq<(usize, usize, W)>,
) -> bool {
    &&& l.len() == g.len()
    &&& forall|t: int|
        0 <= t < g.len() ==> (#[trigger] l[t]).0 == g[t].0 && l[t].1 == g[t].1 && is_sparse_term(
            degrees[g[t].0 as int],
            degrees[g[t].1 as int],
            g[t].2,
            g[t].0 == g[t].1,
            l[t].2,
        )
}

/// A term 0 for each of the `n` coefficients on the diagonal.
pub open spec fn diagonal_terms<W>(n: nat, zero: W) -> Seq<(usize, usize, W)> {
    Seq::new(n, |i: int| (i as usize, i as usize, zero))
}

/// `l` are the terms of the laplacian, as a sparse matrix, of the graph with these edges.
pub open spec fn is_sparse_laplacian<W: Real>(
    lists: Seq<Seq<OutEdge<W>>>,
    degrees: Seq<W>,
    l: Seq<(usize, usize, W)>,
) -> bool {
    &&& degrees.len() == lists.len()
    &&& exists|g: Seq<(usize, usize, W)>, zero: W|
        #![trigger are_normalized(g + diagonal_terms(lists.len(), zero), degrees, l)]
        are_graph_terms(lists, graph_edges(lists), g) && are_term_sums(g, degrees) && is_zero(zero)
            && are_normalized(g + diagonal_terms(lists.len(), zero), degrees, l)
}

/// `laplacian` is the normalized symmetric laplacian of the graph with these edges: a full matrix
/// up to [`DENSE_LIMIT`] nodes, a sparse one beyond.
pub open spec fn is_laplacian<W: Real>(
    lists: Seq<Seq<OutEdge<W>>>,
    laplacian: LaplacianGraph<W>,
) -> bool {
    match laplacian.sym_laplacian {
        MatRepr::Full(m) => {
            &&& lists.len() <= DENSE_LIMIT
            &&& m.width() == lists.len()
            &&& is_full_laplacian(lists, laplacian.degrees@, m@)
        },
        MatRepr::Sparse(csr) => {
            &&& lists.len() > DENSE_LIMIT
            &&& csr.nbnodes == lists.len()
            &&& exists|terms: Seq<(usize, usize, W)>|
                #![trigger csr.is_made_of(terms)]
                is_sparse_laplacian(lists, laplacian.degrees@, terms) && csr.is_made_of(terms)
        },
    }
}

/// The edge lists of valid parameters lead to nodes of the graph.
pub proof fn lemma_edge_lists<W>(params: &NodeParams<W>)
    requires
        params.wf(),
    ensures
        in_range(edge_lists(params.params@), params.params@.len() as int),
{
    let lists = edge_lists(params.params@);
    assert forall|i: int, k: int| 0 <= i < lists.len() && 0 <= k < lists[i].len() implies (
    #[trigger] lists[i][k]).node < lists.len() by {
        assert(lists[i][k] == params.params@[i].edges@[k]);
    }
}

/// The row of the matrix of transition probabilities for a node with these edges.
fn transition_row<W: Real>(edges: &Vec<OutEdge<W>>, n: usize, zero: W) -> (row: Vec<W>)
    requires
        forall|k: int| 0 <= k < edges@.len() ==> (#[trigger] edges@[k]).node < n,
    ensures
        row@.len() == n,
        is_transition_row(edges@, zero, row@),
{
    let mut row: Vec<W> = Vec::new();
    for j in 0..n
        invariant
            row@.len() == j,
            forall|a: int| 0 <= a < j ==> #[trigger] row@[a] == zero,
    {
        row.push(zero);
    }
    assert(is_transition_row(edges@.take(0), zero, row@));
    for k in 0..edges.len()
        invariant
            forall|a: int| 0 <= a < edges@.len() ==> (#[trigger] edges@[a]).node < n,
            row@.len() == n,
            is_transition_row(edges@.take(k as int), zero, row@),
    {
        let e = edges[k];
        proof {
            assert(edges@.take(k + 1).drop_last() =~= edges@.take(k as int));
            assert(edges@.take(k + 1).last() == e);
        }
        let ghost before = row@;
        row.set(e.node, e.weight);
        assert forall|j: int| 0 <= j < row@.len() implies #[trigger] row@[j] == (match last_weight(
            edges@.take(k + 1),
            j as NodeIdx,
        ) {
            Some(w) => w,
            None => zero,
        }) by {
            assert(j != e.node ==> row@[j] == before[j]);
        }
    }
    assert(edges@.take(edges@.len() as int) =~= edges@);
    row
}

/// The matrix of transition probabilities, row by row.
fn transition_matrix<W: Real>(params: &NodeParams<W>) -> (p: Vec<Vec<W>>)
    requires
        params.wf(),
    ensures
        is_transition_matrix(edge_lists(params.params@), p@.map_values(|row: Vec<W>| row@)),
{
    let n: usize = params.params.len();
    let zero = W::zero();
    let mut p: Vec<Vec<W>> = Vec::new();
    for i in 0..n
        invariant
            params.wf(),
            n == params.params@.len(),
            p@.len() == i,
            forall|a: int|
                0 <= a < i ==> (#[trigger] p@[a])@.len() == n && is_transition_row(
                    params.params@[a].edges@,
                    zero,
                    p@[a]@,
                ),
    {
        let edges = &params.params[i].edges;
        assert forall|k: int| 0 <= k < edges@.len() implies (#[trigger] edges@[k]).node < n by {
            assert(params.params@[i as int].edges@[k] == edges@[k]);
        }
        p.push(transition_row(edges, n, zero));
    }
    let ghost lists = edge_lists(params.params@);
    let ghost rows = p@.map_values(|row: Vec<W>| row@);
    assert forall|i: int| 0 <= i < rows.len() implies is_transition_row(
        lists[i],
        zero,
        #[trigger] rows[i],
    ) by {
        assert(rows[i] == p@[i]@);
        assert(lists[i] == params.params@[i].edges@);
    }
    assert(rectangular(rows, n as nat));
    p
}

/// The mean of the matrix and its transpose, row by row.
fn symmetrized<W: Real>(p: &Vec<Vec<W>>) -> (g: Vec<Vec<W>>)
    requires
        rectangular(p@.map_values(|row: Vec<W>| row@), p@.len()),
    ensures
        is_symmetrized(
            p@.map_values(|row: Vec<W>| row@),
            g@.map_values(|row: Vec<W>| row@),
        ),
{
    let n: usize = p.len();
    let ghost ps = p@.map_values(|row: Vec<W>| row@);
    let mut g: Vec<Vec<W>> = Vec::new();
    for i in 0..n
        invariant
            n == p@.len(),
            ps == p@.map_values(|row: Vec<W>| row@),
            rectangular(ps, n as nat),
            g@.len() == i,
            forall|a: int| 0 <= a < i ==> (#[trigger] g@[a])@.len() == n,
            forall|a: int, b: int|
                0 <= a < i && 0 <= b < n ==> is_midpoint(
                    ps[a][b],
                    ps[b][a],
                    #[trigger] g@[a]@[b],
                ),
    {
        let mut row: Vec<W> = Vec::new();
        for j in 0..n
            invariant
                i < n,
                n == p@.len(),
                ps == p@.map_values(|row: Vec<W>| row@),
                rectangular(ps, n as nat),
                row@.len() == j,
                forall|b: int|
                    0 <= b < j ==> is_midpoint(
                        ps[i as int][b],
                        ps[b][i as int],
                        #[trigger] row@[b],
                    ),
        {
            assert(ps[i as int] == p@[i as int]@ && ps[j as int] == p@[j as int]@);
            assert(ps[i as int].len() == n && ps[j as int].len() == n);
            row.push(midpoint(p[i][j], p[j][i]));
        }
        g.push(row);
    }
    let ghost gs = g@.map_values(|row: Vec<W>| row@);
    assert forall|i: int, j: int| 0 <= i < n && 0 <= j < n implies is_midpoint(
        ps[i][j],
        ps[j][i],
        #[trigger] gs[i][j],
    ) by {
        assert(gs[i] == g@[i]@);
        assert(is_midpoint(ps[i][j], ps[j][i], g@[i]@[j]));
    }
    g
}

/// The sums of the rows of a square matrix. They are taken by `ndarray`: `Array2::from_shape_vec` makes an array of
/// the rows, of at most `isize::MAX` numbers, and `ArrayBase::sum_axis` sums along its second axis, on which the
/// numbers of a row are neighbours in memory. What is stated of it: each sum is that of a row, and in which order
/// the numbers are added. The additions are those of [`Summand`], and each lane starts from its zero.
#[verifier::external_body]
pub(crate) fn row_sums<W: Real>(g: &Vec<Vec<W>>) -> (degrees: Vec<W>)
    requires
        rectangular(g@.map_values(|row: Vec<W>| row@), g@.len()),
        g@.len() * g@.len() <= isize::MAX,
    ensures
        are_row_sums(g@.map_values(|row: Vec<W>| row@), degrees@),
{
    let cells: Vec<Summand<W>> = g.iter().flatten().map(|x| Summand(*x)).collect();
    let table = ndarray::Array2::from_shape_vec((g.len(), g.len()), cells).unwrap();
    table.sum_axis(ndarray::Axis(1)).into_iter().map(|sum| sum.0).collect()
}

fn full_term<W: Real>(di: W, dj: W, g: W, diagonal: bool) -> (v: W)
    ensures
        is_full_term(di, dj, g, diagonal, v),
{
    let m = di.times(dj).sqrt().negated();
    let q = g.over(m);
    if diagonal {
        q.plus(W::one())
    } else {
        q
    }
}

/// The laplacian of the symmetrized graph `g`, row by row.
fn full_normalized<W: Real>(g: &Vec<Vec<W>>, degrees: &Vec<W>) -> (l: Vec<Vec<W>>)
    requires
        rectangular(g@.map_values(|row: Vec<W>| row@), g@.len()),
        degrees@.len() == g@.len(),
    ensures
        is_full_normalized(
            g@.map_values(|row: Vec<W>| row@),
            degrees@,
            l@.map_values(|row: Vec<W>| row@),
        ),
{
    let n: usize = g.len();
    let ghost gs = g@.map_values(|row: Vec<W>| row@);
    let mut l: Vec<Vec<W>> = Vec::new();
    for i in 0..n
        invariant
            n == g@.len(),
            degrees@.len() == n,
            gs == g@.map_values(|row: Vec<W>| row@),
            rectangular(gs, n as nat),
            l@.len() == i,
            forall|a: int| 0 <= a < i ==> (#[trigger] l@[a])@.len() == n,
            forall|a: int, b: int|
                0 <= a < i && 0 <= b < n ==> is_full_term(
                    degrees@[a],
                    degrees@[b],
                    gs[a][b],
                    a == b,
                    #[trigger] l@[a]@[b],
                ),
    {
        let mut row: Vec<W> = Vec::new();
        for j in 0..n
            invariant
                i < n,
                n == g@.len(),
                degrees@.len() == n,
                gs == g@.map_values(|row: Vec<W>| row@),
                rectangular(gs, n as nat),
                row@.len() == j,
                forall|b: int|
                    0 <= b < j ==> is_full_term(
                        degrees@[i as int],
                        degrees@[b],
                        gs[i as int][b],
                        i == b,
                        #[trigger] row@[b],
                    ),
        {
            assert(gs[i as int] == g@[i as int]@);
            assert(gs[i as int].len() == n);
            row.push(full_term(degrees[i], degrees[j], g[i][j], i == j));
        }
        l.push(row);
    }
    let ghost ls = l@.map_values(|row: Vec<W>| row@);
    assert forall|i: int, j: int| 0 <= i < n && 0 <= j < n implies is_full_term(
        degrees@[i],
        degrees@[j],
        gs[i][j],
        i == j,
        #[trigger] ls[i][j],
    ) by {
        assert(ls[i] == l@[i]@);
        assert(is_full_term(degrees@[i], degrees@[j], gs[i][j], i == j, l@[i]@[j]));
    }
    l
}

/// The laplacian as a full matrix. The graph is symmetrized by taking the mean of the two
/// directions; then `I - D^-1/2 G D^-1/2` is computed, `D` holding the sums of the rows.
pub fn full_laplacian<W: Real>(params: &NodeParams<W>) -> (res: (Matrix<W>, Vec<W>))
    requires
        params.wf(),
        params.params@.len() * params.params@.len() <= isize::MAX,
    ensures
        res.0.width() == params.params@.len(),
        is_full_laplacian(edge_lists(params.params@), res.1@, res.0@),
{
    let p = transition_matrix(params);
    let g = symmetrized(&p);
    let degrees = row_sums(&g);
    let l = full_normalized(&g, &degrees);
    let ghost ps = p@.map_values(|row: Vec<W>| row@);
    let ghost gs = g@.map_values(|row: Vec<W>| row@);
    assert(is_symmetrized(ps, gs));
    (Matrix::new(params.params.len(), l), degrees)
}

/// Whether one of the edges from the index `from` on leads to `node`.
fn later_edge<W>(edges: &Vec<OutEdge<W>>, from: usize, node: NodeIdx) -> (res: bool)
    requires
        from <= edges@.len(),
    ensures
        res == leads_to(edges@.skip(from as int), node),
{
    let ghost later = edges@.skip(from as int);
    for k in from..edges.len()
        invariant
            from <= edges@.len(),
            later == edges@.skip(from as int),
            forall|j: int| from <= j < k ==> (#[trigger] edges@[j]).node != node,
    {
        if edges[k].node == node {
            assert(later[k - from].node == node);
            return true;
        }
    }
    assert forall|j: int| 0 <= j < later.len() implies (#[trigger] later[j]).node != node by {
        assert(later[j] == edges@[from + j]);
    }
    false
}

/// The weight of the last edge that leads to `node`.
fn find_weight<W: Copy>(edges: &Vec<OutEdge<W>>, node: NodeIdx) -> (res: Option<W>)
    ensures
        res == last_weight(edges@, node),
{
    let mut res: Option<W> = None;
    for k in 0..edges.len()
        invariant
            res == last_weight(edges@.take(k as int), node),
    {
        proof {
            assert(edges@.take(k + 1).drop_last() =~= edges@.take(k as int));
            assert(edges@.take(k + 1).last() == edges@[k as int]);
        }
        if edges[k].node == node {
            res = Some(edges[k].weight);
        }
    }
    assert(edges@.take(edges@.len() as int) =~= edges@);
    res
}

/// The edges of the graph, without those that are replaced.
fn collect_edges<W: Copy>(params: &NodeParams<W>) -> (edges: Vec<(NodeIdx, OutEdge<W>)>)
    ensures
        edges@ == graph_edges(edge_lists(params.params@)),
{
    let ghost lists = edge_lists(params.params@);
    let ghost kept = lists.map_values(|edges: Seq<OutEdge<W>>| last_edges(edges));
    let n: usize = params.params.len();
    let mut edges: Vec<(NodeIdx, OutEdge<W>)> = Vec::new();
    for i in 0..n
        invariant
            n == params.params@.len(),
            lists == edge_lists(params.params@),
            kept == lists.map_values(|edges: Seq<OutEdge<W>>| last_edges(edges)),
            edges@ == all_edges(kept.take(i as int)),
    {
        let list = &params.params[i].edges;
        let ghost before = edges@;
        assert(list@.skip(0) =~= list@);
        assert(before + tagged(i, last_edges(list@)) =~= edges@ + tagged(i, last_edges(list@.skip(0))));
        for k in 0..list.len()
            invariant
                before + tagged(i, last_edges(list@)) == edges@ + tagged(
                    i,
                    last_edges(list@.skip(k as int)),
                ),
        {
            let ghost rest = list@.skip(k as int);
            let ghost last = last_edges(rest.drop_first());
            assert(rest.drop_first() =~= list@.skip(k + 1));
            assert(rest.first() == list@[k as int]);
            let e = list[k];
            if !later_edge(list, k + 1, e.node) {
                let ghost prior = edges@;
                edges.push((i, e));
                assert(prior + tagged(i, seq![e] + last) =~= edges@ + tagged(i, last));
            }
        }
        proof {
            assert(list@.skip(list@.len() as int) =~= Seq::empty());
            assert(edges@ + tagged(i, last_edges(Seq::<OutEdge<W>>::empty())) =~= edges@);
            assert(kept.take(i + 1).drop_last() =~= kept.take(i as int));
            assert(kept.take(i + 1).last() == last_edges(list@));
        }
    }
    assert(kept.take(n as int) =~= kept);
    edges
}

impl<W: Real> Triplets<W> {
    /// Adds a term to the matrix and to the degree of its row.
    fn add_term(&mut self, degrees: &mut Vec<W>, row: usize, col: usize, value: W)
        requires
            old(self).wf(),
            row < old(degrees)@.len(),
            are_term_sums(old(self).terms(), old(degrees)@),
        ensures
            final(self).wf(),
            final(self).nbnodes == old(self).nbnodes,
            final(self).terms() == old(self).terms().push((row, col, value)),
            final(degrees)@.len() == old(degrees)@.len(),
            are_term_sums(final(self).terms(), final(degrees)@),
    {
        let ghost before = self.terms();
        let ghost prior = degrees@;
        self.rows.push(row);
        self.cols.push(col);
        self.values.push(value);
        let degree = degrees[row].plus(value);
        degrees.set(row, degree);
        proof {
            let after = self.terms();
            assert(after =~= before.push((row, col, value)));
            assert(after.drop_last() =~= before);
            assert forall|i: int| 0 <= i < degrees@.len() implies is_total(
                row_values(after, i),
                #[trigger] degrees@[i],
            ) by {
                assert(is_total(row_values(before, i), prior[i]));
                if i == row {
                    lemma_total_push(row_values(before, i), prior[i], value, degree);
                }
            }
        }
    }
}

fn mutual_weight<W: Real>(params: &NodeParams<W>, i: NodeIdx, e: OutEdge<W>) -> (v: W)
    requires
        e.node < params.params@.len(),
    ensures
        is_mutual_weight(edge_lists(params.params@), i, e, v),
{
    match find_weight(&params.params[e.node].edges, i) {
        Some(w) => midpoint(e.weight, w),
        None => e.weight,
    }
}

fn sparse_term<W: Real>(di: W, dj: W, g: W, diagonal: bool) -> (v: W)
    ensures
        is_sparse_term(di, dj, g, diagonal, v),
{
    let r = di.times(dj).sqrt();
    if diagonal {
        let q = g.over(r);
        W::one().minus(q)
    } else {
        g.negated().over(r)
    }
}

/// Removing replaced edges leaves edges of the same list.
proof fn lemma_last_edges_subset<W>(edges: Seq<OutEdge<W>>, e: OutEdge<W>)
    requires
        last_edges(edges).contains(e),
    ensures
        edges.contains(e),
    decreases edges.len(),
{
    if edges.len() > 0 {
        let rest = last_edges(edges.drop_first());
        let k = choose|k: int| 0 <= k < last_edges(edges).len() && last_edges(edges)[k] == e;
        if !leads_to(edges.drop_first(), edges.first().node) && k == 0 {
            assert(e == edges[0]);
        } else {
            let m = if leads_to(edges.drop_first(), edges.first().node) {
                k
            } else {
                k - 1
            };
            assert(rest[m] == e);
            lemma_last_edges_subset(edges.drop_first(), e);
            let j = choose|j: int|
                0 <= j < edges.drop_first().len() && edges.drop_first()[j] == e;
            assert(edges[j + 1] == e);
        }
    }
}

/// An edge of the graph starts from and leads to nodes of the graph.
pub proof fn lemma_graph_edge<W>(lists: Seq<Seq<OutEdge<W>>>, k: int)
    requires
        lists.len() <= NodeIdx::MAX,
        in_range(lists, lists.len() as int),
        0 <= k < graph_edges(lists).len(),
    ensures
        graph_edges(lists)[k].0 < lists.len(),
        graph_edges(lists)[k].1.node < lists.len(),
        lists[graph_edges(lists)[k].0 as int].contains(graph_edges(lists)[k].1),
{
    let kept = lists.map_values(|edges: Seq<OutEdge<W>>| last_edges(edges));
    law_all_edges_sound(kept, k);
    let (i, e) = graph_edges(lists)[k];
    assert(kept[i as int] == last_edges(lists[i as int]));
    lemma_last_edges_subset(lists[i as int], e);
    let j = choose|j: int| 0 <= j < lists[i as int].len() && lists[i as int][j] == e;
    assert(lists[i as int][j].node < lists.len());
}

/// The terms of the symmetrized graph, and its degrees.
fn graph_terms<W: Real>(params: &NodeParams<W>) -> (res: (Triplets<W>, Vec<W>))
    requires
        params.wf(),
    ensures
        res.0.wf(),
        res.0.nbnodes == params.params@.len(),
        are_graph_terms(
            edge_lists(params.params@),
            graph_edges(edge_lists(params.params@)),
            res.0.terms(),
        ),
        res.1@.len() == params.params@.len(),
        are_term_sums(res.0.terms(), res.1@),
{
    let n: usize = params.params.len();
    let ghost lists = edge_lists(params.params@);
    proof {
        lemma_edge_lists(params);
    }
    let edges = collect_edges(params);
    let zero = W::zero();
    let mut degrees: Vec<W> = Vec::new();
    for i in 0..n
        invariant
            is_zero(zero),
            degrees@.len() == i,
            forall|a: int| 0 <= a < i ==> #[trigger] degrees@[a] == zero,
    {
        degrees.push(zero);
    }
    let mut g = Triplets { nbnodes: n, rows: Vec::new(), cols: Vec::new(), values: Vec::new() };
    proof {
        assert(g.terms() =~= Seq::empty());
        assert forall|i: int| 0 <= i < degrees@.len() implies is_total(
            row_values(g.terms(), i),
            #[trigger] degrees@[i],
        ) by {
            assert(degrees@[i] == zero);
            assert(sums_to(zero, row_values(g.terms(), i), zero));
        }
    }
    for k in 0..edges.len()
        invariant
            n == params.params@.len(),
            lists == edge_lists(params.params@),
            lists.len() == n,
            in_range(lists, n as int),
            edges@ == graph_edges(lists),
            g.wf(),
            g.nbnodes == n,
            degrees@.len() == n,
            are_term_sums(g.terms(), degrees@),
            g.terms().len() == 2 * k,
            forall|a: int|
                0 <= a < k ==> is_mirrored(
                    lists,
                    #[trigger] edges@[a],
                    g.terms()[2 * a],
                    g.terms()[2 * a + 1],
                ),
    {
        let (i, e) = edges[k];
        proof {
            lemma_graph_edge(lists, k as int);
        }
        let v = mutual_weight(params, i, e);
        let ghost before = g.terms();
        g.add_term(&mut degrees, i, e.node, v);
        g.add_term(&mut degrees, e.node, i, v);
        assert(g.terms() =~= before.push((i, e.node, v)).push((e.node, i, v)));
    }
    (g, degrees)
}

/// The terms of the laplacian as a sparse matrix. An edge enters the graph in both directions, with its weight,
/// or with the mean of the weights where the graph has the edge in the other direction too; then
/// `I - D^-1/2 G D^-1/2` is computed, `D` holding the sums of the rows.
fn sparse_terms<W: Real>(params: &NodeParams<W>) -> (res: (Triplets<W>, Vec<W>))
    requires
        params.wf(),
    ensures
        res.0.wf(),
        res.0.nbnodes == params.params@.len(),
        is_sparse_laplacian(edge_lists(params.params@), res.1@, res.0.terms()),
{
    let n: usize = params.params.len();
    let (mut l, degrees) = graph_terms(params);
    let ghost lists = edge_lists(params.params@);
    let ghost g = l.terms();
    let zero = W::zero();
    for i in 0..n
        invariant
            l.wf(),
            l.nbnodes == n,
            l.terms() == g + diagonal_terms(i as nat, zero),
    {
        let ghost before = l.terms();
        l.rows.push(i);
        l.cols.push(i);
        l.values.push(zero);
        assert(l.terms() =~= before.push((i, i, zero)));
        assert(l.terms() =~= g + diagonal_terms((i + 1) as nat, zero));
    }
    let ghost full = l.terms();
    proof {
        lemma_edge_lists(params);
        assert forall|t: int| 0 <= t < full.len() implies (#[trigger] full[t]).0 < n && full[t].1
            < n by {
            if t < g.len() {
                let edges = graph_edges(lists);
                lemma_graph_edge(lists, t / 2);
                assert(is_mirrored(lists, edges[t / 2], g[2 * (t / 2)], g[2 * (t / 2) + 1]));
                assert(full[t] == g[t]);
            }
        }
    }
    let m: usize = l.values.len();
    for t in 0..m
        invariant
            m == full.len(),
            l.wf(),
            l.nbnodes == n,
            degrees@.len() == n,
            l.values@.len() == full.len(),
            forall|a: int|
                0 <= a < full.len() ==> (#[trigger] full[a]).0 < n && full[a].1 < n && l.rows@[a]
                    == full[a].0 && l.cols@[a] == full[a].1,
            forall|a: int| t <= a < full.len() ==> #[trigger] l.values@[a] == full[a].2,
            forall|a: int|
                0 <= a < t ==> is_sparse_term(
                    degrees@[full[a].0 as int],
                    degrees@[full[a].1 as int],
                    full[a].2,
                    full[a].0 == full[a].1,
                    #[trigger] l.values@[a],
                ),
    {
        assert(full[t as int].0 < n);
        let row: usize = l.rows[t];
        let col: usize = l.cols[t];
        let v = sparse_term(degrees[row], degrees[col], l.values[t], row == col);
        l.values.set(t, v);
    }
    proof {
        let terms = l.terms();
        assert forall|t: int| 0 <= t < full.len() implies (#[trigger] terms[t]).0 == full[t].0
            && terms[t].1 == full[t].1 && is_sparse_term(
            degrees@[full[t].0 as int],
            degrees@[full[t].1 as int],
            full[t].2,
            full[t].0 == full[t].1,
            terms[t].2,
        ) by {
            assert(terms[t].2 == l.values@[t]);
            assert(full[t].0 < n);
        }
        assert(are_normalized(g + diagonal_terms(lists.len(), zero), degrees@, terms));
    }
    (l, degrees)
}

/// The laplacian as a sparse matrix, of a graph without loops. An edge enters the graph in both
/// directions, with its weight, or with the mean of the weights where the graph has the edge in the
/// other direction too; then `I - D^-1/2 G D^-1/2` is computed, `D` holding the sums of the rows.
pub fn sparse_laplacian<W: Real>(params: &NodeParams<W>) -> (res: (CsrMatrix<W>, Vec<W>))
    requires
        params.wf(),
        params.params@.len() < NodeIdx::MAX,
        no_loop(edge_lists(params.params@)),
    ensures
        res.0.nbnodes == params.params@.len(),
        exists|terms: Seq<(usize, usize, W)>|
            #![trigger res.0.is_made_of(terms)]
            is_sparse_laplacian(edge_lists(params.params@), res.1@, terms) && res.0.is_made_of(
                terms,
            ),
{
    let (triplets, degrees) = sparse_terms(params);
    let ghost terms = triplets.terms();
    proof {
        lemma_edge_lists(params);
        assert forall|t: int| 0 <= t < terms.len() implies (#[trigger] terms[t]).0
            < triplets.nbnodes && terms[t].1 < triplets.nbnodes by {
            law_sparse_laplacian_in_range(edge_lists(params.params@), degrees@, terms, t);
        }
    }
    let csr = compressed(triplets);
    assert(csr.is_made_of(terms));
    (csr, degrees)
}

/// Every term of the sparse laplacian stands in a row and a column of the matrix.
pub proof fn law_sparse_laplacian_in_range<W: Real>(
    lists: Seq<Seq<OutEdge<W>>>,
    degrees: Seq<W>,
    l: Seq<(usize, usize, W)>,
    t: int,
)
    requires
        lists.len() <= NodeIdx::MAX,
        in_range(lists, lists.len() as int),
        is_sparse_laplacian(lists, degrees, l),
        0 <= t < l.len(),
    ensures
        l[t].0 < lists.len(),
        l[t].1 < lists.len(),
{
    let edges = graph_edges(lists);
    let (g, zero) = choose|g: Seq<(usize, usize, W)>, zero: W|
        #![trigger are_normalized(g + diagonal_terms(lists.len(), zero), degrees, l)]
        are_graph_terms(lists, edges, g) && are_term_sums(g, degrees) && is_zero(zero)
            && are_normalized(g + diagonal_terms(lists.len(), zero), degrees, l);
    let full = g + diagonal_terms(lists.len(), zero);
    assert(l[t].0 == full[t].0);
    if t < g.len() {
        lemma_graph_edge(lists, t / 2);
        assert(is_mirrored(lists, edges[t / 2], g[2 * (t / 2)], g[2 * (t / 2) + 1]));
        assert(full[t] == g[t]);
    }
}

/// The weight of the last edge to a node, looked for from the front.
proof fn lemma_last_weight_front<W>(edges: Seq<OutEdge<W>>, node: NodeIdx)
    requires
        edges.len() > 0,
    ensures
        last_weight(edges, node) == (if leads_to(edges.drop_first(), node) {
            last_weight(edges.drop_first(), node)
        } else if edges.first().node == node {
            Some(edges.first().weight)
        } else {
            None
        }),
        leads_to(edges, node) == (edges.first().node == node || leads_to(
            edges.drop_first(),
            node,
        )),
    decreases edges.len(),
{
    let rest = edges.drop_first();
    if leads_to(rest, node) {
        let k = choose|k: int| 0 <= k < rest.len() && (#[trigger] rest[k]).node == node;
        assert(edges[k + 1].node == node);
    }
    if leads_to(edges, node) {
        let k = choose|k: int| 0 <= k < edges.len() && (#[trigger] edges[k]).node == node;
        assert(k > 0 ==> rest[k - 1].node == node);
    }
    if edges.len() == 1 {
        assert(last_weight(edges.drop_last(), node) is None);
    } else {
        let front = edges.drop_last();
        lemma_last_weight_front(front, node);
        assert(front.drop_first() =~= rest.drop_last());
        assert(rest.last() == edges.last());
        if leads_to(front.drop_first(), node) {
            let k = choose|k: int|
                0 <= k < front.drop_first().len() && (#[trigger] front.drop_first()[k]).node
                    == node;
            assert(rest[k].node == node);
        }
        if edges.last().node == node {
            assert(rest[rest.len() - 1].node == node);
        } else if leads_to(rest, node) {
            let k = choose|k: int| 0 <= k < rest.len() && (#[trigger] rest[k]).node == node;
            assert(front.drop_first()[k].node == node);
        }
    }
}

/// The edges that are kept of a list lead to different nodes, and to the same nodes as the whole
/// list; each of them carries the weight of the last edge of the list to its node.
pub proof fn law_last_edges<W>(edges: Seq<OutEdge<W>>)
    ensures
        forall|a: int, b: int|
            0 <= a < b < last_edges(edges).len() ==> (#[trigger] last_edges(edges)[a]).node != (
            #[trigger] last_edges(edges)[b]).node,
        forall|a: int|
            0 <= a < last_edges(edges).len() ==> last_weight(
                edges,
                (#[trigger] last_edges(edges)[a]).node,
            ) == Some(last_edges(edges)[a].weight),
        forall|node: NodeIdx|
            #[trigger] leads_to(edges, node) ==> leads_to(last_edges(edges), node),
    decreases edges.len(),
{
    if edges.len() > 0 {
        let first = edges.first();
        let later = edges.drop_first();
        let rest = last_edges(later);
        let kept = last_edges(edges);
        law_last_edges(later);
        let shift: int = if leads_to(later, first.node) {
            0
        } else {
            1
        };
        assert forall|a: int| 0 <= a < rest.len() implies leads_to(
            later,
            (#[trigger] rest[a]).node,
        ) by {
            assert(rest.contains(rest[a]));
            lemma_last_edges_subset(later, rest[a]);
            let j = choose|j: int| 0 <= j < later.len() && later[j] == rest[a];
            assert(later[j].node == rest[a].node);
        }
        assert forall|a: int| shift <= a < kept.len() implies #[trigger] kept[a] == rest[a
            - shift] by {}
        assert forall|a: int| 0 <= a < kept.len() implies last_weight(
            edges,
            (#[trigger] kept[a]).node,
        ) == Some(kept[a].weight) by {
            lemma_last_weight_front(edges, kept[a].node);
            if a >= shift {
                assert(leads_to(later, rest[a - shift].node));
            }
        }
        assert forall|a: int, b: int| 0 <= a < b < kept.len() implies (#[trigger] kept[a]).node != (
        #[trigger] kept[b]).node by {
            assert(leads_to(later, rest[b - shift].node));
        }
        assert forall|node: NodeIdx| #[trigger] leads_to(edges, node) implies leads_to(
            kept,
            node,
        ) by {
            lemma_last_weight_front(edges, node);
            if leads_to(later, node) {
                assert(leads_to(rest, node));
                let k = choose|k: int| 0 <= k < rest.len() && (#[trigger] rest[k]).node == node;
                assert(kept[k + shift].node == node);
            } else {
                assert(kept[0].node == node);
            }
        }
    }
}

/// No edge leads to `node`, and so none has a weight.
proof fn lemma_no_weight<W>(edges: Seq<OutEdge<W>>, node: NodeIdx)
    requires
        forall|k: int| 0 <= k < edges.len() ==> (#[trigger] edges[k]).node != node,
    ensures
        last_weight(edges, node) is None,
    decreases edges.len(),
{
    if edges.len() > 0 {
        assert(edges[edges.len() - 1].node != node);
        assert forall|k: int| 0 <= k < edges.drop_last().len() implies (
        #[trigger] edges.drop_last()[k]).node != node by {
            assert(edges[k].node != node);
        }
        lemma_no_weight(edges.drop_last(), node);
    }
}

/// In a graph without loops a transition from a node to itself has probability 0.
pub proof fn law_no_transition_to_self<W: Real>(
    lists: Seq<Seq<OutEdge<W>>>,
    p: Seq<Seq<W>>,
    i: int,
)
    requires
        lists.len() <= NodeIdx::MAX,
        no_loop(lists),
        is_transition_matrix(lists, p),
        0 <= i < lists.len(),
    ensures
        is_zero(p[i][i]),
{
    assert forall|k: int| 0 <= k < lists[i].len() implies (#[trigger] lists[i][k]).node
        != i as NodeIdx by {}
    lemma_no_weight(lists[i], i as NodeIdx);
    assert(p[i].len() == lists.len());
}

} // verus!
