//! The graph of nearest neighbours that is to be embedded.
use vstd::prelude::*;

verus! {

/// Nodes are numbered from 0.
pub type NodeIdx = usize;

/// An edge out of a node: the node that it leads to and its weight, a distance or a
/// probability.
#[derive(Clone, Copy, Debug)]
pub struct OutEdge<T> {
    pub node: NodeIdx,
    pub weight: T,
}

impl<T> OutEdge<T> {
    pub fn new(node: NodeIdx, weight: T) -> (edge: OutEdge<T>)
        ensures
            edge == (OutEdge { node, weight }),
    {
        OutEdge { node, weight }
    }
}

/// For each node the edges to its nearest neighbours, weighted by distance, the
/// nearest neighbour first.
pub struct KGraph<F> {
    pub neighbours: Vec<Vec<OutEdge<F>>>,
}

impl<F> KGraph<F> {
    /// The nodes can be numbered, every node has a neighbour, and every edge leads to a node of the
    /// graph.
    pub open spec fn wf(&self) -> bool {
        &&& self.neighbours@.len() < NodeIdx::MAX
        &&& forall|i: int|
            0 <= i < self.neighbours@.len() ==> (#[trigger] self.neighbours@[i])@.len() > 0
        &&& forall|i: int, k: int|
            0 <= i < self.neighbours@.len() && 0 <= k < self.neighbours@[i]@.len() ==> (
            #[trigger] self.neighbours@[i]@[k]).node < self.neighbours@.len()
    }

    /// No edge leads from a node back to itself.
    pub open spec fn loop_free(&self) -> bool {
        forall|i: int, k: int|
            0 <= i < self.neighbours@.len() && 0 <= k < self.neighbours@[i]@.len() ==> (
            #[trigger] self.neighbours@[i]@[k]).node != i
    }

    /// The number of nodes.
    pub fn get_nb_nodes(&self) -> (n: usize)
        ensures
            n == self.neighbours@.len(),
    {
        self.neighbours.len()
    }

    /// The edges out of each node.
    pub fn get_neighbours(&self) -> (neighbours: &Vec<Vec<OutEdge<F>>>)
        ensures
            *neighbours == self.neighbours,
    {
        &self.neighbours
    }

    /// Whether the nodes can be numbered, every node has a neighbour and every edge leads to a node
    /// of the graph.
    pub fn is_well_formed(&self) -> (res: bool)
        ensures
            res == self.wf(),
    {
        let n: usize = self.neighbours.len();
        if n == NodeIdx::MAX {
            return false;
        }
        for i in 0..n
            invariant
                n < NodeIdx::MAX,
                n == self.neighbours@.len(),
                forall|a: int| 0 <= a < i ==> (#[trigger] self.neighbours@[a])@.len() > 0,
                forall|a: int, b: int|
                    0 <= a < i && 0 <= b < self.neighbours@[a]@.len() ==> (
                    #[trigger] self.neighbours@[a]@[b]).node < n,
        {
            let edges = &self.neighbours[i];
            if edges.len() == 0 {
                return false;
            }
            for k in 0..edges.len()
                invariant
                    i < n,
                    n == self.neighbours@.len(),
                    edges == self.neighbours@[i as int],
                    forall|b: int| 0 <= b < k ==> (#[trigger] edges@[b]).node < n,
            {
                if edges[k].node >= n {
                    assert(self.neighbours@[i as int]@[k as int] == edges@[k as int]);
                    return false;
                }
            }
        }
        true
    }

    /// Whether no edge leads from a node back to itself.
    pub fn is_loop_free(&self) -> (res: bool)
        ensures
            res == self.loop_free(),
    {
        let n: usize = self.neighbours.len();
        for i in 0..n
            invariant
                n == self.neighbours@.len(),
                forall|a: int, b: int|
                    0 <= a < i && 0 <= b < self.neighbours@[a]@.len() ==> (
                    #[trigger] self.neighbours@[a]@[b]).node != a,
        {
            let edges = &self.neighbours[i];
            for k in 0..edges.len()
                invariant
                    i < n,
                    n == self.neighbours@.len(),
                    edges == self.neighbours@[i as int],
                    forall|b: int| 0 <= b < k ==> (#[trigger] edges@[b]).node != i,
            {
                if edges[k].node == i {
                    assert(self.neighbours@[i as int]@[k as int] == edges@[k as int]);
                    return false;
                }
            }
        }
        true
    }
}

/// The edges, each with the node `i` that it starts from.
pub open spec fn tagged<T>(i: NodeIdx, edges: Seq<OutEdge<T>>) -> Seq<(NodeIdx, OutEdge<T>)> {
    edges.map_values(|e: OutEdge<T>| (i, e))
}

/// The edges of a graph, `lists[i]` being those out of the node `i`: first those out of the first
/// node, each with the node that it starts from.
pub open spec fn all_edges<T>(lists: Seq<Seq<OutEdge<T>>>) -> Seq<(NodeIdx, OutEdge<T>)>
    decreases lists.len(),
{
    if lists.len() == 0 {
        Seq::empty()
    } else {
        all_edges(lists.drop_last()) + tagged((lists.len() - 1) as NodeIdx, lists.last())
    }
}

/// Every edge leads to one of `n` nodes.
pub open spec fn in_range<T>(lists: Seq<Seq<OutEdge<T>>>, n: int) -> bool {
    forall|i: int, k: int|
        0 <= i < lists.len() && 0 <= k < lists[i].len() ==> (#[trigger] lists[i][k]).node < n
}

/// No edge leads from a node back to itself.
pub open spec fn no_loop<T>(lists: Seq<Seq<OutEdge<T>>>) -> bool {
    forall|i: int, k: int|
        0 <= i < lists.len() && 0 <= k < lists[i].len() ==> (#[trigger] lists[i][k]).node != i
}

/// The list of all edges of a graph holds no edge but those out of its nodes, each with the node
/// that it starts from.
pub proof fn law_all_edges_sound<T>(lists: Seq<Seq<OutEdge<T>>>, k: int)
    requires
        lists.len() <= NodeIdx::MAX,
        0 <= k < all_edges(lists).len(),
    ensures
        ({
            let (i, e) = all_edges(lists)[k];
            i < lists.len() && lists[i as int].contains(e)
        }),
    decreases lists.len(),
{
    let front = all_edges(lists.drop_last());
    if k < front.len() {
        law_all_edges_sound(lists.drop_last(), k);
        let (i, e) = front[k];
        assert(lists.drop_last()[i as int] == lists[i as int]);
    } else {
        let e = lists.last()[k - front.len()];
        assert(all_edges(lists)[k] == ((lists.len() - 1) as NodeIdx, e));
        assert(lists.last().contains(e));
    }
}

/// The list of all edges of a graph holds every edge out of every node.
pub proof fn law_all_edges_complete<T>(lists: Seq<Seq<OutEdge<T>>>, i: int, k: int)
    requires
        lists.len() <= NodeIdx::MAX,
        0 <= i < lists.len(),
        0 <= k < lists[i].len(),
    ensures
        all_edges(lists).contains((i as NodeIdx, lists[i][k])),
    decreases lists.len(),
{
    let front = all_edges(lists.drop_last());
    if i < lists.len() - 1 {
        law_all_edges_complete(lists.drop_last(), i, k);
        let edge = (i as NodeIdx, lists[i][k]);
        let m = choose|m: int| 0 <= m < front.len() && front[m] == edge;
        assert(all_edges(lists)[m] == edge);
    } else {
        assert(all_edges(lists)[front.len() + k] == (i as NodeIdx, lists[i][k]));
    }
}

/// A graph passes the check of its form where its nodes can be numbered, each has a neighbour, and
/// every edge leads to one of them.
pub proof fn law_is_well_formed<F>(graph: &KGraph<F>, res: bool)
    requires
        call_ensures(KGraph::<F>::is_well_formed, (graph,), res),
    ensures
        ({
            let n = graph.neighbours@.len();
            res <==> n < NodeIdx::MAX && forall|i: int| #![trigger graph.neighbours@[i]]
                0 <= i < n ==> graph.neighbours@[i]@.len() > 0 && forall|k: int|
                    0 <= k < graph.neighbours@[i]@.len() ==> (#[trigger] graph.neighbours@[i]@[k]).node < n
        }),
{
}

/// A graph passes the check for loops where no node is its own neighbour.
pub proof fn law_is_loop_free<F>(graph: &KGraph<F>, res: bool)
    requires
        call_ensures(KGraph::<F>::is_loop_free, (graph,), res),
    ensures
        !res <==> exists|i: int, k: int|
            0 <= i < graph.neighbours@.len() && 0 <= k < graph.neighbours@[i]@.len() && (
            #[trigger] graph.neighbours@[i]@[k]).node == i,
{
}

/// How many edges start from the nodes before the node `i`.
pub open spec fn edges_before<T>(lists: Seq<Seq<OutEdge<T>>>, i: nat) -> nat
    decreases i,
{
    if i == 0 {
        0
    } else {
        edges_before(lists, (i - 1) as nat) + lists[i - 1].len()
    }
}

proof fn lemma_edges_before<T>(a: Seq<Seq<OutEdge<T>>>, b: Seq<Seq<OutEdge<T>>>, i: nat)
    requires
        i <= a.len() <= b.len(),
        forall|k: int| 0 <= k < a.len() ==> #[trigger] a[k] == b[k],
    ensures
        edges_before(a, i) == edges_before(b, i),
    decreases i,
{
    if i > 0 {
        lemma_edges_before(a, b, (i - 1) as nat);
        assert(a[i - 1] == b[i - 1]);
    }
}

/// In the list of all edges of a graph the edges out of the first node come first, then those out
/// of the second, each once and in order: the edge `k` out of the node `i` comes after all edges
/// out of the nodes before it and the `k` edges before it.
pub proof fn law_all_edges_in_order<T>(lists: Seq<Seq<OutEdge<T>>>, i: int, k: int)
    requires
        lists.len() <= NodeIdx::MAX,
    ensures
        all_edges(lists).len() == edges_before(lists, lists.len()),
        0 <= i < lists.len() && 0 <= k < lists[i].len() ==> {
            let m = edges_before(lists, i as nat) + k;
            m < all_edges(lists).len() && all_edges(lists)[m] == (i as NodeIdx, lists[i][k])
        },
    decreases lists.len(),
{
    if lists.len() > 0 {
        let front = lists.drop_last();
        law_all_edges_in_order(front, i, k);
        lemma_edges_before(front, lists, front.len());
        if 0 <= i < front.len() && 0 <= k < lists[i].len() {
            lemma_edges_before(front, lists, i as nat);
            assert(front[i] == lists[i]);
        }
    }
}

/// A graph has as many nodes as it has lists of edges.
pub proof fn law_nodes_have_lists<F>(graph: &KGraph<F>, n: usize, lists: &Vec<Vec<OutEdge<F>>>)
    requires
        call_ensures(KGraph::<F>::get_nb_nodes, (graph,), n),
        call_ensures(KGraph::<F>::get_neighbours, (graph,), lists),
    ensures
        n == lists@.len(),
        forall|i: int| 0 <= i < n ==> #[trigger] lists@[i] == graph.neighbours@[i],
{
}

/// An edge leads to the node that it was made with, and has the weight that it was made with.
pub proof fn law_new_edge<T>(node: NodeIdx, weight: T, edge: OutEdge<T>)
    requires
        call_ensures(OutEdge::<T>::new, (node, weight), edge),
    ensures
        edge.node == node,
        edge.weight == weight,
{
}

} // verus!
