//! The local scale around a node and the transition probabilities to its neighbours.
use vstd::prelude::*;

use crate::dichotomy::{
    dichotomy_solver, is_solution, lemma_solution_wider, values_of, DichotomyError,
};
use crate::graph::{KGraph, NodeIdx, OutEdge};
use crate::number::{
    are_casts, is_at_most, is_below, is_cast, is_count, is_diff, is_exp, is_greatest, is_ln,
    is_neg, is_one, is_positive, is_prod, is_quot, is_ratio, is_total, is_zero, positive, total,
    CastTo, Real,
};

verus! {

/// Probabilities are not considered under 1 / `PROBA_MIN_INVERSE`.
pub const PROBA_MIN_INVERSE: u32 = 100000;

/// A scale that is stretched takes the probability of the last neighbour to `PROBA_MIN`, relative
/// to the first, but for rounding: there `STRETCHED_NUM / STRETCHED_DEN` is enough.
pub const STRETCHED_NUM: u32 = 999;

/// The denominator that goes with [`STRETCHED_NUM`].
pub const STRETCHED_DEN: u32 = 100000000;

/// How often 1 is doubled, at most, in the search for an upper end.
pub const MAX_DOUBLINGS: u32 = 127;

/// The parameters of a node:
///  - its local scale,
///  - its edges, weighted by the probability of a transition to each of its nearest neighbours.
pub struct NodeParam<W> {
    pub scale: W,
    pub edges: Vec<OutEdge<W>>,
}

impl<W> NodeParam<W> {
    pub fn new(scale: W, edges: Vec<OutEdge<W>>) -> (param: NodeParam<W>)
        ensures
            param == (NodeParam { scale, edges }),
    {
        NodeParam { scale, edges }
    }
}

/// The parameters of every node. They enable scaling in the embedded space and cross entropy
/// minimization.
pub struct NodeParams<W> {
    pub params: Vec<NodeParam<W>>,
}

impl<W> NodeParams<W> {
    /// Every edge leads to a node that has parameters.
    pub open spec fn wf(&self) -> bool {
        forall|i: int, k: int|
            0 <= i < self.params@.len() && 0 <= k < self.params@[i].edges@.len() ==> (
            #[trigger] self.params@[i].edges@[k]).node < self.params@.len()
    }

    pub fn get_node_param(&self, node: NodeIdx) -> (param: &NodeParam<W>)
        requires
            node < self.params@.len(),
        ensures
            *param == self.params@[node as int],
    {
        &self.params[node]
    }
}

/// Why no probabilities could be given to the edges of a node.
#[derive(Clone, Copy, Debug, PartialEq, Eq, Structural)]
pub enum ScaleError {
    /// The mean distance to the nearest neighbour is not positive.
    ScaleNotPositive,
    /// The distance to the first or to the last neighbour is not positive.
    DistanceNotPositive,
    /// The last neighbour is nearer than the first.
    NotSorted,
    /// The probability of the last neighbour, relative to that of the first, is under the least
    /// that is considered.
    RangeTooWide,
}

/// The weights of the edges, in order.
pub open spec fn weights<T>(edges: Seq<OutEdge<T>>) -> Seq<T> {
    edges.map_values(|e: OutEdge<T>| e.weight)
}

/// The two lists of edges lead to the same nodes, in the same order.
pub open spec fn same_targets<A, B>(a: Seq<OutEdge<A>>, b: Seq<OutEdge<B>>) -> bool {
    &&& a.len() == b.len()
    &&& forall|k: int| 0 <= k < a.len() ==> (#[trigger] a[k]).node == b[k].node
}

/// `rho` are the distance from each neighbour to its own nearest neighbour and `first`, the
/// distance from the node to its nearest neighbour.
pub open spec fn are_nearest<F: CastTo<W>, W: Real>(
    graph: &KGraph<F>,
    neighbours: Seq<OutEdge<F>>,
    first: W,
    rho: Seq<W>,
) -> bool {
    &&& rho.len() == neighbours.len() + 1
    &&& forall|k: int|
        0 <= k < neighbours.len() ==> is_cast(
            graph.neighbours@[neighbours[k].node as int]@[0].weight,
            #[trigger] rho[k],
        )
    &&& rho.last() == first
}

/// `mean` is the mean of the distance from each neighbour to its own nearest neighbour and of
/// `first`, the distance from the node to its nearest neighbour.
pub open spec fn is_nearest_mean<F: CastTo<W>, W: Real>(
    graph: &KGraph<F>,
    neighbours: Seq<OutEdge<F>>,
    first: W,
    mean: W,
) -> bool {
    exists|rho: Seq<W>, sum: W, n: W|
        #![trigger is_total(rho, sum), is_quot(sum, n, mean)]
        are_nearest(graph, neighbours, first, rho) && is_total(rho, sum) && is_count(
            rho.len() as usize,
            n,
        ) && is_quot(sum, n, mean)
}

/// `lambda` is `(last - first) / (scale * -ln(PROBA_MIN))`, by how much the scale would have to
/// grow for the probability of the last neighbour to be `PROBA_MIN` relative to the first.
pub open spec fn is_stretch<W: Real>(first: W, last: W, scale: W, lambda: W) -> bool {
    exists|range: W, least: W, l: W, m: W, d: W|
        is_diff(last, first, range) && is_ratio(1, PROBA_MIN_INVERSE, least) && is_ln(least, l)
            && is_neg(l, m) && is_prod(scale, m, d) && is_quot(range, d, lambda)
}

/// `scale` is `mean`, stretched where the distances would otherwise give probabilities of too
/// large a range; `stretched` tells that it is.
pub open spec fn is_adjusted_scale<W: Real>(
    first: W,
    last: W,
    mean: W,
    scale: W,
    stretched: bool,
) -> bool {
    exists|lambda: W, one: W|
        is_stretch(first, last, mean, lambda) && is_one(one) && is_below(one, lambda, stretched) && (
        if stretched {
            is_prod(mean, lambda, scale)
        } else {
            scale == mean
        })
}

/// `least` is the least probability of the last neighbour, relative to the first, that is
/// considered: `PROBA_MIN`, with an allowance for rounding where the scale is stretched to reach
/// it.
pub open spec fn is_least<W: Real>(stretched: bool, least: W) -> bool {
    if stretched {
        is_ratio(STRETCHED_NUM, STRETCHED_DEN, least)
    } else {
        is_ratio(1, PROBA_MIN_INVERSE, least)
    }
}

/// `r` is `exp(-d / scale)`.
pub open spec fn is_affinity<W: Real>(d: W, scale: W, r: W) -> bool {
    exists|m: W, q: W| is_neg(d, m) && is_quot(m, scale, q) && is_exp(q, r)
}

/// The `raw` values are `exp(-d / scale)` of the distances.
pub open spec fn are_affinities<W: Real>(dist: Seq<W>, scale: W, raw: Seq<W>) -> bool {
    &&& raw.len() == dist.len()
    &&& forall|k: int| 0 <= k < dist.len() ==> is_affinity(dist[k], scale, #[trigger] raw[k])
}

/// The unnormalized probabilities `raw` at the distances `dist` from a node whose neighbours have
/// the mean distance `mean`; asked whether the last is at least the least that is considered,
/// relative to the first, the arithmetic answered `in_range`.
pub open spec fn is_raw_proba<W: Real>(
    dist: Seq<W>,
    mean: W,
    raw: Seq<W>,
    in_range: bool,
) -> bool {
    exists|scale: W, stretched: bool, ratio: W, least: W|
        #![trigger are_affinities(dist, scale, raw), is_least(stretched, least), is_at_most(least, ratio, in_range)]
        is_adjusted_scale(dist.first(), dist.last(), mean, scale, stretched) && are_affinities(
            dist,
            scale,
            raw,
        ) && is_quot(raw.last(), raw.first(), ratio) && is_least(stretched, least) && is_at_most(
            least,
            ratio,
            in_range,
        )
}

/// The probabilities `probas` are the `raw` values, each divided by their sum.
pub open spec fn is_normalized<W: Real>(raw: Seq<W>, probas: Seq<W>) -> bool {
    &&& probas.len() == raw.len()
    &&& exists|sum: W|
        #![trigger is_total(raw, sum)]
        is_total(raw, sum) && forall|k: int|
            0 <= k < raw.len() ==> is_quot(raw[k], sum, #[trigger] probas[k])
}

/// Each of the probabilities is 1 over their number.
pub open spec fn is_uniform<W: Real>(probas: Seq<W>) -> bool {
    exists|one: W, n: W, p: W|
        is_one(one) && is_count(probas.len() as usize, n) && is_quot(one, n, p) && forall|k: int|
            0 <= k < probas.len() ==> #[trigger] probas[k] == p
}

/// `probas` are the probabilities of the transitions to neighbours at the distances `dist`, from a
/// node with the mean distance `mean`.
pub open spec fn is_proba<W: Real>(dist: Seq<W>, mean: W, probas: Seq<W>) -> bool {
    ||| is_below(dist.first(), dist.last(), true) && exists|raw: Seq<W>|
        #![trigger is_normalized(raw, probas)]
        is_raw_proba(dist, mean, raw, true) && is_normalized(raw, probas)
    ||| is_below(dist.first(), dist.last(), false) && is_uniform(probas)
}

/// What is given to a node with neighbours at the distances `dist` and the mean distance `mean`:
/// a refusal, or the scale `mean` and the probabilities.
pub open spec fn is_param<F, W: Real>(
    neighbours: Seq<OutEdge<F>>,
    dist: Seq<W>,
    mean: W,
    res: Result<NodeParam<W>, ScaleError>,
) -> bool {
    let (first, last) = (dist.first(), dist.last());
    match res {
        Err(ScaleError::ScaleNotPositive) => is_positive(mean, false),
        Err(ScaleError::DistanceNotPositive) => {
            &&& is_positive(mean, true)
            &&& is_positive(first, false) || is_positive(last, false)
        },
        Err(ScaleError::NotSorted) => {
            &&& is_positive(mean, true)
            &&& is_positive(first, true)
            &&& is_positive(last, true)
            &&& is_at_most(first, last, false)
        },
        Err(ScaleError::RangeTooWide) => {
            &&& is_positive(mean, true)
            &&& is_positive(first, true)
            &&& is_positive(last, true)
            &&& is_at_most(first, last, true)
            &&& is_below(first, last, true)
            &&& exists|raw: Seq<W>| is_raw_proba(dist, mean, raw, false)
        },
        Ok(param) => {
            &&& is_positive(mean, true)
            &&& is_positive(first, true)
            &&& is_positive(last, true)
            &&& is_at_most(first, last, true)
            &&& param.scale == mean
            &&& same_targets(param.edges@, neighbours)
            &&& is_proba(dist, mean, weights(param.edges@))
        },
    }
}

/// `res` is what is given to a node of the graph that has these neighbours.
pub open spec fn is_param_of<F: CastTo<W>, W: Real>(
    graph: &KGraph<F>,
    neighbours: Seq<OutEdge<F>>,
    res: Result<NodeParam<W>, ScaleError>,
) -> bool {
    exists|dist: Seq<W>, mean: W|
        #![trigger is_param(neighbours, dist, mean, res)]
        are_casts(weights(neighbours), dist) && is_nearest_mean(
            graph,
            neighbours,
            dist.first(),
            mean,
        ) && is_param(neighbours, dist, mean, res)
}

/// Every edge leads to a node of the graph that has a neighbour of its own.
pub open spec fn lead_on<F>(graph: &KGraph<F>, neighbours: Seq<OutEdge<F>>) -> bool {
    forall|k: int|
        0 <= k < neighbours.len() ==> (#[trigger] neighbours[k]).node < graph.neighbours@.len()
            && graph.neighbours@[neighbours[k].node as int]@.len() > 0
}

/// The distances to the neighbours.
fn distances<F: CastTo<W>, W: Real>(neighbours: &Vec<OutEdge<F>>) -> (dist: Vec<W>)
    ensures
        are_casts(weights(neighbours@), dist@),
{
    let mut dist: Vec<W> = Vec::new();
    for k in 0..neighbours.len()
        invariant
            dist@.len() == k,
            forall|j: int| 0 <= j < k ==> is_cast(neighbours@[j].weight, #[trigger] dist@[j]),
    {
        let d: W = neighbours[k].weight.cast();
        dist.push(d);
    }
    dist
}

/// The mean distance to the nearest neighbour, around a node.
fn nearest_mean<F: CastTo<W>, W: Real>(
    graph: &KGraph<F>,
    neighbours: &Vec<OutEdge<F>>,
    first: W,
) -> (mean: W)
    requires
        lead_on(graph, neighbours@),
    ensures
        is_nearest_mean(graph, neighbours@, first, mean),
{
    let mut rho: Vec<W> = Vec::new();
    for k in 0..neighbours.len()
        invariant
            lead_on(graph, neighbours@),
            rho@.len() == k,
            forall|j: int|
                0 <= j < k ==> is_cast(
                    graph.neighbours@[neighbours@[j].node as int]@[0].weight,
                    #[trigger] rho@[j],
                ),
    {
        let y: usize = neighbours[k].node;
        assert(graph.neighbours@[y as int]@.len() > 0);
        let r: W = graph.neighbours[y][0].weight.cast();
        rho.push(r);
    }
    rho.push(first);
    assert(are_nearest(graph, neighbours@, first, rho@));
    let sum = total(&rho);
    let n = W::count(rho.len());
    sum.over(n)
}

fn affinity<W: Real>(d: W, scale: W) -> (r: W)
    ensures
        is_affinity(d, scale, r),
{
    d.negated().over(scale).exp()
}

fn stretch<W: Real>(first: W, last: W, scale: W) -> (lambda: W)
    ensures
        is_stretch(first, last, scale, lambda),
{
    let range = last.minus(first);
    let m = W::ratio(1, PROBA_MIN_INVERSE).ln().negated();
    range.over(scale.times(m))
}

/// The scale, and whether it is stretched.
fn adjusted_scale<W: Real>(first: W, last: W, mean: W) -> (res: (W, bool))
    ensures
        is_adjusted_scale(first, last, mean, res.0, res.1),
{
    let lambda = stretch(first, last, mean);
    if W::one().below(lambda) {
        (mean.times(lambda), true)
    } else {
        (mean, false)
    }
}

/// The unnormalized probabilities, and whether they stay in the range that is considered.
fn raw_proba<W: Real>(dist: &Vec<W>, mean: W) -> (res: (Vec<W>, bool))
    requires
        dist@.len() > 0,
    ensures
        is_raw_proba(dist@, mean, res.0@, res.1),
{
    let n: usize = dist.len();
    let (scale, stretched) = adjusted_scale(dist[0], dist[n - 1], mean);
    let mut raw: Vec<W> = Vec::new();
    for k in 0..n
        invariant
            n == dist@.len(),
            raw@.len() == k,
            forall|j: int| 0 <= j < k ==> is_affinity(dist@[j], scale, #[trigger] raw@[j]),
    {
        raw.push(affinity(dist[k], scale));
    }
    let ratio = raw[n - 1].over(raw[0]);
    let least = if stretched {
        W::ratio(STRETCHED_NUM, STRETCHED_DEN)
    } else {
        W::ratio(1, PROBA_MIN_INVERSE)
    };
    let in_range = least.at_most(ratio);
    assert(is_least(stretched, least));
    assert(are_affinities(dist@, scale, raw@));
    (raw, in_range)
}

/// The edges to the neighbours, weighted by the normalized probabilities.
fn normalized_edges<F, W: Real>(neighbours: &Vec<OutEdge<F>>, raw: &Vec<W>) -> (edges: Vec<
    OutEdge<W>,
>)
    requires
        raw@.len() == neighbours@.len(),
    ensures
        same_targets(edges@, neighbours@),
        is_normalized(raw@, weights(edges@)),
{
    let sum = total(raw);
    let mut edges: Vec<OutEdge<W>> = Vec::new();
    for k in 0..raw.len()
        invariant
            raw@.len() == neighbours@.len(),
            edges@.len() == k,
            forall|j: int| 0 <= j < k ==> (#[trigger] edges@[j]).node == neighbours@[j].node,
            forall|j: int| 0 <= j < k ==> is_quot(raw@[j], sum, (#[trigger] edges@[j]).weight),
    {
        edges.push(OutEdge::new(neighbours[k].node, raw[k].over(sum)));
    }
    assert forall|j: int| 0 <= j < raw@.len() implies is_quot(
        raw@[j],
        sum,
        #[trigger] weights(edges@)[j],
    ) by {
        assert(weights(edges@)[j] == edges@[j].weight);
    }
    edges
}

/// The edges to the neighbours, all of the same probability.
fn uniform_edges<F, W: Real>(neighbours: &Vec<OutEdge<F>>) -> (edges: Vec<OutEdge<W>>)
    ensures
        same_targets(edges@, neighbours@),
        is_uniform(weights(edges@)),
{
    let n = W::count(neighbours.len());
    let one = W::one();
    let p = one.over(n);
    let mut edges: Vec<OutEdge<W>> = Vec::new();
    for k in 0..neighbours.len()
        invariant
            edges@.len() == k,
            forall|j: int| 0 <= j < k ==> (#[trigger] edges@[j]).node == neighbours@[j].node,
            forall|j: int| 0 <= j < k ==> (#[trigger] edges@[j]).weight == p,
    {
        edges.push(OutEdge::new(neighbours[k].node, p));
    }
    assert(weights(edges@).len() == neighbours@.len());
    assert(is_count(weights(edges@).len() as usize, n));
    edges
}

/// Gives the edges of a node normalized probabilities: `exp(-d / scale)` of the distance `d` to
/// each neighbour, divided by their sum. The scale is the mean distance of a point to its nearest
/// neighbour around the node, stretched where needed so that the probabilities do not vary by more
/// than `PROBA_MIN` between the first and the last neighbour. Where all neighbours are at the same
/// distance the probabilities are equal.
/// Returns the mean distance and the edges with their probabilities.
pub fn get_scale_from_proba_normalisation<F: CastTo<W>, W: Real>(
    graph: &KGraph<F>,
    neighbours: &Vec<OutEdge<F>>,
) -> (res: Result<NodeParam<W>, ScaleError>)
    requires
        neighbours@.len() > 0,
        lead_on(graph, neighbours@),
    ensures
        is_param_of(graph, neighbours@, res),
{
    let n: usize = neighbours.len();
    let dist = distances::<F, W>(neighbours);
    let first = dist[0];
    let last = dist[n - 1];
    let mean = nearest_mean(graph, neighbours, first);
    let res = if !positive(mean) {
        Err(ScaleError::ScaleNotPositive)
    } else if !positive(first) || !positive(last) {
        Err(ScaleError::DistanceNotPositive)
    } else if !first.at_most(last) {
        Err(ScaleError::NotSorted)
    } else if first.below(last) {
        let (raw, in_range) = raw_proba(&dist, mean);
        if !in_range {
            Err(ScaleError::RangeTooWide)
        } else {
            Ok(NodeParam::new(mean, normalized_edges(neighbours, &raw)))
        }
    } else {
        Ok(NodeParam::new(mean, uniform_edges(neighbours)))
    };
    assert(is_param(neighbours@, dist@, mean, res));
    res
}

/// `params` are the parameters of the nodes of the graph.
pub open spec fn are_params_of<F: CastTo<W>, W: Real>(
    graph: &KGraph<F>,
    params: Seq<NodeParam<W>>,
) -> bool {
    &&& params.len() == graph.neighbours@.len()
    &&& forall|i: int|
        0 <= i < params.len() ==> is_param_of(
            graph,
            graph.neighbours@[i]@,
            Ok(#[trigger] params[i]),
        )
}

/// `error` is why one of the nodes of the graph has no parameters, while those before it have.
pub open spec fn is_refused<F: CastTo<W>, W: Real>(graph: &KGraph<F>, error: ScaleError) -> bool {
    exists|params: Seq<NodeParam<W>>|
        params.len() < graph.neighbours@.len() && (forall|i: int|
            0 <= i < params.len() ==> is_param_of(
                graph,
                graph.neighbours@[i]@,
                Ok(#[trigger] params[i]),
            )) && #[trigger] is_param_of(
            graph,
            graph.neighbours@[params.len() as int]@,
            Err::<NodeParam<W>, ScaleError>(error),
        )
}

/// The parameters have an edge for each edge of the graph, to the same node.
pub proof fn law_params_keep_edges<F: CastTo<W>, W: Real>(
    graph: &KGraph<F>,
    params: Seq<NodeParam<W>>,
    i: int,
)
    requires
        are_params_of(graph, params),
        0 <= i < params.len(),
    ensures
        same_targets(params[i].edges@, graph.neighbours@[i]@),
{
    assert(is_param_of(graph, graph.neighbours@[i]@, Ok(params[i])));
}

/// A node that is given parameters has a positive scale, and the probabilities of its edges do not
/// vary by more than `PROBA_MIN`, but for rounding: they are equal, or the unnormalized probability
/// of the last edge is at least what is considered, relative to that of the first.
pub proof fn law_params_in_range<F: CastTo<W>, W: Real>(
    graph: &KGraph<F>,
    neighbours: Seq<OutEdge<F>>,
    param: NodeParam<W>,
)
    requires
        is_param_of(graph, neighbours, Ok(param)),
    ensures
        is_positive(param.scale, true),
        is_uniform(weights(param.edges@)) || exists|
            raw: Seq<W>,
            ratio: W,
            stretched: bool,
            least: W,
        |
            #![trigger is_normalized(raw, weights(param.edges@)), is_least(stretched, least), is_at_most(least, ratio, true)]
            is_normalized(raw, weights(param.edges@)) && is_quot(raw.last(), raw.first(), ratio)
                && is_least(stretched, least) && is_at_most(least, ratio, true),
{
}

/// A node is given no probabilities that vary by more than 0.00001, but for an allowance of a
/// thousandth of that for rounding: the arithmetic was asked, of the probabilities before they are
/// normalized, and answered that the quotient of the last by the first is not below. Probabilities
/// for equal distances vary by nothing.
pub proof fn law_range_is_checked<F: CastTo<W>, W: Real>(
    graph: &KGraph<F>,
    neighbours: &Vec<OutEdge<F>>,
    param: NodeParam<W>,
)
    requires
        call_ensures(
            get_scale_from_proba_normalisation::<F, W>,
            (graph, neighbours),
            Ok::<NodeParam<W>, ScaleError>(param),
        ),
    ensures
        (forall|j: int, k: int|
            0 <= j < param.edges@.len() && 0 <= k < param.edges@.len() ==> (#[trigger] param.edges@[j]).weight
                == (#[trigger] param.edges@[k]).weight) || exists|raw: Seq<W>, sum: W, ratio: W, least: W|
            #![trigger is_total(raw, sum), is_at_most(least, ratio, true)]
            raw.len() == param.edges@.len() && is_total(raw, sum) && (forall|k: int|
                0 <= k < raw.len() ==> is_quot(raw[k], sum, (#[trigger] param.edges@[k]).weight))
                && is_quot(raw.last(), raw.first(), ratio) && (is_ratio(1, 100000, least) || is_ratio(
                999,
                100000000,
                least,
            )) && is_at_most(least, ratio, true),
{
    law_params_in_range(graph, neighbours@, param);
    let probas = weights(param.edges@);
    assert forall|k: int| 0 <= k < param.edges@.len() implies probas[k] == (#[trigger] param.edges@[k]).weight by {}
    if is_uniform(probas) {
        assert forall|j: int, k: int|
            0 <= j < param.edges@.len() && 0 <= k < param.edges@.len() implies (
        #[trigger] param.edges@[j]).weight == (#[trigger] param.edges@[k]).weight by {
            assert(probas[j] == param.edges@[j].weight && probas[k] == param.edges@[k].weight);
        }
    } else {
        let (raw, ratio, stretched, least) = choose|
            raw: Seq<W>,
            ratio: W,
            stretched: bool,
            least: W,
        |
            #![trigger is_normalized(raw, probas), is_least(stretched, least), is_at_most(least, ratio, true)]
            is_normalized(raw, probas) && is_quot(raw.last(), raw.first(), ratio) && is_least(
                stretched,
                least,
            ) && is_at_most(least, ratio, true);
        let sum = choose|sum: W|
            #![trigger is_total(raw, sum)]
            is_total(raw, sum) && forall|k: int|
                0 <= k < raw.len() ==> is_quot(raw[k], sum, #[trigger] probas[k]);
        assert forall|k: int| 0 <= k < raw.len() implies is_quot(
            raw[k],
            sum,
            (#[trigger] param.edges@[k]).weight,
        ) by {
            assert(probas[k] == param.edges@[k].weight);
        }
        assert(is_total(raw, sum) && is_at_most(least, ratio, true));
    }
}

/// The parameters of every node of the graph.
pub fn node_params<F: CastTo<W>, W: Real>(graph: &KGraph<F>) -> (res: Result<
    NodeParams<W>,
    ScaleError,
>)
    requires
        graph.wf(),
    ensures
        match res {
            Ok(node_params) => {
                &&& are_params_of(graph, node_params.params@)
                &&& node_params.wf()
            },
            Err(error) => is_refused::<F, W>(graph, error),
        },
{
    let neighbour_hood = graph.get_neighbours();
    let mut params: Vec<NodeParam<W>> = Vec::new();
    for i in 0..neighbour_hood.len()
        invariant
            graph.wf(),
            *neighbour_hood == graph.neighbours,
            params@.len() == i,
            forall|a: int|
                0 <= a < i ==> is_param_of(
                    graph,
                    graph.neighbours@[a]@,
                    Ok(#[trigger] params@[a]),
                ),
    {
        let neighbours = &neighbour_hood[i];
        assert forall|k: int| 0 <= k < neighbours@.len() implies (#[trigger] neighbours@[k]).node
            < graph.neighbours@.len() && graph.neighbours@[neighbours@[k].node as int]@.len() > 0 by {
            assert(graph.neighbours@[i as int]@[k] == neighbours@[k]);
        }
        match get_scale_from_proba_normalisation(graph, neighbours) {
            Ok(param) => {
                params.push(param);
            },
            Err(error) => {
                assert(is_param_of(
                    graph,
                    graph.neighbours@[params@.len() as int]@,
                    Err::<NodeParam<W>, ScaleError>(error),
                ));
                return Err(error);
            },
        }
    }
    let res = NodeParams { params };
    assert forall|i: int, k: int|
        0 <= i < res.params@.len() && 0 <= k < res.params@[i].edges@.len() implies (
    #[trigger] res.params@[i].edges@[k]).node < res.params@.len() by {
        law_params_keep_edges(graph, res.params@, i);
        assert(graph.neighbours@[i]@[k].node < graph.neighbours@.len());
    }
    Ok(res)
}

/// `r` is `exp(-(d - rho) * beta)`.
pub open spec fn is_umap_proba<W: Real>(d: W, rho: W, beta: W, r: W) -> bool {
    exists|gap: W, m: W, p: W|
        is_diff(d, rho, gap) && is_neg(gap, m) && is_prod(m, beta, p) && is_exp(p, r)
}

/// The `probas` are `exp(-(d - rho) * beta)` of the distances, `rho` being the first of them.
pub open spec fn are_umap_probas<W: Real>(dist: Seq<W>, beta: W, probas: Seq<W>) -> bool {
    &&& probas.len() == dist.len()
    &&& forall|k: int|
        0 <= k < dist.len() ==> is_umap_proba(dist[k], dist.first(), beta, #[trigger] probas[k])
}

/// The sum of the probabilities as a function of `beta`.
pub open spec fn umap_sums<W: Real>(dist: Seq<W>) -> spec_fn(W, W) -> bool {
    |beta: W, sum: W|
        exists|probas: Seq<W>|
            #![trigger is_total(probas, sum)]
            are_umap_probas(dist, beta, probas) && is_total(probas, sum)
}

/// Asked whether the probabilities with `beta` sum to at most `norm`, the arithmetic answered `r`.
pub open spec fn is_enough<W: Real>(norm: W, dist: Seq<W>, beta: W, r: bool) -> bool {
    exists|sum: W| #[trigger] umap_sums(dist)(beta, sum) && is_at_most(sum, norm, r)
}

/// `u` is 1, doubled `n` times, and the probabilities sum to more than `norm` with each of the
/// powers of two before it.
pub open spec fn is_doubled<W: Real>(norm: W, dist: Seq<W>, n: nat, u: W) -> bool
    decreases n,
{
    if n == 0 {
        is_one(u)
    } else {
        exists|p: W, two: W|
            #![trigger is_prod(p, two, u)]
            is_doubled(norm, dist, (n - 1) as nat, p) && is_enough(norm, dist, p, false) && is_ratio(
                2,
                1,
                two,
            ) && is_prod(p, two, u)
    }
}

/// `upper` is the first power of two with which the probabilities sum to at most `norm`, or the
/// greatest number where none up to 2 to the power [`MAX_DOUBLINGS`] is one.
pub open spec fn is_umap_end<W: Real>(norm: W, dist: Seq<W>, upper: W) -> bool {
    ||| exists|n: nat|
        n <= MAX_DOUBLINGS && #[trigger] is_doubled(norm, dist, n, upper) && is_enough(
            norm,
            dist,
            upper,
            true,
        )
    ||| is_greatest(upper) && exists|n: nat, u: W|
        n == MAX_DOUBLINGS && #[trigger] is_doubled(norm, dist, n, u) && is_enough(
            norm,
            dist,
            u,
            false,
        )
}

/// `res` is what the constraint that the probabilities sum to `norm` gives for neighbours at the
/// distances `dist`: the scale and the probabilities. The search runs from 0 to the first power of
/// two with which the sum is not above `norm`.
pub open spec fn is_umap_scale<W: Real>(
    norm: W,
    dist: Seq<W>,
    res: Result<(W, Vec<W>), DichotomyError>,
) -> bool {
    exists|zero: W, upper: W, root: Result<W, DichotomyError>|
        #![trigger is_solution(false, umap_sums(dist), zero, upper, norm, root)]
        is_zero(zero) && is_umap_end(norm, dist, upper) && is_solution(
            false,
            umap_sums(dist),
            zero,
            upper,
            norm,
            root,
        ) && match (root, res) {
            (Err(error), Err(refusal)) => refusal == error,
            (Ok(beta), Ok((scale, probas))) => are_umap_probas(dist, beta, probas@) && exists|
                one: W,
            |
                is_one(one) && is_quot(one, beta, scale),
            _ => false,
        }
}

fn umap_probas<W: Real>(dist: &Vec<W>, beta: W) -> (probas: Vec<W>)
    requires
        dist@.len() > 0,
    ensures
        are_umap_probas(dist@, beta, probas@),
{
    let rho = dist[0];
    let mut probas: Vec<W> = Vec::new();
    for k in 0..dist.len()
        invariant
            probas@.len() == k,
            forall|j: int|
                0 <= j < k ==> is_umap_proba(dist@[j], rho, beta, #[trigger] probas@[j]),
    {
        let p = dist[k].minus(rho).negated().times(beta).exp();
        probas.push(p);
    }
    probas
}

/// The sum of the probabilities with `beta`.
fn umap_sum<W: Real>(dist: &Vec<W>, beta: W) -> (sum: W)
    requires
        dist@.len() > 0,
    ensures
        umap_sums(dist@)(beta, sum),
{
    total(&umap_probas(dist, beta))
}

/// The upper end of the interval in which `beta` is searched.
fn umap_end<W: Real>(norm: W, dist: &Vec<W>) -> (upper: W)
    requires
        dist@.len() > 0,
    ensures
        is_umap_end(norm, dist@, upper),
{
    let mut u = W::one();
    let mut n: u32 = 0;
    loop
        invariant
            dist@.len() > 0,
            n <= MAX_DOUBLINGS,
            is_doubled(norm, dist@, n as nat, u),
        decreases MAX_DOUBLINGS - n,
    {
        let sum = umap_sum(dist, u);
        if sum.at_most(norm) {
            assert(is_enough(norm, dist@, u, true));
            return u;
        }
        assert(is_enough(norm, dist@, u, false));
        if n == MAX_DOUBLINGS {
            return W::greatest();
        }
        let two = W::ratio(2, 1);
        let next = u.times(two);
        assert(is_prod(u, two, next));
        n = n + 1;
        u = next;
    }
}

/// Given the neighbours of a node, chooses the scale so that the probabilities
/// `exp(-beta * (d(x, y_i) - d(x, y_1)))` sum to `norm`. As the sum is monotonic with respect to
/// the scale, it is found by dichotomy. Returns the scale `1 / beta` and the probabilities.
pub fn get_scale_from_umap<D: CastTo<W>, F: CastTo<W>, W: Real>(
    norm: D,
    neighbours: &Vec<OutEdge<F>>,
) -> (res: Result<(W, Vec<W>), DichotomyError>)
    requires
        neighbours@.len() > 0,
    ensures
        exists|target: W, dist: Seq<W>|
            #![trigger is_umap_scale(target, dist, res)]
            is_cast(norm, target) && are_casts(weights(neighbours@), dist) && is_umap_scale(
                target,
                dist,
                res,
            ),
{
    let dist = distances::<F, W>(neighbours);
    let f = |beta: W| -> (sum: W)
        ensures
            umap_sums(dist@)(beta, sum),
        { umap_sum(&dist, beta) };
    let target: W = norm.cast();
    let zero = W::zero();
    let upper = umap_end(target, &dist);
    let root = dichotomy_solver(false, f, zero, upper, target);
    proof {
        lemma_solution_wider(
            false,
            values_of(f),
            umap_sums(dist@),
            zero,
            upper,
            target,
            root,
        );
    }
    let res = match root {
        Ok(beta) => {
            let one = W::one();
            let scale = one.over(beta);
            Ok((scale, umap_probas(&dist, beta)))
        },
        Err(error) => Err(error),
    };
    assert(is_umap_scale(target, dist@, res));
    res
}

/// The parameters of a node are the scale and the edges that they were made with, and those of the
/// node of index `i` are found at its index.
pub proof fn law_param_is_found<W>(
    scale: W,
    edges: Vec<OutEdge<W>>,
    made: NodeParam<W>,
    params: &NodeParams<W>,
    i: NodeIdx,
    found: &NodeParam<W>,
)
    requires
        i < params.params@.len(),
        params.params@[i as int] == made,
        call_ensures(NodeParam::<W>::new, (scale, edges), made),
        call_ensures(NodeParams::<W>::get_node_param, (params, i), found),
    ensures
        found.scale == scale,
        found.edges == edges,
{
}

} // verus!
