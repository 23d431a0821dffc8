//! The whole embedding in exact arithmetic: from the distances to the probabilities, the laplacian,
//! the initial embedding and the optimized one.
use vstd::prelude::*;

use crate::embedder::{
    is_decomposition, is_embedding, is_initial_outcome, is_optimized, is_optimized_to, setting_of,
    EmbedError, Embedder, RANK_STEP,
};
use crate::entropy::{is_optimization, lemma_setting_fits, EntropyError, Optimized};
use crate::exact::coefficient::{
    are_transitions, is_laplacian_value, lemma_full_coefficient, lemma_sparse_coefficient,
};
use crate::exact::descent::{
    are_movable_edges, are_passes, is_movable_exactly, lemma_optimization,
    lemma_optimization_refusals,
};
use crate::exact::entropy::raises;
use crate::exact::laplacian::{has_positive_exp, law_degrees_positive};
use crate::exact::node::{is_first_obstacle, is_node_value, lemma_node_value, lemma_refusal};
use crate::exact::scale::{is_exponential, law_probabilities_sum_to_one};
use crate::exact::spectral::{
    is_initial_value, is_spectral_fault, lemma_initial_value, lemma_spectral_fault,
};
use crate::exact::weight::{cross_sum, is_measurable, is_normal_unless_zero};
use crate::exact::{is_exact, keeps_value};
use crate::graph::{
    edges_before, in_range, law_all_edges_in_order, law_all_edges_sound, no_loop, KGraph, NodeIdx,
    OutEdge,
};
use crate::laplacian::{
    edge_lists, is_laplacian, is_sparse_laplacian, lemma_edge_lists, LaplacianGraph, MatRepr,
    DENSE_LIMIT,
};
use crate::matrix::{rectangular, Matrix};
use crate::number::{is_finite, is_one, is_ratio, CastTo, Real};
use crate::scale::{are_params_of, is_param_of, law_params_keep_edges, NodeParam, ScaleError};
use crate::spectral::{is_spectral_embedding, RangePrecision, SpectralError, Svd};

verus! {

/// The nodes of the graph can be numbered, and so can the neighbours of each and one more.
pub open spec fn is_countable<F>(graph: &KGraph<F>) -> bool {
    &&& graph.wf()
    &&& graph.loop_free()
    &&& forall|a: int|
        0 <= a < graph.neighbours@.len() ==> (#[trigger] graph.neighbours@[a])@.len() < usize::MAX
}

/// The edge lists of parameters of a graph lead to other nodes of the graph.
proof fn lemma_lists<F: CastTo<W>, W: Real>(graph: &KGraph<F>, params: Seq<NodeParam<W>>)
    requires
        is_countable(graph),
        are_params_of(graph, params),
    ensures
        in_range(edge_lists(params), params.len() as int),
        no_loop(edge_lists(params)),
{
    let lists = edge_lists(params);
    assert forall|a: int, k: int| 0 <= a < lists.len() && 0 <= k < lists[a].len() implies (
    #[trigger] lists[a][k]).node < lists.len() && lists[a][k].node != a by {
        law_params_keep_edges(graph, params, a);
        assert(lists[a][k] == params[a].edges@[k]);
        assert(graph.neighbours@[a]@[k].node < lists.len());
        assert(graph.neighbours@[a]@[k].node != a);
    }
}

/// The laplacian is that of the graph in which each node has the probabilities that its neighbours
/// give it: a full matrix for up to 300 nodes, and a sparse one for more. The parameters of the
/// nodes are kept. It is refused where a node is, for the reason of the first.
pub proof fn law_get_laplacian<'a, F: Real + CastTo<W>, W: Real + CastTo<F>>(
    vf: spec_fn(F) -> real,
    v: spec_fn(W) -> real,
    e: spec_fn(real) -> real,
    embedder: &mut Embedder<'a, F, W>,
    res: Result<LaplacianGraph<W>, ScaleError>,
    t: spec_fn(int, int) -> real,
    i: int,
    j: int,
    a: real,
    b: real,
    x: real,
)
    requires
        is_exact(v),
        is_exponential(v, e),
        keeps_value(vf, v),
        is_countable(old(embedder).graph()),
        call_ensures(Embedder::<'a, F, W>::get_laplacian, (embedder,), res),
        0 <= i < old(embedder).graph().neighbours@.len(),
        0 <= j < old(embedder).graph().neighbours@.len(),
    ensures
        match res {
            Ok(laplacian) => final(embedder).space() matches Some(p) && {
                let graph = old(embedder).graph();
                let n = graph.neighbours@.len();
                &&& p.params@.len() == n
                &&& is_node_value(vf, v, e, graph, graph.neighbours@[i]@, p.params@[i])
                &&& laplacian.degrees@.len() == n
                &&& v(laplacian.degrees@[i]) > 0 as real
                &&& (laplacian.sym_laplacian is Full) == (n <= 300)
                &&& final(embedder).approximated() == (n > 300)
                &&& are_transitions(v, Seq::new(n, |k: int| p.params@[k].edges@), t)
                    ==> is_laplacian_value(v, t, laplacian, i, j, a, b, x)
            },
            Err(error) => is_first_obstacle(vf, old(embedder).graph(), error) && *final(embedder)
                == *old(embedder),
        },
{
    let graph = old(embedder).graph();
    match res {
        Ok(laplacian) => {
            let params = final(embedder).space().unwrap().params@;
            assert(is_param_of(graph, graph.neighbours@[i]@, Ok(params[i])));
            assert(graph.neighbours@[i]@.len() > 0);
            lemma_node_value(vf, v, e, graph, graph.neighbours@[i]@, params[i]);
            assert(has_positive_exp(v));
            law_degrees_positive(v, graph, params, laplacian);
            assert(v(laplacian.degrees@[i]) > 0 as real && v(laplacian.degrees@[j]) > 0 as real);
            let lists = Seq::new(graph.neighbours@.len(), |k: int| params[k].edges@);
            assert(lists =~= edge_lists(params));
            lemma_lists(graph, params);
            if are_transitions(v, lists, t) {
                let degrees = laplacian.degrees@;
                match laplacian.sym_laplacian {
                    MatRepr::Full(m) => {
                        lemma_full_coefficient(v, lists, t, degrees, m@, i, j, a, b);
                    },
                    MatRepr::Sparse(csr) => {
                        let terms = choose|terms: Seq<(usize, usize, W)>|
                            #![trigger csr.is_made_of(terms)]
                            is_sparse_laplacian(lists, degrees, terms) && csr.is_made_of(terms);
                        lemma_sparse_coefficient(v, lists, t, degrees, terms, csr, i, j, a, b, x);
                    },
                }
            }
        },
        Err(error) => {
            lemma_refusal::<F, W>(vf, v, e, graph, error);
        },
    }
}

/// The solver was asked to decompose the laplacian of the graph of these probabilities, with
/// precision 0.1, rank steps of 5 and a rank up to 5 above the dimension, and its answer gives the
/// embedding `start`.
pub open spec fn is_started<
    F,
    W: Real,
    D,
    S: Fn(&MatRepr<W>, RangePrecision<D>) -> Option<Svd<W>>,
>(
    vf: spec_fn(F) -> real,
    v: spec_fn(W) -> real,
    vd: spec_fn(D) -> real,
    solver: S,
    dim: usize,
    params: Seq<NodeParam<W>>,
    start: Matrix<F>,
) -> bool {
    exists|laplacian: LaplacianGraph<W>, epsil: D, svd: Svd<W>|
        #![trigger is_laplacian(edge_lists(params), laplacian), vd(epsil), svd.sigma]
        is_laplacian(edge_lists(params), laplacian) && vd(epsil) * (10 as real) == 1 as real && call_ensures(
            solver,
            (
                &laplacian.sym_laplacian,
                RangePrecision { epsil, step: 5, max_rank: (dim + 5) as usize },
            ),
            Some(svd),
        ) && is_initial_value(
            vf,
            v,
            laplacian.degrees@,
            svd,
            params.len() > 300,
            dim as nat,
            start,
        )
}

proof fn lemma_started<
    F: CastTo<W>,
    W: Real + CastTo<F>,
    D: Real,
    S: Fn(&MatRepr<W>, RangePrecision<D>) -> Option<Svd<W>>,
>(
    vf: spec_fn(F) -> real,
    v: spec_fn(W) -> real,
    vd: spec_fn(D) -> real,
    e: spec_fn(real) -> real,
    graph: &KGraph<F>,
    dim: usize,
    solver: S,
    params: Seq<NodeParam<W>>,
    start: Matrix<F>,
)
    requires
        is_exact(v),
        is_exact(vd),
        is_exponential(v, e),
        keeps_value(v, vf),
        is_countable(graph),
        is_initial_outcome::<F, W, D, S>(graph, dim, solver, params, Ok(start)),
    ensures
        is_started(vf, v, vd, solver, dim, params, start),
        rectangular(start@, dim as nat),
{
    let (laplacian, answer) = choose|laplacian: LaplacianGraph<W>, answer: Option<Svd<W>>|
        #![trigger is_laplacian(edge_lists(params), laplacian), is_decomposition::<W, D, S>(solver, laplacian.sym_laplacian, dim, answer)]
        is_laplacian(edge_lists(params), laplacian) && is_decomposition::<W, D, S>(
            solver,
            laplacian.sym_laplacian,
            dim,
            answer,
        ) && match answer {
            None => false,
            Some(svd) => is_spectral_embedding(
                laplacian.degrees@,
                svd,
                dim as nat,
                graph.neighbours@.len() > DENSE_LIMIT,
                Ok(start),
            ),
        };
    let svd = answer.unwrap();
    assert(has_positive_exp(v));
    law_degrees_positive(v, graph, params, laplacian);
    lemma_initial_value(
        vf,
        v,
        laplacian.degrees@,
        svd,
        dim as nat,
        params.len() > 300,
        start,
    );
    let epsil = choose|epsil: D|
        is_ratio(1, 10, epsil) && call_ensures(
            solver,
            (
                &laplacian.sym_laplacian,
                RangePrecision {
                    epsil,
                    step: RANK_STEP,
                    max_rank: (dim + RANK_STEP) as usize,
                },
            ),
            answer,
        );
    assert(vd(epsil) * (10 as real) == 1 as real);
    assert(svd.sigma == svd.sigma);
}

/// The initial embedding comes from the decomposition that the solver gives of the laplacian of the
/// graph.
pub proof fn law_initial_embedding<
    'a,
    F: Real + CastTo<W>,
    W: Real + CastTo<F>,
    D: Real,
    S: Fn(&MatRepr<W>, RangePrecision<D>) -> Option<Svd<W>>,
>(
    vf: spec_fn(F) -> real,
    v: spec_fn(W) -> real,
    vd: spec_fn(D) -> real,
    e: spec_fn(real) -> real,
    embedder: &mut Embedder<'a, F, W>,
    dim: usize,
    solver: S,
    start: Matrix<F>,
)
    requires
        is_exact(v),
        is_exact(vd),
        is_exponential(v, e),
        keeps_value(v, vf),
        is_countable(old(embedder).graph()),
        call_ensures(
            Embedder::<'a, F, W>::get_dmap_initial_embedding::<D, S>,
            (embedder, dim, solver),
            Ok::<Matrix<F>, EmbedError>(start),
        ),
    ensures
        final(embedder).space() matches Some(p) && p.params@.len() == old(embedder).graph().neighbours@.len()
            && is_started(vf, v, vd, solver, dim, p.params@, start),
{
    let params = final(embedder).space().unwrap().params@;
    lemma_started(vf, v, vd, e, old(embedder).graph(), dim, solver, params, start);
}

/// `edges` are the edges of the nodes, node by node and in order, each with the node that it starts
/// from.
pub open spec fn are_edges_of<W>(
    params: Seq<NodeParam<W>>,
    edges: Seq<(NodeIdx, OutEdge<W>)>,
) -> bool {
    let lists = Seq::new(params.len(), |k: int| params[k].edges@);
    &&& edges.len() == edges_before(lists, params.len())
    &&& forall|i: int, k: int|
        0 <= i < params.len() && 0 <= k < params[i].edges@.len() ==> edges[edges_before(lists, i as nat) + k]
            == (i as NodeIdx, #[trigger] params[i].edges@[k])
}

/// `scales` are the scales of the nodes.
pub open spec fn are_scales_of<W>(params: Seq<NodeParam<W>>, scales: Seq<W>) -> bool {
    &&& scales.len() == params.len()
    &&& forall|i: int| 0 <= i < params.len() ==> #[trigger] scales[i] == params[i].scale
}

proof fn lemma_setting_values<W>(params: Seq<NodeParam<W>>, b: W)
    requires
        params.len() <= NodeIdx::MAX,
    ensures
        are_edges_of(params, setting_of(params, b).edges),
        are_scales_of(params, setting_of(params, b).scales),
{
    let lists = Seq::new(params.len(), |k: int| params[k].edges@);
    assert(lists =~= edge_lists(params));
    let edges = setting_of(params, b).edges;
    law_all_edges_in_order(lists, 0, 0);
    assert forall|i: int, k: int| 0 <= i < params.len() && 0 <= k < params[i].edges@.len() implies edges[edges_before(
        lists,
        i as nat,
    ) + k] == (i as NodeIdx, #[trigger] params[i].edges@[k]) by {
        law_all_edges_in_order(lists, i, k);
    }
}

/// Ten iterations take the points `start` to `end`. The iteration `k`, counted from 1, is a descent
/// step of length `0.1 / k` along each edge of the nodes with these parameters, in order. The cross
/// entropy is `entropies.0` before and `entropies.1` after.
pub open spec fn is_optimized_value<F, W>(
    vf: spec_fn(F) -> real,
    v: spec_fn(W) -> real,
    power: spec_fn(real, real) -> real,
    ln: spec_fn(real) -> real,
    params: Seq<NodeParam<W>>,
    b: W,
    start: Seq<Seq<F>>,
    end: Seq<Seq<F>>,
    entropies: (real, real),
) -> bool {
    exists|edges: Seq<(NodeIdx, OutEdge<W>)>, scales: Seq<W>, states: Seq<Seq<Seq<F>>>|
        #![trigger are_edges_of(params, edges), are_passes(vf, v, edges, scales, states)]
        are_edges_of(params, edges) && are_scales_of(params, scales) && are_passes(
            vf,
            v,
            edges,
            scales,
            states,
        ) && states.len() == 11 && states[0] == start && states[10] == end && entropies == (
            cross_sum(vf, v, power, ln, edges, scales, b, start, edges.len()),
            cross_sum(vf, v, power, ln, edges, scales, b, end, edges.len()),
        )
}

/// The arithmetics of an embedding are exact, with exponentials, powers and logarithms, and the
/// conversions between them keep the values.
pub open spec fn is_embeddable<
    F: Real + CastTo<W> + CastTo<D>,
    W: Real + CastTo<F> + CastTo<D>,
    D: Real + CastTo<F>,
>(
    vf: spec_fn(F) -> real,
    v: spec_fn(W) -> real,
    vd: spec_fn(D) -> real,
    e: spec_fn(real) -> real,
    power: spec_fn(real, real) -> real,
    ln: spec_fn(real) -> real,
) -> bool {
    &&& is_movable_exactly(vf, v, vd)
    &&& is_measurable(vf, v, vd, power, ln)
    &&& is_exponential(v, e)
}

/// Points can be moved along every edge of the nodes.
proof fn lemma_movable<F, W>(
    v: spec_fn(W) -> real,
    params: Seq<NodeParam<W>>,
    b: W,
    start: Seq<Seq<F>>,
    width: nat,
)
    requires
        params.len() <= NodeIdx::MAX,
        in_range(edge_lists(params), params.len() as int),
        no_loop(edge_lists(params)),
        forall|i: int| 0 <= i < params.len() ==> v((#[trigger] params[i]).scale) > 0 as real,
        params.len() <= start.len(),
        rectangular(start, width),
    ensures
        are_movable_edges(v, setting_of(params, b).edges, setting_of(params, b).scales, start),
{
    let setting = setting_of(params, b);
    lemma_setting_fits(edge_lists(params), setting);
    assert forall|k: int| 0 <= k < setting.edges.len() implies {
        let (i, j) = ((#[trigger] setting.edges[k]).0, setting.edges[k].1.node);
        &&& i < start.len()
        &&& i < setting.scales.len()
        &&& j < start.len()
        &&& i != j
        &&& start[i as int].len() == start[j as int].len()
        &&& v(setting.scales[i as int]) > 0 as real
    } by {
        let (i, j) = (setting.edges[k].0 as int, setting.edges[k].1.node as int);
        assert(start[i].len() == width && start[j].len() == width);
        assert(setting.scales[i] == params[i].scale);
    }
}

proof fn lemma_optimized<
    F: Real + CastTo<W> + CastTo<D>,
    W: Real + CastTo<F> + CastTo<D>,
    D: Real + CastTo<F>,
>(
    vf: spec_fn(F) -> real,
    v: spec_fn(W) -> real,
    vd: spec_fn(D) -> real,
    power: spec_fn(real, real) -> real,
    ln: spec_fn(real) -> real,
    params: Seq<NodeParam<W>>,
    b: W,
    start: Seq<Seq<F>>,
    width: nat,
    done: Optimized<F, D>,
)
    requires
        is_movable_exactly(vf, v, vd),
        is_measurable(vf, v, vd, power, ln),
        raises(v, b),
        params.len() <= NodeIdx::MAX,
        in_range(edge_lists(params), params.len() as int),
        no_loop(edge_lists(params)),
        forall|i: int| 0 <= i < params.len() ==> v((#[trigger] params[i]).scale) > 0 as real,
        params.len() <= start.len(),
        rectangular(start, width),
        is_optimization(setting_of(params, b), start, Ok::<Optimized<F, D>, EntropyError>(done)),
    ensures
        is_optimized_value(
            vf,
            v,
            power,
            ln,
            params,
            b,
            start,
            done.embedding@,
            (vd(done.initial_ce), vd(done.final_ce)),
        ),
{
    let setting = setting_of(params, b);
    lemma_setting_values(params, b);
    lemma_movable(v, params, b, start, width);
    lemma_optimization(vf, v, vd, power, ln, setting, start, done);
    let states = choose|states: Seq<Seq<Seq<F>>>| #[trigger]
        are_passes(vf, v, setting.edges, setting.scales, states) && states.len() == 11 && states[0]
            == start && states[10] == done.embedding@;
    assert(are_edges_of(params, setting.edges) && are_passes(
        vf,
        v,
        setting.edges,
        setting.scales,
        states,
    ));
}

/// The optimization of an embedding makes ten iterations along the edges of the nodes, from the
/// points that it is given, and measures the cross entropy before and after.
pub proof fn law_entropy_optimize<
    'a,
    F: Real + CastTo<W> + CastTo<D>,
    W: Real + CastTo<F> + CastTo<D>,
    D: Real + CastTo<F>,
>(
    vf: spec_fn(F) -> real,
    v: spec_fn(W) -> real,
    vd: spec_fn(D) -> real,
    power: spec_fn(real, real) -> real,
    ln: spec_fn(real) -> real,
    embedder: &Embedder<'a, F, W>,
    b: W,
    start: &Matrix<F>,
    done: Optimized<F, D>,
)
    requires
        is_movable_exactly(vf, v, vd),
        is_measurable(vf, v, vd, power, ln),
        raises(v, b),
        embedder.wf(),
        embedder.graph().wf(),
        embedder.graph().loop_free(),
        embedder.space() matches Some(p) && forall|i: int|
            0 <= i < p.params@.len() ==> v((#[trigger] p.params@[i]).scale) > 0 as real,
        embedder.graph().neighbours@.len() <= start@.len(),
        rectangular(start@, start.width()),
        call_ensures(
            Embedder::<'a, F, W>::entropy_optimize::<D>,
            (embedder, b, start),
            Ok::<Optimized<F, D>, EmbedError>(done),
        ),
    ensures
        is_optimized_value(
            vf,
            v,
            power,
            ln,
            embedder.space().unwrap().params@,
            b,
            start@,
            done.embedding@,
            (vd(done.initial_ce), vd(done.final_ce)),
        ),
{
    let params = embedder.space().unwrap();
    lemma_edge_lists(&params);
    lemma_optimized(vf, v, vd, power, ln, params.params@, b, start@, start.width(), done);
}

/// An embedding has a point for each node: the initial embedding, which comes from the
/// decomposition of the laplacian of the graph, after ten iterations of the optimization with the
/// exponent 1. The parameters of the nodes are those that their neighbours give them.
pub proof fn law_embed<
    'a,
    F: Real + CastTo<W> + CastTo<D>,
    W: Real + CastTo<F> + CastTo<D>,
    D: Real + CastTo<F>,
    S: Fn(&MatRepr<W>, RangePrecision<D>) -> Option<Svd<W>>,
>(
    vf: spec_fn(F) -> real,
    v: spec_fn(W) -> real,
    vd: spec_fn(D) -> real,
    e: spec_fn(real) -> real,
    power: spec_fn(real, real) -> real,
    ln: spec_fn(real) -> real,
    embedder: &mut Embedder<'a, F, W>,
    solver: S,
    res: Result<usize, EmbedError>,
)
    requires
        is_embeddable(vf, v, vd, e, power, ln),
        forall|b: W| #[trigger] is_one(b) ==> raises(v, b),
        is_countable(old(embedder).graph()),
        old(embedder).graph().neighbours@.len() > 0,
        call_ensures(Embedder::<'a, F, W>::embed::<D, S>, (embedder, solver), res),
    ensures
        match res {
            Ok(n) => {
                let (graph, dim) = (old(embedder).graph(), old(embedder).dimension());
                &&& n == 1
                &&& final(embedder).embedded() matches Some(m) && final(embedder).space() matches Some(p) && {
                    &&& m@.len() == graph.neighbours@.len()
                    &&& m.width() == dim
                    &&& are_node_values(vf, v, e, graph, p.params@)
                    &&& exists|start: Matrix<F>, b: W, entropies: (real, real)|
                        #![trigger is_started(vf, v, vd, solver, dim, p.params@, start), is_optimized_value(vf, v, power, ln, p.params@, b, start@, m@, entropies)]
                        v(b) == 1 as real && is_started(vf, v, vd, solver, dim, p.params@, start)
                            && is_optimized_value(
                            vf,
                            v,
                            power,
                            ln,
                            p.params@,
                            b,
                            start@,
                            m@,
                            entropies,
                        )
                }
            },
            Err(EmbedError::Scale(error)) => is_first_obstacle(vf, old(embedder).graph(), error),
            Err(_) => final(embedder).embedded() == old(embedder).embedded(),
        },
{
    let (graph, dim) = (old(embedder).graph(), old(embedder).dimension());
    match res {
        Ok(_) => {
            let params = final(embedder).space().unwrap().params@;
            let m = final(embedder).embedded().unwrap();
            let outcome = choose|outcome: Result<Matrix<F>, EmbedError>|
                #![trigger is_initial_outcome::<F, W, D, S>(graph, dim, solver, params, outcome)]
                is_initial_outcome::<F, W, D, S>(graph, dim, solver, params, outcome) && match outcome {
                    Err(error) => false,
                    Ok(start) => start@.len() >= params.len() && is_optimized_to::<F, W, D>(
                        params,
                        start,
                        m,
                    ),
                };
            let start = outcome.unwrap();
            let done = choose|done: Optimized<F, D>|
                #![trigger is_optimized::<F, W, D>(params, start, Ok(done))]
                is_optimized::<F, W, D>(params, start, Ok(done)) && m == done.embedding;
            lemma_embedded::<F, W, D, S>(vf, v, vd, e, power, ln, graph, dim, solver, params, start, done);
        },
        Err(EmbedError::Scale(error)) => {
            lemma_refusal::<F, W>(vf, v, e, graph, error);
        },
        Err(_) => {},
    }
}

/// Every node of the graph has the parameters that its neighbours give it.
pub open spec fn are_node_values<F, W>(
    vf: spec_fn(F) -> real,
    v: spec_fn(W) -> real,
    e: spec_fn(real) -> real,
    graph: &KGraph<F>,
    params: Seq<NodeParam<W>>,
) -> bool {
    &&& params.len() == graph.neighbours@.len()
    &&& forall|i: int|
        0 <= i < params.len() ==> is_node_value(
            vf,
            v,
            e,
            graph,
            graph.neighbours@[i]@,
            #[trigger] params[i],
        )
}

proof fn lemma_embedded<
    F: Real + CastTo<W> + CastTo<D>,
    W: Real + CastTo<F> + CastTo<D>,
    D: Real + CastTo<F>,
    S: Fn(&MatRepr<W>, RangePrecision<D>) -> Option<Svd<W>>,
>(
    vf: spec_fn(F) -> real,
    v: spec_fn(W) -> real,
    vd: spec_fn(D) -> real,
    e: spec_fn(real) -> real,
    power: spec_fn(real, real) -> real,
    ln: spec_fn(real) -> real,
    graph: &KGraph<F>,
    dim: usize,
    solver: S,
    params: Seq<NodeParam<W>>,
    start: Matrix<F>,
    done: Optimized<F, D>,
)
    requires
        is_embeddable(vf, v, vd, e, power, ln),
        forall|b: W| #[trigger] is_one(b) ==> raises(v, b),
        is_countable(graph),
        is_initial_outcome::<F, W, D, S>(graph, dim, solver, params, Ok(start)),
        start@.len() >= params.len(),
        is_optimized::<F, W, D>(params, start, Ok(done)),
    ensures
        are_node_values(vf, v, e, graph, params),
        is_started(vf, v, vd, solver, dim, params, start),
        exists|b: W|
            v(b) == 1 as real && #[trigger] is_optimized_value(
                vf,
                v,
                power,
                ln,
                params,
                b,
                start@,
                done.embedding@,
                (vd(done.initial_ce), vd(done.final_ce)),
            ),
{
    assert forall|i: int| 0 <= i < params.len() implies is_node_value(
        vf,
        v,
        e,
        graph,
        graph.neighbours@[i]@,
        #[trigger] params[i],
    ) && v(params[i].scale) > 0 as real by {
        assert(is_param_of(graph, graph.neighbours@[i]@, Ok(params[i])));
        assert(graph.neighbours@[i]@.len() > 0);
        lemma_node_value(vf, v, e, graph, graph.neighbours@[i]@, params[i]);
    }
    lemma_started(vf, v, vd, e, graph, dim, solver, params, start);
    lemma_lists(graph, params);
    let b = choose|b: W|
        #![trigger is_optimization(setting_of(params, b), start@, Ok::<Optimized<F, D>, EntropyError>(done))]
        is_one(b) && is_optimization(setting_of(params, b), start@, Ok(done));
    lemma_optimized(vf, v, vd, power, ln, params, b, start@, dim as nat, done);
    assert(v(b) == 1 as real);
}

/// What is measured of an embedding is the cross entropy of the initial embedding and that of the
/// optimized one.
pub proof fn law_embed_measured<
    'a,
    F: Real + CastTo<W> + CastTo<D>,
    W: Real + CastTo<F> + CastTo<D>,
    D: Real + CastTo<F>,
    S: Fn(&MatRepr<W>, RangePrecision<D>) -> Option<Svd<W>>,
>(
    vf: spec_fn(F) -> real,
    v: spec_fn(W) -> real,
    vd: spec_fn(D) -> real,
    e: spec_fn(real) -> real,
    power: spec_fn(real, real) -> real,
    ln: spec_fn(real) -> real,
    embedder: &mut Embedder<'a, F, W>,
    solver: S,
    entropies: (D, D),
)
    requires
        is_embeddable(vf, v, vd, e, power, ln),
        forall|b: W| #[trigger] is_one(b) ==> raises(v, b),
        is_countable(old(embedder).graph()),
        old(embedder).graph().neighbours@.len() > 0,
        call_ensures(
            Embedder::<'a, F, W>::embed_measured::<D, S>,
            (embedder, solver),
            Ok::<(D, D), EmbedError>(entropies),
        ),
    ensures
        ({
            let dim = old(embedder).dimension();
            final(embedder).embedded() matches Some(m) && final(embedder).space() matches Some(p) && exists|
                start: Matrix<F>,
                b: W,
            |
                #![trigger is_started(vf, v, vd, solver, dim, p.params@, start), v(b)]
                v(b) == 1 as real && is_started(vf, v, vd, solver, dim, p.params@, start)
                    && is_optimized_value(
                    vf,
                    v,
                    power,
                    ln,
                    p.params@,
                    b,
                    start@,
                    m@,
                    (vd(entropies.0), vd(entropies.1)),
                )
        }),
{
    let (graph, dim) = (old(embedder).graph(), old(embedder).dimension());
    let params = final(embedder).space().unwrap().params@;
    let m = final(embedder).embedded().unwrap();
    let (start, done) = choose|start: Matrix<F>, done: Optimized<F, D>|
        #![trigger is_initial_outcome::<F, W, D, S>(graph, dim, solver, params, Ok(start)), is_optimized::<F, W, D>(params, start, Ok(done))]
        is_initial_outcome::<F, W, D, S>(graph, dim, solver, params, Ok(start)) && start@.len()
            >= params.len() && is_optimized::<F, W, D>(params, start, Ok(done)) && m
            == done.embedding && entropies == (done.initial_ce, done.final_ce);
    lemma_embedded::<F, W, D, S>(vf, v, vd, e, power, ln, graph, dim, solver, params, start, done);
    let b = choose|b: W|
        v(b) == 1 as real && #[trigger] is_optimized_value(
            vf,
            v,
            power,
            ln,
            params,
            b,
            start@,
            done.embedding@,
            (vd(done.initial_ce), vd(done.final_ce)),
        );
    assert(v(b) == 1 as real);
}

/// Asked to decompose the laplacian, with precision 0.1, rank steps of 5 and a rank up to 5 above
/// the dimension, the solver answered `answer`.
pub open spec fn is_asked<W, D, S: Fn(&MatRepr<W>, RangePrecision<D>) -> Option<Svd<W>>>(
    vd: spec_fn(D) -> real,
    solver: S,
    dim: usize,
    laplacian: MatRepr<W>,
    answer: Option<Svd<W>>,
) -> bool {
    exists|epsil: D| #[trigger]
        vd(epsil) * (10 as real) == 1 as real && call_ensures(
            solver,
            (&laplacian, RangePrecision { epsil, step: 5, max_rank: (dim + 5) as usize }),
            answer,
        )
}

/// `error` is why a graph whose nodes have parameters has no embedding: the solver gave no
/// decomposition of its laplacian, or one that gives no embedding or no point for one of the nodes.
pub open spec fn is_embed_fault<
    W: Real,
    D,
    S: Fn(&MatRepr<W>, RangePrecision<D>) -> Option<Svd<W>>,
>(
    v: spec_fn(W) -> real,
    vd: spec_fn(D) -> real,
    solver: S,
    dim: usize,
    params: Seq<NodeParam<W>>,
    error: EmbedError,
) -> bool {
    match error {
        EmbedError::SvdFailed => exists|laplacian: LaplacianGraph<W>| #[trigger]
            is_laplacian(edge_lists(params), laplacian) && is_asked(
                vd,
                solver,
                dim,
                laplacian.sym_laplacian,
                None,
            ),
        EmbedError::Spectral(fault) => exists|laplacian: LaplacianGraph<W>, svd: Svd<W>|
            #![trigger is_laplacian(edge_lists(params), laplacian), svd.sigma]
            is_laplacian(edge_lists(params), laplacian) && is_asked(
                vd,
                solver,
                dim,
                laplacian.sym_laplacian,
                Some(svd),
            ) && (is_spectral_fault(
                v,
                laplacian.degrees@,
                svd,
                dim as nat,
                params.len() > 300,
                fault,
            ) || (fault == SpectralError::ShapeMismatch && svd.u@.len() < params.len())),
        _ => false,
    }
}

/// The probabilities of the edges of the nodes are at most 1.
proof fn lemma_weights_at_most_one<F: CastTo<W>, W: Real>(
    v: spec_fn(W) -> real,
    graph: &KGraph<F>,
    params: Seq<NodeParam<W>>,
    b: W,
    k: int,
)
    requires
        is_exact(v),
        has_positive_exp(v),
        is_countable(graph),
        are_params_of(graph, params),
        0 <= k < setting_of(params, b).edges.len(),
    ensures
        v(setting_of(params, b).edges[k].1.weight) <= 1 as real,
{
    let lists = edge_lists(params);
    law_all_edges_sound(lists, k);
    let (i, e) = setting_of(params, b).edges[k];
    let m = choose|m: int| 0 <= m < lists[i as int].len() && lists[i as int][m] == e;
    let neighbours = graph.neighbours@[i as int]@;
    assert(is_param_of(graph, neighbours, Ok(params[i as int])));
    assert(neighbours.len() > 0);
    assert(params[i as int].edges@[m] == e);
    law_probabilities_sum_to_one(v, graph, neighbours, params[i as int], m);
}

proof fn lemma_initial_fault<
    F: CastTo<W>,
    W: Real + CastTo<F>,
    D: Real,
    S: Fn(&MatRepr<W>, RangePrecision<D>) -> Option<Svd<W>>,
>(
    v: spec_fn(W) -> real,
    vd: spec_fn(D) -> real,
    graph: &KGraph<F>,
    dim: usize,
    solver: S,
    params: Seq<NodeParam<W>>,
    res: Result<Matrix<F>, EmbedError>,
)
    requires
        is_exact(v),
        is_exact(vd),
        is_initial_outcome::<F, W, D, S>(graph, dim, solver, params, res),
    ensures
        match res {
            Err(error) => is_embed_fault(v, vd, solver, dim, params, error),
            Ok(start) => start@.len() < params.len() ==> is_embed_fault(
                v,
                vd,
                solver,
                dim,
                params,
                EmbedError::Spectral(SpectralError::ShapeMismatch),
            ),
        },
{
    let (laplacian, answer) = choose|laplacian: LaplacianGraph<W>, answer: Option<Svd<W>>|
        #![trigger is_laplacian(edge_lists(params), laplacian), is_decomposition::<W, D, S>(solver, laplacian.sym_laplacian, dim, answer)]
        is_laplacian(edge_lists(params), laplacian) && is_decomposition::<W, D, S>(
            solver,
            laplacian.sym_laplacian,
            dim,
            answer,
        ) && match answer {
            None => res == Err::<Matrix<F>, EmbedError>(EmbedError::SvdFailed),
            Some(svd) => match res {
                Ok(m) => is_spectral_embedding(
                    laplacian.degrees@,
                    svd,
                    dim as nat,
                    graph.neighbours@.len() > DENSE_LIMIT,
                    Ok(m),
                ),
                Err(EmbedError::Spectral(error)) => is_spectral_embedding::<F, W>(
                    laplacian.degrees@,
                    svd,
                    dim as nat,
                    graph.neighbours@.len() > DENSE_LIMIT,
                    Err(error),
                ),
                Err(_) => false,
            },
        };
    let epsil = choose|epsil: D|
        is_ratio(1, 10, epsil) && call_ensures(
            solver,
            (
                &laplacian.sym_laplacian,
                RangePrecision { epsil, step: RANK_STEP, max_rank: (dim + RANK_STEP) as usize },
            ),
            answer,
        );
    assert(vd(epsil) * (10 as real) == 1 as real);
    assert(is_asked(vd, solver, dim, laplacian.sym_laplacian, answer));
    if let Some(svd) = answer {
        assert(svd.sigma == svd.sigma);
        match res {
            Ok(_) => {},
            Err(EmbedError::Spectral(error)) => {
                lemma_spectral_fault::<F, W>(
                    v,
                    laplacian.degrees@,
                    svd,
                    dim as nat,
                    params.len() > 300,
                    error,
                );
            },
            Err(_) => {},
        }
    }
}

/// There is no initial embedding where a node is refused, for the reason of the first, where the
/// solver gives no decomposition of the laplacian, and where the decomposition gives no embedding.
pub proof fn law_initial_refusals<
    'a,
    F: Real + CastTo<W>,
    W: Real + CastTo<F>,
    D: Real,
    S: Fn(&MatRepr<W>, RangePrecision<D>) -> Option<Svd<W>>,
>(
    vf: spec_fn(F) -> real,
    v: spec_fn(W) -> real,
    vd: spec_fn(D) -> real,
    e: spec_fn(real) -> real,
    embedder: &mut Embedder<'a, F, W>,
    dim: usize,
    solver: S,
    error: EmbedError,
)
    requires
        is_exact(v),
        is_exact(vd),
        is_exponential(v, e),
        keeps_value(vf, v),
        is_countable(old(embedder).graph()),
        call_ensures(
            Embedder::<'a, F, W>::get_dmap_initial_embedding::<D, S>,
            (embedder, dim, solver),
            Err::<Matrix<F>, EmbedError>(error),
        ),
    ensures
        match error {
            EmbedError::Scale(fault) => is_first_obstacle(vf, old(embedder).graph(), fault),
            _ => final(embedder).space() matches Some(p) && is_embed_fault(
                v,
                vd,
                solver,
                dim,
                p.params@,
                error,
            ),
        },
{
    let graph = old(embedder).graph();
    match error {
        EmbedError::Scale(fault) => {
            lemma_refusal::<F, W>(vf, v, e, graph, fault);
        },
        _ => {
            let params = final(embedder).space().unwrap().params@;
            lemma_initial_fault::<F, W, D, S>(
                v,
                vd,
                graph,
                dim,
                solver,
                params,
                Err::<Matrix<F>, EmbedError>(error),
            );
        },
    }
}

/// In an arithmetic in which every number is finite, and normal unless it is 0, there is no
/// embedding where a node is refused, for the reason of the first, where the solver gives no
/// decomposition of the laplacian, and where the decomposition gives no embedding or no point for
/// one of the nodes; and nowhere else. In particular the optimization is never refused.
pub proof fn law_embed_refusals<
    'a,
    F: Real + CastTo<W> + CastTo<D>,
    W: Real + CastTo<F> + CastTo<D>,
    D: Real + CastTo<F>,
    S: Fn(&MatRepr<W>, RangePrecision<D>) -> Option<Svd<W>>,
>(
    vf: spec_fn(F) -> real,
    v: spec_fn(W) -> real,
    vd: spec_fn(D) -> real,
    e: spec_fn(real) -> real,
    power: spec_fn(real, real) -> real,
    ln: spec_fn(real) -> real,
    embedder: &mut Embedder<'a, F, W>,
    solver: S,
    error: EmbedError,
)
    requires
        is_embeddable(vf, v, vd, e, power, ln),
        forall|b: W| #[trigger] is_one(b) ==> raises(v, b),
        is_normal_unless_zero(vf),
        forall|a: D, r: bool| #[trigger] is_finite(a, r) ==> r,
        is_countable(old(embedder).graph()),
        old(embedder).graph().neighbours@.len() > 0,
        call_ensures(
            Embedder::<'a, F, W>::embed::<D, S>,
            (embedder, solver),
            Err::<usize, EmbedError>(error),
        ),
    ensures
        match error {
            EmbedError::Scale(fault) => is_first_obstacle(vf, old(embedder).graph(), fault),
            _ => final(embedder).space() matches Some(p) && is_embed_fault(
                v,
                vd,
                solver,
                old(embedder).dimension(),
                p.params@,
                error,
            ),
        },
{
    let (graph, dim) = (old(embedder).graph(), old(embedder).dimension());
    match error {
        EmbedError::Scale(fault) => {
            lemma_refusal::<F, W>(vf, v, e, graph, fault);
        },
        _ => {
            let params = final(embedder).space().unwrap().params@;
            lemma_embed_fault::<F, W, D, S>(
                vf,
                v,
                vd,
                e,
                power,
                ln,
                graph,
                dim,
                solver,
                params,
                error,
            );
        },
    }
}

proof fn lemma_embed_fault<
    F: Real + CastTo<W> + CastTo<D>,
    W: Real + CastTo<F> + CastTo<D>,
    D: Real + CastTo<F>,
    S: Fn(&MatRepr<W>, RangePrecision<D>) -> Option<Svd<W>>,
>(
    vf: spec_fn(F) -> real,
    v: spec_fn(W) -> real,
    vd: spec_fn(D) -> real,
    e: spec_fn(real) -> real,
    power: spec_fn(real, real) -> real,
    ln: spec_fn(real) -> real,
    graph: &KGraph<F>,
    dim: usize,
    solver: S,
    params: Seq<NodeParam<W>>,
    error: EmbedError,
)
    requires
        is_embeddable(vf, v, vd, e, power, ln),
        forall|b: W| #[trigger] is_one(b) ==> raises(v, b),
        is_normal_unless_zero(vf),
        forall|a: D, r: bool| #[trigger] is_finite(a, r) ==> r,
        is_countable(graph),
        is_embedding::<F, W, D, S>(graph, dim, solver, params, Err(error)),
    ensures
        is_embed_fault(v, vd, solver, dim, params, error),
{
    let initial = choose|initial: Result<Matrix<F>, EmbedError>|
        #![trigger is_initial_outcome::<F, W, D, S>(graph, dim, solver, params, initial)]
        is_initial_outcome::<F, W, D, S>(graph, dim, solver, params, initial) && match initial {
            Err(other) => error == other,
            Ok(start) => if start@.len() < params.len() {
                error == EmbedError::Spectral(SpectralError::ShapeMismatch)
            } else {
                match error {
                    EmbedError::Entropy(fault) => is_optimized::<F, W, D>(params, start, Err(fault)),
                    _ => false,
                }
            },
        };
    lemma_initial_fault::<F, W, D, S>(v, vd, graph, dim, solver, params, initial);
    if let Ok(start) = initial {
        if start@.len() >= params.len() {
            let fault = error->Entropy_0;
            let b = choose|b: W|
                #![trigger is_optimization(setting_of(params, b), start@, Err::<Optimized<F, D>, EntropyError>(fault))]
                is_one(b) && is_optimization(
                    setting_of(params, b),
                    start@,
                    Err::<Optimized<F, D>, EntropyError>(fault),
                );
            let setting = setting_of(params, b);
            lemma_started(vf, v, vd, e, graph, dim, solver, params, start);
            lemma_lists(graph, params);
            assert forall|i: int| 0 <= i < params.len() implies v((#[trigger] params[i]).scale) > 0 as real by {
                assert(is_param_of(graph, graph.neighbours@[i]@, Ok(params[i])));
                assert(graph.neighbours@[i]@.len() > 0);
                lemma_node_value(vf, v, e, graph, graph.neighbours@[i]@, params[i]);
            }
            lemma_movable(v, params, b, start@, dim as nat);
            lemma_optimization_refusals::<F, W, D>(
                vf,
                v,
                vd,
                power,
                ln,
                setting,
                start@,
                Err::<Optimized<F, D>, EntropyError>(fault),
            );
            assert(has_positive_exp(v));
            assert forall|k: int| 0 <= k < setting.edges.len() implies v(
                (#[trigger] setting.edges[k]).1.weight,
            ) <= 1 as real by {
                lemma_weights_at_most_one(v, graph, params, b, k);
            }
        }
    }
}

} // verus!
