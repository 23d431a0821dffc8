//! The embedding process: laplacian, decomposition, initial embedding, optimization.
use vstd::prelude::*;

use crate::entropy::{
    is_optimization, law_iterations_local, lemma_setting_fits, scales_of, EntropyError, EntropyOptim, Optimized,
    Setting, NB_ITERATIONS,
};
use crate::graph::{all_edges, no_loop, KGraph, NodeIdx};
use crate::laplacian::{
    edge_lists, full_laplacian, is_laplacian, sparse_laplacian, LaplacianGraph, MatRepr,
    DENSE_LIMIT,
};
use crate::matrix::{rectangular, Matrix};
use crate::number::{is_one, is_ratio, CastTo, Real};
use crate::scale::{
    are_params_of, is_refused, law_params_keep_edges, node_params, NodeParam, NodeParams,
    ScaleError,
};
use crate::spectral::{
    is_spectral_embedding, spectral_embedding, RangePrecision, SpectralError, Svd,
};

verus! {

/// By how much the rank of the decomposition is increased at a time, and by how much it may exceed
/// the dimension of the embedding.
pub const RANK_STEP: usize = 5;

/// Why there is no embedding.
#[derive(Clone, Copy, Debug, PartialEq, Eq, Structural)]
pub enum EmbedError {
    /// The edges of a node could not be given probabilities.
    Scale(ScaleError),
    /// The laplacian could not be decomposed.
    SvdFailed,
    /// The decomposition of the laplacian gives no embedding.
    Spectral(SpectralError),
    /// The nodes have no parameters yet: the laplacian has not been computed.
    NoNodeParams,
    /// The optimization was given up.
    Entropy(EntropyError),
}

/// The structure corresponding to the embedding process. It is made for a graph and the dimension
/// asked for the embedding.
pub struct Embedder<'a, F, W> {
    /// the graph to be embedded
    kgraph: &'a KGraph<F>,
    /// the embedding dimension
    asked_dimension: usize,
    /// tells that the decomposition is approximated (of a sparse laplacian)
    approximated_svd: bool,
    /// the probabilities of the edges, before the graph was symmetrized: it is this representation
    /// that is used for cross entropy optimization
    initial_space: Option<NodeParams<W>>,
    /// the embedded points
    embedding: Option<Matrix<F>>,
}

/// What the optimization of the embedding of nodes with these parameters does not change.
pub open spec fn setting_of<W>(params: Seq<NodeParam<W>>, b: W) -> Setting<W> {
    Setting { edges: all_edges(edge_lists(params)), scales: scales_of(params), b }
}

/// Asked for a decomposition of the laplacian with precision 0.1, for an embedding in `dim`
/// dimensions, the solver answered `answer`.
pub open spec fn is_decomposition<
    W,
    D: Real,
    S: Fn(&MatRepr<W>, RangePrecision<D>) -> Option<Svd<W>>,
>(solver: S, laplacian: MatRepr<W>, dim: usize, answer: Option<Svd<W>>) -> bool {
    exists|epsil: D|
        is_ratio(1, 10, epsil) && call_ensures(
            solver,
            (
                &laplacian,
                RangePrecision { epsil, step: RANK_STEP, max_rank: (dim + RANK_STEP) as usize },
            ),
            answer,
        )
}

/// `res` is the initial embedding of the graph in `dim` dimensions, and `params` are the parameters of
/// its nodes.
pub open spec fn is_initial_outcome<
    F: CastTo<W>,
    W: Real + CastTo<F>,
    D: Real,
    S: Fn(&MatRepr<W>, RangePrecision<D>) -> Option<Svd<W>>,
>(
    graph: &KGraph<F>,
    dim: usize,
    solver: S,
    params: Seq<NodeParam<W>>,
    res: Result<Matrix<F>, EmbedError>,
) -> bool {
    &&& are_params_of(graph, params)
    &&& exists|laplacian: LaplacianGraph<W>, answer: Option<Svd<W>>|
        #![trigger is_laplacian(edge_lists(params), laplacian), is_decomposition::<W, D, S>(solver, laplacian.sym_laplacian, dim, answer)]
        is_laplacian(edge_lists(params), laplacian) && is_decomposition::<W, D, S>(
            solver,
            laplacian.sym_laplacian,
            dim,
            answer,
        ) && match answer {
            None => res == Err::<Matrix<F>, EmbedError>(EmbedError::SvdFailed),
            Some(svd) => match res {
                Ok(m) => is_spectral_embedding(
                    laplacian.degrees@,
                    svd,
                    dim as nat,
                    graph.neighbours@.len() > DENSE_LIMIT,
                    Ok(m),
                ),
                Err(EmbedError::Spectral(error)) => is_spectral_embedding::<F, W>(
                    laplacian.degrees@,
                    svd,
                    dim as nat,
                    graph.neighbours@.len() > DENSE_LIMIT,
                    Err(error),
                ),
                Err(_) => false,
            },
        }
}

/// `done` is the outcome of the optimization that starts from the initial embedding.
pub open spec fn is_optimized<
    F: Real + CastTo<W> + CastTo<D>,
    W: Real + CastTo<F> + CastTo<D>,
    D: Real + CastTo<F>,
>(
    params: Seq<NodeParam<W>>,
    initial: Matrix<F>,
    done: Result<Optimized<F, D>, EntropyError>,
) -> bool {
    exists|b: W|
        #![trigger is_optimization(setting_of(params, b), initial@, done)]
        is_one(b) && is_optimization(setting_of(params, b), initial@, done)
}

/// The optimization that starts from the initial embedding ends with the points `m`.
pub open spec fn is_optimized_to<
    F: Real + CastTo<W> + CastTo<D>,
    W: Real + CastTo<F> + CastTo<D>,
    D: Real + CastTo<F>,
>(params: Seq<NodeParam<W>>, initial: Matrix<F>, m: Matrix<F>) -> bool {
    exists|done: Optimized<F, D>|
        #![trigger is_optimized::<F, W, D>(params, initial, Ok(done))]
        is_optimized::<F, W, D>(params, initial, Ok(done)) && m == done.embedding
}

/// The outcome of the embedding in `dim` dimensions of a graph whose nodes have the parameters `params`: the
/// embedded points, or why there are none.
pub open spec fn is_embedding<
    F: Real + CastTo<W> + CastTo<D>,
    W: Real + CastTo<F> + CastTo<D>,
    D: Real + CastTo<F>,
    S: Fn(&MatRepr<W>, RangePrecision<D>) -> Option<Svd<W>>,
>(
    graph: &KGraph<F>,
    dim: usize,
    solver: S,
    params: Seq<NodeParam<W>>,
    res: Result<Matrix<F>, EmbedError>,
) -> bool {
    exists|initial: Result<Matrix<F>, EmbedError>|
        #![trigger is_initial_outcome::<F, W, D, S>(graph, dim, solver, params, initial)]
        is_initial_outcome::<F, W, D, S>(graph, dim, solver, params, initial) && match initial {
            Err(error) => res == Err::<Matrix<F>, EmbedError>(error),
            Ok(start) => if start@.len() < params.len() {
                res == Err::<Matrix<F>, EmbedError>(
                    EmbedError::Spectral(SpectralError::ShapeMismatch),
                )
            } else {
                match res {
                    Ok(m) => is_optimized_to::<F, W, D>(params, start, m),
                    Err(EmbedError::Entropy(error)) => is_optimized::<F, W, D>(
                        params,
                        start,
                        Err(error),
                    ),
                    Err(_) => false,
                }
            },
        }
}

/// `entropies` are the cross entropy before and after the optimization that ends with the points `m`.
pub open spec fn is_measured<
    F: Real + CastTo<W> + CastTo<D>,
    W: Real + CastTo<F> + CastTo<D>,
    D: Real + CastTo<F>,
    S: Fn(&MatRepr<W>, RangePrecision<D>) -> Option<Svd<W>>,
>(
    graph: &KGraph<F>,
    dim: usize,
    solver: S,
    params: Seq<NodeParam<W>>,
    m: Matrix<F>,
    entropies: (D, D),
) -> bool {
    exists|start: Matrix<F>, done: Optimized<F, D>|
        #![trigger is_initial_outcome::<F, W, D, S>(graph, dim, solver, params, Ok(start)), is_optimized::<F, W, D>(params, start, Ok(done))]
        is_initial_outcome::<F, W, D, S>(graph, dim, solver, params, Ok(start)) && start@.len()
            >= params.len() && is_optimized::<F, W, D>(params, start, Ok(done)) && m == done.embedding && entropies == (
            done.initial_ce,
            done.final_ce,
        )
}

impl<'a, F, W> Embedder<'a, F, W> {
    /// The graph to be embedded.
    pub closed spec fn graph(&self) -> &'a KGraph<F> {
        self.kgraph
    }

    /// The embedding dimension.
    pub closed spec fn dimension(&self) -> usize {
        self.asked_dimension
    }

    /// The decomposition is that of a sparse laplacian.
    pub closed spec fn approximated(&self) -> bool {
        self.approximated_svd
    }

    /// The parameters of the nodes, once the laplacian has been computed.
    pub closed spec fn space(&self) -> Option<NodeParams<W>> {
        self.initial_space
    }

    /// The embedded points, once there are any.
    pub closed spec fn embedded(&self) -> Option<Matrix<F>> {
        self.embedding
    }

    /// Only a graph of more than [`DENSE_LIMIT`] nodes has an approximated decomposition, and the
    /// parameters of the nodes are those of the graph.
    pub open spec fn wf(&self) -> bool {
        &&& self.approximated() ==> self.graph().neighbours@.len() > DENSE_LIMIT
        &&& self.space() matches Some(p) ==> p.wf() && p.params@.len()
            == self.graph().neighbours@.len() && (self.graph().loop_free() ==> no_loop(
            edge_lists(p.params@),
        ))
    }

    /// Constructor from a graph and the asked embedding dimension.
    pub fn new(kgraph: &'a KGraph<F>, asked_dimension: usize) -> (res: Embedder<'a, F, W>)
        ensures
            res.wf(),
            res.graph() == kgraph,
            res.dimension() == asked_dimension,
            !res.approximated(),
            res.space() is None,
            res.embedded() is None,
    {
        Embedder {
            kgraph,
            asked_dimension,
            approximated_svd: false,
            initial_space: None,
            embedding: None,
        }
    }

    /// Returns the embedded data, once there is any.
    pub fn get_emmbedded(&self) -> (res: Option<&Matrix<F>>)
        ensures
            match res {
                Some(m) => self.embedded() == Some(*m),
                None => self.embedded() is None,
            },
    {
        self.embedding.as_ref()
    }

    /// Whether the nodes have parameters, that is whether the laplacian has been computed.
    pub fn has_node_params(&self) -> (res: bool)
        ensures
            res == (self.space() is Some),
    {
        self.initial_space.is_some()
    }

    /// The embedding of a given node.
    pub fn get_node_embedding(&self, node: NodeIdx) -> (row: &Vec<F>)
        requires
            self.embedded() matches Some(m) && node < m@.len(),
        ensures
            row@ == self.embedded().unwrap()@[node as int],
    {
        self.embedding.as_ref().unwrap().row(node)
    }
}

impl<'a, F: Real + CastTo<W>, W: Real + CastTo<F>> Embedder<'a, F, W> {
    /// Computes the symmetric laplacian of the graph, for the decomposition, and keeps the parameters
    /// of the nodes, from which it is built, for the optimization.
    pub fn get_laplacian(&mut self) -> (res: Result<LaplacianGraph<W>, ScaleError>)
        requires
            old(self).wf(),
            old(self).graph().wf(),
            old(self).graph().neighbours@.len() > DENSE_LIMIT ==> old(self).graph().loop_free(),
        ensures
            final(self).wf(),
            final(self).graph() == old(self).graph(),
            final(self).dimension() == old(self).dimension(),
            final(self).embedded() == old(self).embedded(),
            match res {
                Ok(laplacian) => {
                    &&& final(self).approximated() == (old(self).graph().neighbours@.len()
                        > DENSE_LIMIT)
                    &&& final(self).space() matches Some(p) && are_params_of(
                        old(self).graph(),
                        p.params@,
                    ) && is_laplacian(edge_lists(p.params@), laplacian)
                },
                Err(error) => {
                    &&& is_refused::<F, W>(old(self).graph(), error)
                    &&& *final(self) == *old(self)
                },
            },
    {
        let nbnodes: usize = self.kgraph.get_nb_nodes();
        let params: NodeParams<W> = match node_params(self.kgraph) {
            Ok(params) => params,
            Err(error) => {
                return Err(error);
            },
        };
        proof {
            lemma_no_loop(self.kgraph, params.params@);
        }
        let laplacian = if nbnodes <= DENSE_LIMIT {
            assert(nbnodes * nbnodes <= 90000) by (nonlinear_arith)
                requires
                    nbnodes <= 300,
            ;
            let (m, degrees) = full_laplacian(&params);
            LaplacianGraph { sym_laplacian: MatRepr::Full(m), degrees }
        } else {
            self.approximated_svd = true;
            let (csr, degrees) = sparse_laplacian(&params);
            LaplacianGraph { sym_laplacian: MatRepr::Sparse(csr), degrees }
        };
        self.initial_space = Some(params);
        Ok(laplacian)
    }

    /// Initializes the embedding by diffusion maps at time 0, from the decomposition of the laplacian
    /// that `solver` gives.
    pub fn get_dmap_initial_embedding<D, S>(&mut self, asked_dim: usize, solver: S) -> (res: Result<
        Matrix<F>,
        EmbedError,
    >) where D: Real, S: Fn(&MatRepr<W>, RangePrecision<D>) -> Option<Svd<W>>
        requires
            old(self).wf(),
            old(self).graph().wf(),
            old(self).graph().neighbours@.len() > DENSE_LIMIT ==> old(self).graph().loop_free(),
            asked_dim + RANK_STEP <= usize::MAX,
            forall|m: &MatRepr<W>, precision: RangePrecision<D>|
                call_requires(solver, (m, precision)),
        ensures
            final(self).wf(),
            final(self).graph() == old(self).graph(),
            final(self).dimension() == old(self).dimension(),
            final(self).embedded() == old(self).embedded(),
            match res {
                Err(EmbedError::Scale(error)) => {
                    &&& is_refused::<F, W>(old(self).graph(), error)
                    &&& *final(self) == *old(self)
                },
                _ => {
                    &&& final(self).approximated() == (old(self).graph().neighbours@.len()
                        > DENSE_LIMIT)
                    &&& final(self).space() matches Some(p) && is_initial_outcome::<F, W, D, S>(
                        old(self).graph(),
                        asked_dim,
                        solver,
                        p.params@,
                        res,
                    )
                },
            },
    {
        let laplacian = match self.get_laplacian() {
            Ok(laplacian) => laplacian,
            Err(error) => {
                return Err(EmbedError::Scale(error));
            },
        };
        let epsil = D::ratio(1, 10);
        let precision = RangePrecision { epsil, step: RANK_STEP, max_rank: asked_dim + RANK_STEP };
        let answer = solver(&laplacian.sym_laplacian, precision);
        assert(is_decomposition::<W, D, S>(solver, laplacian.sym_laplacian, asked_dim, answer));
        let ghost params = self.space().unwrap().params@;
        assert(is_laplacian(edge_lists(params), laplacian));
        let svd = match answer {
            Some(svd) => svd,
            None => {
                return Err(EmbedError::SvdFailed);
            },
        };
        match spectral_embedding(&laplacian.degrees, &svd, asked_dim, self.approximated_svd) {
            Ok(m) => Ok(m),
            Err(error) => Err(EmbedError::Spectral(error)),
        }
    }

    /// Minimizes the divergence between the embedded and the initial distribution of probability,
    /// starting from the initial embedding.
    pub fn entropy_optimize<D>(&self, b: W, initial_embedding: &Matrix<F>) -> (res: Result<
        Optimized<F, D>,
        EmbedError,
    >) where D: Real + CastTo<F>, F: CastTo<D>, W: CastTo<D>
        requires
            self.wf(),
            self.space() is Some ==> self.graph().loop_free() && self.graph().neighbours@.len() > 0
                && self.graph().neighbours@.len() <= initial_embedding@.len(),
        ensures
            match self.space() {
                None => res == Err::<Optimized<F, D>, EmbedError>(EmbedError::NoNodeParams),
                Some(p) => match res {
                    Ok(done) => is_optimization(
                        setting_of(p.params@, b),
                        initial_embedding@,
                        Ok(done),
                    ),
                    Err(EmbedError::Entropy(error)) => is_optimization::<F, W, D>(
                        setting_of(p.params@, b),
                        initial_embedding@,
                        Err(error),
                    ),
                    Err(_) => false,
                },
            },
    {
        match &self.initial_space {
            None => Err(EmbedError::NoNodeParams),
            Some(p) => {
                let optim = EntropyOptim::new(p, b, initial_embedding);
                assert(optim.setting() == setting_of(p.params@, b));
                match optim.optimize::<D>() {
                    Ok(done) => Ok(done),
                    Err(error) => Err(EmbedError::Entropy(error)),
                }
            },
        }
    }

    /// Does the embedding, and returns the cross entropy before and after the optimization. `solver` decomposes the
    /// laplacian of the graph.
    pub fn embed_measured<D, S>(&mut self, solver: S) -> (res: Result<(D, D), EmbedError>) where
        D: Real + CastTo<F>,
        F: CastTo<D>,
        W: CastTo<D>,
        S: Fn(&MatRepr<W>, RangePrecision<D>) -> Option<Svd<W>>,

        requires
            old(self).wf(),
            old(self).graph().wf(),
            old(self).graph().loop_free(),
            old(self).graph().neighbours@.len() > 0,
            old(self).dimension() + RANK_STEP <= usize::MAX,
            forall|m: &MatRepr<W>, precision: RangePrecision<D>|
                call_requires(solver, (m, precision)),
        ensures
            final(self).wf(),
            final(self).graph() == old(self).graph(),
            final(self).dimension() == old(self).dimension(),
            match res {
                Err(EmbedError::Scale(error)) => {
                    &&& is_refused::<F, W>(old(self).graph(), error)
                    &&& *final(self) == *old(self)
                },
                Err(error) => {
                    &&& final(self).approximated() == (old(self).graph().neighbours@.len()
                        > DENSE_LIMIT)
                    &&& final(self).space() matches Some(p) && is_embedding::<F, W, D, S>(
                        old(self).graph(),
                        old(self).dimension(),
                        solver,
                        p.params@,
                        Err(error),
                    )
                    &&& final(self).embedded() == old(self).embedded()
                },
                Ok(entropies) => {
                    &&& final(self).approximated() == (old(self).graph().neighbours@.len()
                        > DENSE_LIMIT)
                    &&& final(self).embedded() is Some
                    &&& final(self).space() matches Some(p) && is_embedding::<F, W, D, S>(
                        old(self).graph(),
                        old(self).dimension(),
                        solver,
                        p.params@,
                        Ok(final(self).embedded().unwrap()),
                    ) && is_measured::<F, W, D, S>(
                        old(self).graph(),
                        old(self).dimension(),
                        solver,
                        p.params@,
                        final(self).embedded().unwrap(),
                        entropies,
                    )
                    &&& final(self).embedded().unwrap().width() == old(self).dimension()
                    &&& final(self).embedded().unwrap()@.len() == old(
                        self,
                    ).graph().neighbours@.len()
                },
            },
    {
        let initial = match self.get_dmap_initial_embedding::<D, S>(self.asked_dimension, solver) {
            Ok(initial) => initial,
            Err(error) => {
                return Err(error);
            },
        };
        let ghost params = self.space().unwrap().params@;
        if initial.nrows() < self.kgraph.get_nb_nodes() {
            return Err(EmbedError::Spectral(SpectralError::ShapeMismatch));
        }
        let b = W::one();
        match self.entropy_optimize::<D>(b, &initial) {
            Ok(done) => {
                proof {
                    assert(is_optimized::<F, W, D>(params, initial, Ok(done)));
                    assert(is_optimized_to::<F, W, D>(params, initial, done.embedding));
                    law_embedding_shape::<F, W, D, S>(
                        self.graph(),
                        self.dimension(),
                        solver,
                        params,
                        done.embedding,
                    );
                }
                self.embedding = Some(done.embedding);
                Ok((done.initial_ce, done.final_ce))
            },
            Err(error) => Err(error),
        }
    }

    /// Does the embedding. `solver` decomposes the laplacian of the graph.
    pub fn embed<D, S>(&mut self, solver: S) -> (res: Result<usize, EmbedError>) where
        D: Real + CastTo<F>,
        F: CastTo<D>,
        W: CastTo<D>,
        S: Fn(&MatRepr<W>, RangePrecision<D>) -> Option<Svd<W>>,

        requires
            old(self).wf(),
            old(self).graph().wf(),
            old(self).graph().loop_free(),
            old(self).graph().neighbours@.len() > 0,
            old(self).dimension() + RANK_STEP <= usize::MAX,
            forall|m: &MatRepr<W>, precision: RangePrecision<D>|
                call_requires(solver, (m, precision)),
        ensures
            final(self).wf(),
            final(self).graph() == old(self).graph(),
            final(self).dimension() == old(self).dimension(),
            match res {
                Err(EmbedError::Scale(error)) => {
                    &&& is_refused::<F, W>(old(self).graph(), error)
                    &&& *final(self) == *old(self)
                },
                Err(error) => {
                    &&& final(self).approximated() == (old(self).graph().neighbours@.len()
                        > DENSE_LIMIT)
                    &&& final(self).space() matches Some(p) && is_embedding::<F, W, D, S>(
                        old(self).graph(),
                        old(self).dimension(),
                        solver,
                        p.params@,
                        Err(error),
                    )
                    &&& final(self).embedded() == old(self).embedded()
                },
                Ok(n) => {
                    &&& n == 1
                    &&& final(self).approximated() == (old(self).graph().neighbours@.len()
                        > DENSE_LIMIT)
                    &&& final(self).embedded() is Some
                    &&& final(self).space() matches Some(p) && is_embedding::<F, W, D, S>(
                        old(self).graph(),
                        old(self).dimension(),
                        solver,
                        p.params@,
                        Ok(final(self).embedded().unwrap()),
                    )
                    &&& final(self).embedded().unwrap().width() == old(self).dimension()
                    &&& final(self).embedded().unwrap()@.len() == old(
                        self,
                    ).graph().neighbours@.len()
                },
            },
    {
        match self.embed_measured::<D, S>(solver) {
            Ok(_) => Ok(1),
            Err(error) => Err(error),
        }
    }
}

/// The parameters of the nodes of a graph without loops have no loop.
proof fn lemma_no_loop<F: CastTo<W>, W: Real>(graph: &KGraph<F>, params: Seq<NodeParam<W>>)
    requires
        are_params_of(graph, params),
    ensures
        graph.loop_free() ==> no_loop(edge_lists(params)),
{
    let lists = edge_lists(params);
    if graph.loop_free() {
        assert forall|i: int, k: int| 0 <= i < lists.len() && 0 <= k < lists[i].len() implies (
        #[trigger] lists[i][k]).node != i by {
            law_params_keep_edges(graph, params, i);
            assert(lists[i][k] == params[i].edges@[k]);
            assert(graph.neighbours@[i]@[k].node != i);
        }
    }
}

/// An embedding in `dim` dimensions gives every node of the graph `dim` coordinates. It has a point for
/// each node and no other.
pub proof fn law_embedding_shape<
    F: Real + CastTo<W> + CastTo<D>,
    W: Real + CastTo<F> + CastTo<D>,
    D: Real + CastTo<F>,
    S: Fn(&MatRepr<W>, RangePrecision<D>) -> Option<Svd<W>>,
>(graph: &KGraph<F>, dim: usize, solver: S, params: Seq<NodeParam<W>>, m: Matrix<F>)
    requires
        graph.wf(),
        graph.neighbours@.len() > 0,
        is_embedding::<F, W, D, S>(graph, dim, solver, params, Ok(m)),
    ensures
        m.width() == dim,
        rectangular(m@, dim as nat),
        m@.len() == graph.neighbours@.len(),
{
    let outcome = choose|outcome: Result<Matrix<F>, EmbedError>|
        #![trigger is_initial_outcome::<F, W, D, S>(graph, dim, solver, params, outcome)]
        is_initial_outcome::<F, W, D, S>(graph, dim, solver, params, outcome) && match outcome {
            Err(error) => false,
            Ok(start) => start@.len() >= params.len() && is_optimized_to::<F, W, D>(
                params,
                start,
                m,
            ),
        };
    let initial = outcome.unwrap();
    let done = choose|done: Optimized<F, D>|
        #![trigger is_optimized::<F, W, D>(params, initial, Ok(done))]
        is_optimized::<F, W, D>(params, initial, Ok(done)) && m == done.embedding;
    let b = choose|b: W|
        #![trigger is_optimization(setting_of(params, b), initial@, Ok::<Optimized<F, D>, EntropyError>(done))]
        is_one(b) && is_optimization(setting_of(params, b), initial@, Ok(done));
    let setting = setting_of(params, b);
    let lists = edge_lists(params);
    assert forall|i: int, k: int| 0 <= i < lists.len() && 0 <= k < lists[i].len() implies (
    #[trigger] lists[i][k]).node < lists.len() by {
        law_params_keep_edges(graph, params, i);
        assert(lists[i][k] == params[i].edges@[k]);
        assert(graph.neighbours@[i]@[k].node < lists.len());
    }
    lemma_setting_fits(lists, setting);
    assert forall|v: int| 0 <= v < initial@.len() implies m@.len() == initial@.len() && (
    #[trigger] m@[v]).len() == initial@[v].len() by {
        law_iterations_local::<F, W, D>(setting, NB_ITERATIONS as nat, initial@, m@, v);
    }
    assert(m@[0].len() == initial@[0].len());
    assert(rectangular(initial@, dim as nat));
}

/// The embedding of a node is its row in the embedded data. Before there is an embedding there is
/// no such data.
pub proof fn law_node_embedding<'a, F, W>(
    embedder: &Embedder<'a, F, W>,
    node: NodeIdx,
    data: Option<&Matrix<F>>,
    row: &Vec<F>,
    point: &Vec<F>,
)
    requires
        call_ensures(Embedder::<'a, F, W>::get_emmbedded, (embedder,), data),
        call_ensures(Embedder::<'a, F, W>::get_node_embedding, (embedder, node), point),
        data matches Some(m) ==> call_ensures(Matrix::<F>::row, (m, node), row),
    ensures
        data is Some <==> embedder.embedded() is Some,
        data is Some ==> point@ == row@,
{
}

/// A new embedder is made for its graph and dimension. It has neither embedded data nor parameters
/// of the nodes.
pub proof fn law_new_embedder<'a, F, W>(
    kgraph: &'a KGraph<F>,
    asked_dimension: usize,
    embedder: Embedder<'a, F, W>,
    data: Option<&Matrix<F>>,
    known: bool,
)
    requires
        call_ensures(Embedder::<'a, F, W>::new, (kgraph, asked_dimension), embedder),
        call_ensures(Embedder::<'a, F, W>::get_emmbedded, (&embedder,), data),
        call_ensures(Embedder::<'a, F, W>::has_node_params, (&embedder,), known),
    ensures
        embedder.graph() == kgraph,
        embedder.dimension() == asked_dimension,
        data is None,
        !known,
{
}

/// Once the laplacian has been computed the nodes have parameters. Where it is refused, they have
/// them if they had them before. The embedded data stay as they are.
pub proof fn law_laplacian_gives_params<'a, F: Real + CastTo<W>, W: Real + CastTo<F>>(
    embedder: &mut Embedder<'a, F, W>,
    res: Result<LaplacianGraph<W>, ScaleError>,
    before: bool,
    after: bool,
    data: Option<&Matrix<F>>,
    kept: Option<&Matrix<F>>,
)
    requires
        call_ensures(Embedder::<'a, F, W>::get_laplacian, (embedder,), res),
        call_ensures(Embedder::<'a, F, W>::has_node_params, (&*old(embedder),), before),
        call_ensures(Embedder::<'a, F, W>::has_node_params, (&*final(embedder),), after),
        call_ensures(Embedder::<'a, F, W>::get_emmbedded, (&*old(embedder),), data),
        call_ensures(Embedder::<'a, F, W>::get_emmbedded, (&*final(embedder),), kept),
    ensures
        after == (before || res is Ok),
        data == kept,
{
}

/// After an embedding the embedded data are there: a point for each node of the graph, each with as
/// many coordinates as the dimension that the embedder was made for.
pub proof fn law_embed_gives_data<
    'a,
    F: Real + CastTo<W> + CastTo<D>,
    W: Real + CastTo<F> + CastTo<D>,
    D: Real + CastTo<F>,
    S: Fn(&MatRepr<W>, RangePrecision<D>) -> Option<Svd<W>>,
>(
    embedder: &mut Embedder<'a, F, W>,
    solver: S,
    n: usize,
    data: Option<&Matrix<F>>,
    rows: usize,
    cols: usize,
)
    requires
        old(embedder).graph().wf(),
        old(embedder).graph().neighbours@.len() > 0,
        call_ensures(
            Embedder::<'a, F, W>::embed::<D, S>,
            (embedder, solver),
            Ok::<usize, EmbedError>(n),
        ),
        call_ensures(Embedder::<'a, F, W>::get_emmbedded, (&*final(embedder),), data),
        data matches Some(m) ==> call_ensures(Matrix::<F>::nrows, (m,), rows) && call_ensures(
            Matrix::<F>::ncols,
            (m,),
            cols,
        ),
    ensures
        data is Some,
        rows == old(embedder).graph().neighbours@.len(),
        cols == old(embedder).dimension(),
{
    let m = final(embedder).embedded().unwrap();
    let p = final(embedder).space().unwrap();
    law_embedding_shape::<F, W, D, S>(
        old(embedder).graph(),
        old(embedder).dimension(),
        solver,
        p.params@,
        m,
    );
}

/// A refused embedding leaves the embedded data as they were, with or without the cross entropies,
/// and so does the initial embedding.
pub proof fn law_refusal_keeps_data<
    'a,
    F: Real + CastTo<W> + CastTo<D>,
    W: Real + CastTo<F> + CastTo<D>,
    D: Real + CastTo<F>,
    S: Fn(&MatRepr<W>, RangePrecision<D>) -> Option<Svd<W>>,
>(
    embedder: &mut Embedder<'a, F, W>,
    solver: S,
    asked_dim: usize,
    error: EmbedError,
    initial: Result<Matrix<F>, EmbedError>,
    data: Option<&Matrix<F>>,
    kept: Option<&Matrix<F>>,
)
    requires
        call_ensures(
            Embedder::<'a, F, W>::embed::<D, S>,
            (embedder, solver),
            Err::<usize, EmbedError>(error),
        ) || call_ensures(
            Embedder::<'a, F, W>::embed_measured::<D, S>,
            (embedder, solver),
            Err::<(D, D), EmbedError>(error),
        ) || call_ensures(
            Embedder::<'a, F, W>::get_dmap_initial_embedding::<D, S>,
            (embedder, asked_dim, solver),
            initial,
        ),
        call_ensures(Embedder::<'a, F, W>::get_emmbedded, (&*old(embedder),), data),
        call_ensures(Embedder::<'a, F, W>::get_emmbedded, (&*final(embedder),), kept),
    ensures
        data == kept,
        final(embedder).graph() == old(embedder).graph(),
        final(embedder).dimension() == old(embedder).dimension(),
{
}

} // verus!
