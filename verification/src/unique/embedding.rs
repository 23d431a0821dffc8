//! The embedding of a graph is unique.
use vstd::prelude::*;

use crate::embedder::{
    is_decomposition, is_embedding, is_initial_outcome, is_optimized, is_optimized_to, setting_of,
    EmbedError, RANK_STEP,
};
use crate::entropy::{is_optimization, lemma_setting_fits, EntropyError, Optimized};
use crate::graph::{in_range, no_loop, KGraph};
use crate::laplacian::{edge_lists, is_laplacian, LaplacianGraph, MatRepr, DENSE_LIMIT};
use crate::matrix::Matrix;
use crate::number::{casts_once, is_deterministic, is_one, is_ratio, is_repeatable, CastTo, Real};
use crate::scale::{are_params_of, law_params_keep_edges, NodeParam};
use crate::spectral::{is_spectral_embedding, RangePrecision, SpectralError, Svd};
use crate::unique::entropy::{law_optimization_unique, same_optimized};
use crate::unique::is_steady;
use crate::unique::laplacian::{law_laplacian_unique, same_matrix};
use crate::unique::scale::law_params_unique;
use crate::unique::spectral::{law_spectral_embedding_unique, same_outcome, same_svd};

verus! {

/// The two answers of a solver are the same.
pub open spec fn same_answer<W>(a: Option<Svd<W>>, b: Option<Svd<W>>) -> bool {
    match (a, b) {
        (Some(x), Some(y)) => same_svd(x, y),
        (None, None) => true,
        _ => false,
    }
}

/// Asked to decompose the same matrix twice, the solver gives the same answer.
pub open spec fn is_steady_solver<
    W,
    D,
    S: Fn(&MatRepr<W>, RangePrecision<D>) -> Option<Svd<W>>,
>(solver: S) -> bool {
    forall|
        m: MatRepr<W>,
        n: MatRepr<W>,
        precision: RangePrecision<D>,
        a: Option<Svd<W>>,
        b: Option<Svd<W>>,
    |
        #![trigger call_ensures(solver, (&m, precision), a), call_ensures(solver, (&n, precision), b)]
        same_matrix(m, n) && call_ensures(solver, (&m, precision), a) && call_ensures(
            solver,
            (&n, precision),
            b,
        ) ==> same_answer(a, b)
}

/// The edges of the parameters of a graph are those of the graph.
proof fn lemma_lists<F: CastTo<W>, W: Real>(graph: &KGraph<F>, params: Seq<NodeParam<W>>)
    requires
        graph.wf(),
        graph.loop_free(),
        are_params_of(graph, params),
    ensures
        in_range(edge_lists(params), edge_lists(params).len() as int),
        no_loop(edge_lists(params)),
{
    let lists = edge_lists(params);
    assert forall|i: int, k: int| 0 <= i < lists.len() && 0 <= k < lists[i].len() implies (
    #[trigger] lists[i][k]).node < lists.len() && lists[i][k].node != i by {
        law_params_keep_edges(graph, params, i);
        assert(lists[i][k] == params[i].edges@[k]);
        assert(graph.neighbours@[i]@[k].node < lists.len());
    }
}

proof fn lemma_decomposition_unique<
    W,
    D: Real,
    S: Fn(&MatRepr<W>, RangePrecision<D>) -> Option<Svd<W>>,
>(
    solver: S,
    m: MatRepr<W>,
    n: MatRepr<W>,
    dim: usize,
    a: Option<Svd<W>>,
    b: Option<Svd<W>>,
)
    requires
        is_deterministic::<D>(),
        is_steady_solver::<W, D, S>(solver),
        same_matrix(m, n),
        is_decomposition::<W, D, S>(solver, m, dim, a),
        is_decomposition::<W, D, S>(solver, n, dim, b),
    ensures
        same_answer(a, b),
{
    let max_rank = (dim + RANK_STEP) as usize;
    let p = choose|epsil: D|
        is_ratio(1, 10, epsil) && call_ensures(
            solver,
            (&m, RangePrecision { epsil, step: RANK_STEP, max_rank }),
            a,
        );
    let q = choose|epsil: D|
        is_ratio(1, 10, epsil) && call_ensures(
            solver,
            (&n, RangePrecision { epsil, step: RANK_STEP, max_rank }),
            b,
        );
    assert(p == q);
}

/// The laplacian and the answer of the solver behind an initial embedding.
proof fn initial_from<
    F: CastTo<W>,
    W: Real + CastTo<F>,
    D: Real,
    S: Fn(&MatRepr<W>, RangePrecision<D>) -> Option<Svd<W>>,
>(
    graph: &KGraph<F>,
    dim: usize,
    solver: S,
    params: Seq<NodeParam<W>>,
    res: Result<Matrix<F>, EmbedError>,
) -> (r: (LaplacianGraph<W>, Option<Svd<W>>))
    requires
        is_initial_outcome::<F, W, D, S>(graph, dim, solver, params, res),
    ensures
        is_laplacian(edge_lists(params), r.0),
        is_decomposition::<W, D, S>(solver, r.0.sym_laplacian, dim, r.1),
        is_read_from(graph, dim, r.0, r.1, res),
{
    choose|laplacian: LaplacianGraph<W>, answer: Option<Svd<W>>|
        #![trigger is_laplacian(edge_lists(params), laplacian), is_decomposition::<W, D, S>(solver, laplacian.sym_laplacian, dim, answer)]
        is_laplacian(edge_lists(params), laplacian) && is_decomposition::<W, D, S>(
            solver,
            laplacian.sym_laplacian,
            dim,
            answer,
        ) && is_read_from(graph, dim, laplacian, answer, res)
}

/// `res` is what the answer of the solver gives.
spec fn is_read_from<F, W: Real + CastTo<F>>(
    graph: &KGraph<F>,
    dim: usize,
    laplacian: LaplacianGraph<W>,
    answer: Option<Svd<W>>,
    res: Result<Matrix<F>, EmbedError>,
) -> bool {
    match answer {
        None => res == Err::<Matrix<F>, EmbedError>(EmbedError::SvdFailed),
        Some(svd) => match res {
            Ok(m) => is_spectral_embedding(
                laplacian.degrees@,
                svd,
                dim as nat,
                graph.neighbours@.len() > DENSE_LIMIT,
                Ok(m),
            ),
            Err(EmbedError::Spectral(error)) => is_spectral_embedding::<F, W>(
                laplacian.degrees@,
                svd,
                dim as nat,
                graph.neighbours@.len() > DENSE_LIMIT,
                Err(error),
            ),
            Err(_) => false,
        },
    }
}

/// The initial embedding of a graph is unique.
pub proof fn law_initial_embedding_unique<
    F: CastTo<W>,
    W: Real + CastTo<F>,
    D: Real,
    S: Fn(&MatRepr<W>, RangePrecision<D>) -> Option<Svd<W>>,
>(
    graph: &KGraph<F>,
    dim: usize,
    solver: S,
    p: Seq<NodeParam<W>>,
    a: Result<Matrix<F>, EmbedError>,
    q: Seq<NodeParam<W>>,
    b: Result<Matrix<F>, EmbedError>,
)
    requires
        is_repeatable::<W>(),
        is_deterministic::<D>(),
        casts_once::<F, W>(),
        casts_once::<W, F>(),
        is_steady_solver::<W, D, S>(solver),
        graph.wf(),
        graph.loop_free(),
        is_initial_outcome::<F, W, D, S>(graph, dim, solver, p, a),
        is_initial_outcome::<F, W, D, S>(graph, dim, solver, q, b),
    ensures
        same_outcome(a, b),
{
    law_params_unique(graph, p, q);
    lemma_lists(graph, p);
    let (la, xa) = initial_from::<F, W, D, S>(graph, dim, solver, p, a);
    let (lb, xb) = initial_from::<F, W, D, S>(graph, dim, solver, q, b);
    assert(edge_lists(p).len() == graph.neighbours@.len());
    law_laplacian_unique(edge_lists(p), la, lb);
    lemma_decomposition_unique::<W, D, S>(
        solver,
        la.sym_laplacian,
        lb.sym_laplacian,
        dim,
        xa,
        xb,
    );
    if let (Some(x), Some(y)) = (xa, xb) {
        let sparse = graph.neighbours@.len() > DENSE_LIMIT;
        let ra = match a {
            Ok(m) => Ok(m),
            Err(EmbedError::Spectral(error)) => Err(error),
            Err(_) => arbitrary(),
        };
        let rb = match b {
            Ok(m) => Ok(m),
            Err(EmbedError::Spectral(error)) => Err(error),
            Err(_) => arbitrary(),
        };
        law_spectral_embedding_unique(la.degrees@, x, y, dim as nat, sparse, ra, rb);
    }
}

/// The optimizations that start from the same initial embedding have the same outcome.
proof fn lemma_optimized_unique<
    F: Real + CastTo<W> + CastTo<D>,
    W: Real + CastTo<F> + CastTo<D>,
    D: Real + CastTo<F>,
>(
    graph: &KGraph<F>,
    p: Seq<NodeParam<W>>,
    m: Matrix<F>,
    a: Result<Optimized<F, D>, EntropyError>,
    q: Seq<NodeParam<W>>,
    n: Matrix<F>,
    b: Result<Optimized<F, D>, EntropyError>,
)
    requires
        is_steady::<F, W, D>(),
        casts_once::<D, F>(),
        graph.wf(),
        graph.loop_free(),
        graph.neighbours@.len() > 0,
        are_params_of(graph, p),
        are_params_of(graph, q),
        m@ == n@,
        m@.len() >= p.len(),
        is_optimized::<F, W, D>(p, m, a),
        is_optimized::<F, W, D>(q, n, b),
    ensures
        same_optimized(a, b),
{
    law_params_unique(graph, p, q);
    lemma_lists(graph, p);
    let x = choose|x: W|
        #![trigger is_optimization(setting_of(p, x), m@, a)]
        is_one(x) && is_optimization(setting_of(p, x), m@, a);
    let y = choose|y: W|
        #![trigger is_optimization(setting_of(q, y), n@, b)]
        is_one(y) && is_optimization(setting_of(q, y), n@, b);
    assert(x == y);
    lemma_setting_fits(edge_lists(p), setting_of(p, x));
    law_optimization_unique(setting_of(p, x), m@, a, b);
}

/// The initial embedding behind an embedding.
proof fn start_of<
    F: Real + CastTo<W> + CastTo<D>,
    W: Real + CastTo<F> + CastTo<D>,
    D: Real + CastTo<F>,
    S: Fn(&MatRepr<W>, RangePrecision<D>) -> Option<Svd<W>>,
>(
    graph: &KGraph<F>,
    dim: usize,
    solver: S,
    params: Seq<NodeParam<W>>,
    res: Result<Matrix<F>, EmbedError>,
) -> (initial: Result<Matrix<F>, EmbedError>)
    requires
        is_embedding::<F, W, D, S>(graph, dim, solver, params, res),
    ensures
        is_initial_outcome::<F, W, D, S>(graph, dim, solver, params, initial),
        is_continued::<F, W, D>(params, initial, res),
{
    choose|initial: Result<Matrix<F>, EmbedError>|
        #![trigger is_initial_outcome::<F, W, D, S>(graph, dim, solver, params, initial)]
        is_initial_outcome::<F, W, D, S>(graph, dim, solver, params, initial)
            && is_continued::<F, W, D>(params, initial, res)
}

/// `res` is the outcome of the embedding that goes on from the initial embedding.
spec fn is_continued<
    F: Real + CastTo<W> + CastTo<D>,
    W: Real + CastTo<F> + CastTo<D>,
    D: Real + CastTo<F>,
>(
    params: Seq<NodeParam<W>>,
    initial: Result<Matrix<F>, EmbedError>,
    res: Result<Matrix<F>, EmbedError>,
) -> bool {
    match initial {
        Err(error) => res == Err::<Matrix<F>, EmbedError>(error),
        Ok(start) => if start@.len() < params.len() {
            res == Err::<Matrix<F>, EmbedError>(
                EmbedError::Spectral(SpectralError::ShapeMismatch),
            )
        } else {
            match res {
                Ok(m) => is_optimized_to::<F, W, D>(params, start, m),
                Err(EmbedError::Entropy(error)) => is_optimized::<F, W, D>(
                    params,
                    start,
                    Err(error),
                ),
                Err(_) => false,
            }
        },
    }
}

/// The outcome of the optimization behind an embedding.
proof fn optimized_from<
    F: Real + CastTo<W> + CastTo<D>,
    W: Real + CastTo<F> + CastTo<D>,
    D: Real + CastTo<F>,
>(
    params: Seq<NodeParam<W>>,
    start: Matrix<F>,
    res: Result<Matrix<F>, EmbedError>,
) -> (done: Result<Optimized<F, D>, EntropyError>)
    requires
        start@.len() >= params.len(),
        is_continued::<F, W, D>(params, Ok(start), res),
    ensures
        is_optimized::<F, W, D>(params, start, done),
        match (res, done) {
            (Ok(m), Ok(x)) => m == x.embedding,
            (Err(EmbedError::Entropy(e)), Err(f)) => e == f,
            _ => false,
        },
{
    match res {
        Ok(m) => {
            let x = choose|x: Optimized<F, D>|
                #![trigger is_optimized::<F, W, D>(params, start, Ok(x))]
                is_optimized::<F, W, D>(params, start, Ok(x)) && m == x.embedding;
            Ok(x)
        },
        Err(EmbedError::Entropy(error)) => Err(error),
        Err(_) => arbitrary(),
    }
}

/// The embedding of a graph is unique: in a steady arithmetic, and with a solver that gives the same answer to
/// the same question, the same graph and dimension give the same embedded points or the same error.
pub proof fn law_embedding_unique<
    F: Real + CastTo<W> + CastTo<D>,
    W: Real + CastTo<F> + CastTo<D>,
    D: Real + CastTo<F>,
    S: Fn(&MatRepr<W>, RangePrecision<D>) -> Option<Svd<W>>,
>(
    graph: &KGraph<F>,
    dim: usize,
    solver: S,
    p: Seq<NodeParam<W>>,
    a: Result<Matrix<F>, EmbedError>,
    q: Seq<NodeParam<W>>,
    b: Result<Matrix<F>, EmbedError>,
)
    requires
        is_steady::<F, W, D>(),
        casts_once::<D, F>(),
        is_repeatable::<W>(),
        is_steady_solver::<W, D, S>(solver),
        graph.wf(),
        graph.loop_free(),
        graph.neighbours@.len() > 0,
        is_embedding::<F, W, D, S>(graph, dim, solver, p, a),
        is_embedding::<F, W, D, S>(graph, dim, solver, q, b),
    ensures
        same_outcome(a, b),
{
    let x = start_of::<F, W, D, S>(graph, dim, solver, p, a);
    let y = start_of::<F, W, D, S>(graph, dim, solver, q, b);
    law_initial_embedding_unique::<F, W, D, S>(graph, dim, solver, p, x, q, y);
    if let (Ok(m), Ok(n)) = (x, y) {
        if m@.len() >= p.len() {
            let s = optimized_from::<F, W, D>(p, m, a);
            let t = optimized_from::<F, W, D>(q, n, b);
            lemma_optimized_unique::<F, W, D>(graph, p, m, s, q, n, t);
        }
    }
}

} // verus!
