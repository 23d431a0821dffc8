//! The initial embedding, from the singular vectors of the laplacian (diffusion maps at time 0).
use vstd::prelude::*;

use crate::matrix::{rectangular, Matrix};
use crate::number::{
    is_below, is_cast, is_magnitude, is_quot, is_ratio, is_sqrt, is_total, total, CastTo, Real,
};

verus! {

/// A singular value decomposition, as far as the embedding needs it: the singular values in
/// decreasing order and the left singular vectors, which are the columns of `u`.
pub struct Svd<W> {
    pub sigma: Vec<W>,
    pub u: Matrix<W>,
}

/// How precise an approximated decomposition is to be.
pub struct RangePrecision<D> {
    /// The relative precision.
    pub epsil: D,
    /// By how much the rank is increased at a time.
    pub step: usize,
    /// The greatest rank.
    pub max_rank: usize,
}

/// Why a decomposition gives no embedding.
#[derive(Clone, Copy, Debug, PartialEq, Eq, Structural)]
pub enum SpectralError {
    /// There is no singular value.
    EmptySpectrum,
    /// The second singular value is greater than the first.
    SpectrumNotDecreasing,
    /// The least eigenvalue of a laplacian is 0, and the last singular value is not.
    NoNullEigenvalue,
    /// No singular value is positive.
    NoPositiveEigenvalue,
    /// There are fewer positive eigenvalues than dimensions are asked for.
    TooFewEigenvalues,
    /// The vectors do not fit the graph or the singular values.
    ShapeMismatch,
}

/// Asked whether `x` is null, that is under 0.0001 in absolute value, the arithmetic answered `r`.
pub open spec fn is_null<W: Real>(x: W, r: bool) -> bool {
    exists|m: W, t: W| is_magnitude(x, m) && is_ratio(1, 10000, t) && is_below(m, t, r)
}

/// Asked whether `x` is above 0.00001, the arithmetic answered `r`.
pub open spec fn is_significant<W: Real>(x: W, r: bool) -> bool {
    exists|t: W| is_ratio(1, 100000, t) && is_below(t, x, r)
}

/// The last of the singular values that is not null is that of index `rank`.
pub open spec fn is_last_significant<W: Real>(sigma: Seq<W>, rank: int) -> bool {
    &&& 0 <= rank < sigma.len()
    &&& is_significant(sigma[rank], true)
    &&& forall|k: int| rank < k < sigma.len() ==> is_significant(#[trigger] sigma[k], false)
}

/// Asked whether the singular values decrease, the arithmetic answered `r`. Only the first two are
/// compared, and only where there are more.
pub open spec fn is_decreasing<W: Real>(sigma: Seq<W>, r: bool) -> bool {
    if r {
        sigma.len() > 2 ==> is_below(sigma[0], sigma[1], false)
    } else {
        sigma.len() > 2 && is_below(sigma[0], sigma[1], true)
    }
}

/// `res` is the index of the singular value at which the embedding starts: the last one of an
/// approximated decomposition, and otherwise the last that is not null.
pub open spec fn is_first_rank<W: Real>(
    sigma: Seq<W>,
    approximated: bool,
    res: Result<usize, SpectralError>,
) -> bool {
    match res {
        Err(SpectralError::EmptySpectrum) => sigma.len() == 0,
        Err(SpectralError::SpectrumNotDecreasing) => {
            &&& sigma.len() > 0
            &&& is_decreasing(sigma, false)
        },
        Err(SpectralError::NoNullEigenvalue) => {
            &&& sigma.len() > 0
            &&& is_decreasing(sigma, true)
            &&& !approximated
            &&& is_null(sigma.last(), false)
        },
        Err(SpectralError::NoPositiveEigenvalue) => {
            &&& sigma.len() > 0
            &&& is_decreasing(sigma, true)
            &&& !approximated
            &&& is_null(sigma.last(), true)
            &&& forall|k: int| 0 <= k < sigma.len() ==> is_significant(#[trigger] sigma[k], false)
        },
        Err(_) => false,
        Ok(rank) => {
            &&& sigma.len() > 0
            &&& is_decreasing(sigma, true)
            &&& if approximated {
                rank == sigma.len() - 1
            } else {
                is_null(sigma.last(), true) && is_last_significant(sigma, rank as int)
            }
        },
    }
}

/// `weights` are the square roots of the degrees over the square root of their sum.
pub open spec fn are_degree_weights<W: Real>(degrees: Seq<W>, weights: Seq<W>) -> bool {
    &&& weights.len() == degrees.len()
    &&& exists|sum: W, root: W|
        is_total(degrees, sum) && is_sqrt(sum, root) && forall|i: int|
            0 <= i < degrees.len() ==> is_degree_weight(degrees[i], root, #[trigger] weights[i])
}

/// `weight` is the square root of `degree` over `root`.
pub open spec fn is_degree_weight<W: Real>(degree: W, root: W, weight: W) -> bool {
    exists|s: W| is_sqrt(degree, s) && is_quot(s, root, weight)
}

/// `c` is `x / weight`, converted.
pub open spec fn is_coordinate<F, W: Real + CastTo<F>>(x: W, weight: W, c: F) -> bool {
    exists|q: W| is_quot(x, weight, q) && is_cast(q, c)
}

/// The embedding `e` in `dim` dimensions: the coordinates of the node `i` are those of row `i` of
/// `u` at the columns `rank`, `rank - 1` and so on, each divided by the weight of the node. That
/// leads back to the eigenvectors of the random walk laplacian.
pub open spec fn is_initial_embedding<F, W: Real + CastTo<F>>(
    degrees: Seq<W>,
    u: Seq<Seq<W>>,
    rank: int,
    dim: nat,
    e: Seq<Seq<F>>,
) -> bool {
    &&& e.len() == u.len()
    &&& rectangular(e, dim)
    &&& exists|weights: Seq<W>|
        #![trigger are_degree_weights(degrees, weights)]
        are_degree_weights(degrees, weights) && forall|i: int, j: int|
            0 <= i < u.len() && 0 <= j < dim ==> is_coordinate(
                u[i][rank - j],
                weights[i],
                #[trigger] e[i][j],
            )
}

/// The vectors can be read: there is a degree for each row and, where a coordinate is wanted, a column for
/// each rank up to `rank`.
pub open spec fn is_readable<W>(degrees: Seq<W>, u: Matrix<W>, rank: int, dim: nat) -> bool {
    &&& u@.len() <= degrees.len()
    &&& dim > 0 && u@.len() > 0 ==> rank < u.width()
}

/// `res` is the embedding in `dim` dimensions that the decomposition `svd` of the laplacian gives.
pub open spec fn is_spectral_embedding<F, W: Real + CastTo<F>>(
    degrees: Seq<W>,
    svd: Svd<W>,
    dim: nat,
    approximated: bool,
    res: Result<Matrix<F>, SpectralError>,
) -> bool {
    exists|first: Result<usize, SpectralError>|
        #![trigger is_first_rank(svd.sigma@, approximated, first)]
        is_first_rank(svd.sigma@, approximated, first) && match first {
            Err(error) => res == Err::<Matrix<F>, SpectralError>(error),
            Ok(rank) => match res {
                Err(SpectralError::TooFewEigenvalues) => rank < dim,
                Err(SpectralError::ShapeMismatch) => rank >= dim && !is_readable(
                    degrees,
                    svd.u,
                    rank as int,
                    dim,
                ),
                Err(_) => false,
                Ok(m) => {
                    &&& rank >= dim
                    &&& is_readable(degrees, svd.u, rank as int, dim)
                    &&& m.width() == dim
                    &&& is_initial_embedding(degrees, svd.u@, rank as int, dim, m@)
                },
            },
        }
}

/// Whether `x` is above 0.00001.
fn significant<W: Real>(x: W) -> (r: bool)
    ensures
        is_significant(x, r),
{
    W::ratio(1, 100000).below(x)
}

/// Whether `x` is under 0.0001 in absolute value.
fn null<W: Real>(x: W) -> (r: bool)
    ensures
        is_null(x, r),
{
    let m = x.magnitude();
    m.below(W::ratio(1, 10000))
}

/// The index of the singular value at which the embedding starts. As the decomposed matrix is a
/// laplacian, the vectors wanted are those of the lower eigenvalues.
pub fn first_rank<W: Real>(sigma: &Vec<W>, approximated: bool) -> (res: Result<
    usize,
    SpectralError,
>)
    ensures
        is_first_rank(sigma@, approximated, res),
{
    let n: usize = sigma.len();
    if n == 0 {
        return Err(SpectralError::EmptySpectrum);
    }
    if n > 2 {
        if sigma[0].below(sigma[1]) {
            return Err(SpectralError::SpectrumNotDecreasing);
        }
    }
    if approximated {
        return Ok(n - 1);
    }
    if !null(sigma[n - 1]) {
        return Err(SpectralError::NoNullEigenvalue);
    }
    let mut k: usize = n;
    while k > 0
        invariant
            n == sigma@.len(),
            n > 0,
            !approximated,
            is_decreasing(sigma@, true),
            is_null(sigma@.last(), true),
            k <= n,
            forall|a: int| k <= a < n ==> is_significant(#[trigger] sigma@[a], false),
        decreases k,
    {
        k = k - 1;
        if significant(sigma[k]) {
            return Ok(k);
        }
    }
    Err(SpectralError::NoPositiveEigenvalue)
}

fn degree_weights<W: Real>(degrees: &Vec<W>) -> (weights: Vec<W>)
    ensures
        are_degree_weights(degrees@, weights@),
{
    let sum = total(degrees);
    let root = sum.sqrt();
    let mut weights: Vec<W> = Vec::new();
    for i in 0..degrees.len()
        invariant
            weights@.len() == i,
            forall|a: int|
                0 <= a < i ==> is_degree_weight(degrees@[a], root, #[trigger] weights@[a]),
    {
        let w = degrees[i].sqrt().over(root);
        weights.push(w);
    }
    weights
}

/// The embedding in `dim` dimensions that the singular vectors of the laplacian give. The flag
/// `approximated` tells that the decomposition is an approximation, of which every singular value
/// is kept.
pub fn spectral_embedding<F, W: Real + CastTo<F>>(
    degrees: &Vec<W>,
    svd: &Svd<W>,
    dim: usize,
    approximated: bool,
) -> (res: Result<Matrix<F>, SpectralError>)
    ensures
        is_spectral_embedding(degrees@, *svd, dim as nat, approximated, res),
{
    let first = first_rank(&svd.sigma, approximated);
    let rank: usize = match first {
        Ok(rank) => rank,
        Err(error) => {
            return Err(error);
        },
    };
    if rank < dim {
        return Err(SpectralError::TooFewEigenvalues);
    }
    let n: usize = svd.u.nrows();
    if n > degrees.len() || (dim > 0 && n > 0 && svd.u.ncols() <= rank) {
        return Err(SpectralError::ShapeMismatch);
    }
    let ghost u = svd.u@;
    let weights = degree_weights(degrees);
    let mut rows: Vec<Vec<F>> = Vec::new();
    for i in 0..n
        invariant
            u == svd.u@,
            n == u.len(),
            dim <= rank,
            is_readable(degrees@, svd.u, rank as int, dim as nat),
            weights@.len() == degrees@.len(),
            rows@.len() == i,
            forall|a: int| 0 <= a < i ==> (#[trigger] rows@[a])@.len() == dim,
            forall|a: int, b: int|
                0 <= a < i && 0 <= b < dim ==> is_coordinate(
                    u[a][rank - b],
                    weights@[a],
                    #[trigger] rows@[a]@[b],
                ),
    {
        let vector = svd.u.row(i);
        let mut row: Vec<F> = Vec::new();
        for j in 0..dim
            invariant
                i < n,
                u == svd.u@,
                n == u.len(),
                dim <= rank,
                is_readable(degrees@, svd.u, rank as int, dim as nat),
                weights@.len() == degrees@.len(),
                vector@ == u[i as int],
                vector@.len() == svd.u.width(),
                row@.len() == j,
                forall|b: int|
                    0 <= b < j ==> is_coordinate(
                        u[i as int][rank - b],
                        weights@[i as int],
                        #[trigger] row@[b],
                    ),
        {
            let c: F = vector[rank - j].over(weights[i]).cast();
            row.push(c);
        }
        rows.push(row);
    }
    let ghost views = rows@.map_values(|row: Vec<F>| row@);
    proof {
        assert forall|a: int, b: int| 0 <= a < n && 0 <= b < dim implies is_coordinate(
            u[a][rank - b],
            weights@[a],
            #[trigger] views[a][b],
        ) by {
            assert(views[a] == rows@[a]@);
            assert(is_coordinate(u[a][rank - b], weights@[a], rows@[a]@[b]));
        }
        assert(rectangular(views, dim as nat));
    }
    Ok(Matrix::new(dim, rows))
}

} // verus!
