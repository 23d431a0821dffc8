//! The initial embedding in exact arithmetic, as a formula of the degrees and the singular vectors.
use vstd::prelude::*;

use crate::exact::laplacian::{all_positive, lemma_sum_positive};
use crate::exact::{is_exact, is_root_of, keeps_value, law_total_exact, value_sum};
use crate::matrix::Matrix;
use crate::number::{
    is_below, is_cast, is_magnitude, is_quot, is_ratio, is_sqrt, is_total, CastTo, Real,
};
use crate::spectral::{
    are_degree_weights, first_rank, is_coordinate, is_degree_weight, is_first_rank,
    is_initial_embedding, is_null, is_readable, is_significant, is_spectral_embedding,
    spectral_embedding, SpectralError, Svd,
};

verus! {

/// The singular values are those of a laplacian: the second, where there are more, is not above the
/// first, and the last is under 0.0001 in absolute value unless the decomposition is approximated.
pub open spec fn is_spectrum<W>(v: spec_fn(W) -> real, sigma: Seq<W>, approximated: bool) -> bool {
    &&& sigma.len() > 0
    &&& sigma.len() > 2 ==> v(sigma[1]) <= v(sigma[0])
    &&& !approximated ==> -(1 as real) < v(sigma.last()) * (10000 as real) < 1 as real
}

/// `rank` is the index of the last singular value above 0.00001, or of the last of all in an
/// approximated decomposition.
pub open spec fn starts_at<W>(
    v: spec_fn(W) -> real,
    sigma: Seq<W>,
    approximated: bool,
    rank: int,
) -> bool {
    &&& 0 <= rank < sigma.len()
    &&& if approximated {
        rank == sigma.len() - 1
    } else {
        v(sigma[rank]) * (100000 as real) > 1 as real && forall|k: int|
            rank < k < sigma.len() ==> v(#[trigger] sigma[k]) * (100000 as real) <= 1 as real
    }
}

proof fn lemma_significant<W: Real>(v: spec_fn(W) -> real, x: W, r: bool)
    requires
        is_exact(v),
        is_significant(x, r),
    ensures
        r == (v(x) * (100000 as real) > 1 as real),
{
    let t = choose|t: W| is_ratio(1, 100000, t) && is_below(t, x, r);
    assert(v(t) * (100000 as real) == 1 as real);
}

proof fn lemma_null<W: Real>(v: spec_fn(W) -> real, x: W, r: bool)
    requires
        is_exact(v),
        is_null(x, r),
    ensures
        r == (-(1 as real) < v(x) * (10000 as real) < 1 as real),
{
    let (m, t) = choose|m: W, t: W| is_magnitude(x, m) && is_ratio(1, 10000, t) && is_below(m, t, r);
    assert(v(t) * (10000 as real) == 1 as real);
}

proof fn lemma_first_rank<W: Real>(
    v: spec_fn(W) -> real,
    sigma: Seq<W>,
    approximated: bool,
    res: Result<usize, SpectralError>,
)
    requires
        is_exact(v),
        is_first_rank(sigma, approximated, res),
    ensures
        match res {
            Ok(rank) => is_spectrum(v, sigma, approximated) && starts_at(
                v,
                sigma,
                approximated,
                rank as int,
            ),
            Err(SpectralError::EmptySpectrum) => sigma.len() == 0,
            Err(SpectralError::SpectrumNotDecreasing) => sigma.len() > 2 && v(sigma[0]) < v(sigma[1]),
            Err(SpectralError::NoNullEigenvalue) => {
                &&& sigma.len() > 0
                &&& sigma.len() > 2 ==> v(sigma[1]) <= v(sigma[0])
                &&& !approximated
                &&& !(-(1 as real) < v(sigma.last()) * (10000 as real) < 1 as real)
            },
            Err(SpectralError::NoPositiveEigenvalue) => {
                &&& is_spectrum(v, sigma, approximated)
                &&& !approximated
                &&& forall|k: int|
                    0 <= k < sigma.len() ==> v(#[trigger] sigma[k]) * (100000 as real) <= 1 as real
            },
            Err(_) => false,
        },
{
    if is_null(sigma.last(), true) {
        lemma_null(v, sigma.last(), true);
    }
    if is_null(sigma.last(), false) {
        lemma_null(v, sigma.last(), false);
    }
    match res {
        Ok(rank) => {
            if !approximated {
                lemma_significant(v, sigma[rank as int], true);
                assert forall|k: int| rank < k < sigma.len() implies v(#[trigger] sigma[k]) * (
                100000 as real) <= 1 as real by {
                    lemma_significant(v, sigma[k], false);
                }
            }
        },
        Err(SpectralError::NoPositiveEigenvalue) => {
            assert forall|k: int| 0 <= k < sigma.len() implies v(#[trigger] sigma[k]) * (100000 as real)
                <= 1 as real by {
                lemma_significant(v, sigma[k], false);
            }
        },
        Err(_) => {},
    }
}

/// The index at which the embedding starts is that of the last singular value above 0.00001, or the
/// last index where the decomposition is approximated. It is refused where there is no singular
/// value, where the second of more than two is above the first, where the last is not under 0.0001
/// in absolute value, and where none is above 0.00001, in this order; the last two only where the
/// decomposition is not approximated.
pub proof fn law_first_rank<W: Real>(
    v: spec_fn(W) -> real,
    sigma: &Vec<W>,
    approximated: bool,
    res: Result<usize, SpectralError>,
    rank: int,
)
    requires
        is_exact(v),
        call_ensures(first_rank::<W>, (sigma, approximated), res),
    ensures
        ({
            let empty = sigma@.len() == 0;
            let rising = sigma@.len() > 2 && v(sigma@[0]) < v(sigma@[1]);
            let open = !approximated && !(-(1 as real) < v(sigma@.last()) * (10000 as real) < 1 as real);
            let flat = !approximated && forall|k: int|
                0 <= k < sigma@.len() ==> v(#[trigger] sigma@[k]) * (100000 as real) <= 1 as real;
            &&& res == Err::<usize, SpectralError>(SpectralError::EmptySpectrum) <==> empty
            &&& res == Err::<usize, SpectralError>(SpectralError::SpectrumNotDecreasing) <==> rising
            &&& res == Err::<usize, SpectralError>(SpectralError::NoNullEigenvalue) <==> !empty && !rising && open
            &&& res == Err::<usize, SpectralError>(SpectralError::NoPositiveEigenvalue) <==> !empty && !rising && !open
                && flat
            &&& res is Ok <==> !empty && !rising && !open && !flat
        }),
        res matches Ok(r) ==> starts_at(v, sigma@, approximated, r as int) && (starts_at(
            v,
            sigma@,
            approximated,
            rank,
        ) ==> r == rank),
{
    lemma_first_rank(v, sigma@, approximated, res);
}

/// A number that is not negative is the only such root of its square.
proof fn lemma_one_root(a: real, b: real)
    requires
        a >= 0 as real,
        b >= 0 as real,
        a * a == b * b,
    ensures
        a == b,
{
    assert(a == b) by (nonlinear_arith)
        requires
            a >= 0 as real,
            b >= 0 as real,
            a * a == b * b,
    ;
}

/// The root of the degree of the node `i` and the root of the sum of the degrees, with which its
/// coordinates are formed.
proof fn lemma_coordinate<F, W: Real + CastTo<F>>(
    vf: spec_fn(F) -> real,
    v: spec_fn(W) -> real,
    degrees: Seq<W>,
    u: Seq<Seq<W>>,
    rank: int,
    dim: nat,
    e: Seq<Seq<F>>,
    i: int,
) -> (r: (real, real))
    requires
        is_exact(v),
        keeps_value(v, vf),
        all_positive(v, degrees),
        is_initial_embedding(degrees, u, rank, dim, e),
        0 <= i < u.len(),
        i < degrees.len(),
    ensures
        r.0 > 0 as real,
        r.0 * r.0 == v(degrees[i]),
        r.1 > 0 as real,
        r.1 * r.1 == value_sum(v, degrees),
        forall|j: int|
            0 <= j < dim ==> vf(#[trigger] e[i][j]) * r.0 == v(u[i][rank - j]) * r.1,
{
    let weights = choose|weights: Seq<W>|
        #![trigger are_degree_weights(degrees, weights)]
        are_degree_weights(degrees, weights) && forall|a: int, b: int|
            0 <= a < u.len() && 0 <= b < dim ==> is_coordinate(
                u[a][rank - b],
                weights[a],
                #[trigger] e[a][b],
            );
    let (sum, root) = choose|sum: W, root: W|
        is_total(degrees, sum) && is_sqrt(sum, root) && forall|a: int|
            0 <= a < degrees.len() ==> is_degree_weight(degrees[a], root, #[trigger] weights[a]);
    law_total_exact(v, degrees, sum);
    assert(v(degrees[i]) > 0 as real);
    lemma_sum_positive(v, degrees, i);
    assert(is_degree_weight(degrees[i], root, weights[i]));
    let s = choose|s: W| is_sqrt(degrees[i], s) && is_quot(s, root, weights[i]);
    let (sv, rv, wv) = (v(s), v(root), v(weights[i]));
    assert(sv > 0 as real) by (nonlinear_arith)
        requires
            sv >= 0 as real,
            sv * sv > 0 as real,
    ;
    assert(rv > 0 as real) by (nonlinear_arith)
        requires
            rv >= 0 as real,
            rv * rv > 0 as real,
    ;
    assert(wv != 0 as real) by (nonlinear_arith)
        requires
            wv * rv == sv,
            sv > 0 as real,
    ;
    assert forall|j: int| 0 <= j < dim implies vf(#[trigger] e[i][j]) * sv == v(u[i][rank - j]) * rv by {
        assert(is_coordinate(u[i][rank - j], weights[i], e[i][j]));
        let q = choose|q: W| is_quot(u[i][rank - j], weights[i], q) && is_cast(q, e[i][j]);
        let (c, x) = (vf(e[i][j]), v(u[i][rank - j]));
        assert(c * sv == x * rv) by (nonlinear_arith)
            requires
                c * wv == x,
                wv * rv == sv,
        ;
    }
    (sv, rv)
}

/// The index at which an embedding starts, and the embedding.
proof fn lemma_spectral<F, W: Real + CastTo<F>>(
    v: spec_fn(W) -> real,
    degrees: Seq<W>,
    svd: Svd<W>,
    dim: nat,
    approximated: bool,
    res: Result<Matrix<F>, SpectralError>,
    rank: int,
)
    requires
        is_exact(v),
        is_spectrum(v, svd.sigma@, approximated),
        starts_at(v, svd.sigma@, approximated, rank),
        is_spectral_embedding(degrees, svd, dim, approximated, res),
    ensures
        match res {
            Ok(m) => {
                &&& rank >= dim
                &&& is_readable(degrees, svd.u, rank, dim)
                &&& m.width() == dim
                &&& is_initial_embedding(degrees, svd.u@, rank, dim, m@)
            },
            Err(SpectralError::TooFewEigenvalues) => rank < dim,
            Err(SpectralError::ShapeMismatch) => rank >= dim && !is_readable(
                degrees,
                svd.u,
                rank,
                dim,
            ),
            Err(_) => false,
        },
{
    let first = choose|first: Result<usize, SpectralError>|
        #![trigger is_first_rank(svd.sigma@, approximated, first)]
        is_first_rank(svd.sigma@, approximated, first) && match first {
            Err(error) => res == Err::<Matrix<F>, SpectralError>(error),
            Ok(rank) => match res {
                Err(SpectralError::TooFewEigenvalues) => rank < dim,
                Err(SpectralError::ShapeMismatch) => rank >= dim && !is_readable(
                    degrees,
                    svd.u,
                    rank as int,
                    dim,
                ),
                Err(_) => false,
                Ok(m) => {
                    &&& rank >= dim
                    &&& is_readable(degrees, svd.u, rank as int, dim)
                    &&& m.width() == dim
                    &&& is_initial_embedding(degrees, svd.u@, rank as int, dim, m@)
                },
            },
        };
    lemma_first_rank(v, svd.sigma@, approximated, first);
    assert(v(svd.sigma@[rank]) == v(svd.sigma@[rank]));
}

/// The coordinate `j` of a node is the one that the singular vector of index `rank - j` has for it,
/// divided by the square root of the share of its degree in the sum of the degrees; `rank` is the
/// index of the last singular value above 0.00001, or the last index where the decomposition is
/// approximated. So every coordinate comes from a singular vector of its own.
pub proof fn law_coordinates<F, W: Real + CastTo<F>>(
    vf: spec_fn(F) -> real,
    v: spec_fn(W) -> real,
    degrees: &Vec<W>,
    svd: &Svd<W>,
    dim: usize,
    approximated: bool,
    res: Result<Matrix<F>, SpectralError>,
    rank: int,
    i: int,
    j: int,
    share: real,
)
    requires
        is_exact(v),
        keeps_value(v, vf),
        all_positive(v, degrees@),
        is_spectrum(v, svd.sigma@, approximated),
        starts_at(v, svd.sigma@, approximated, rank),
        call_ensures(spectral_embedding::<F, W>, (degrees, svd, dim, approximated), res),
        0 <= i < svd.u@.len(),
        0 <= j < dim,
        share >= 0 as real,
        share * share == v(degrees@[i]) / value_sum(v, degrees@),
    ensures
        res matches Ok(m) ==> {
            &&& m@.len() == svd.u@.len()
            &&& m@[i].len() == dim
            &&& vf(m@[i][j]) * share == v(svd.u@[i][rank - j])
        },
{
    lemma_spectral(v, degrees@, *svd, dim as nat, approximated, res, rank);
    if let Ok(m) = res {
        let (a, b) = lemma_coordinate(vf, v, degrees@, svd.u@, rank, dim as nat, m@, i);
        let (d, t) = (v(degrees@[i]), value_sum(v, degrees@));
        let p = share * b;
        assert(p >= 0 as real) by (nonlinear_arith)
            requires
                p == share * b,
                share >= 0 as real,
                b > 0 as real,
        ;
        assert(t > 0 as real) by (nonlinear_arith)
            requires
                b * b == t,
                b > 0 as real,
        ;
        assert((d / t) * t == d) by (nonlinear_arith)
            requires
                t > 0 as real,
        ;
        assert(p * p == a * a) by (nonlinear_arith)
            requires
                p == share * b,
                b * b == t,
                a * a == d,
                share * share == d / t,
                (d / t) * t == d,
        {
            assert(p * p == (share * share) * (b * b));
        }
        lemma_one_root(p, a);
        assert(vf(m@[i][j]) * a == v(svd.u@[i][rank - j]) * b);
        let (c, x) = (vf(m@[i][j]), v(svd.u@[i][rank - j]));
        assert(c * share == x) by (nonlinear_arith)
            requires
                c * a == x * b,
                a == share * b,
                b > 0 as real,
        ;
    }
}

/// `c` is the coordinate `x` of a singular vector, divided by the square root of the share of the
/// degree of the node `i` in the sum of the degrees.
pub open spec fn is_shared_coordinate<F, W>(
    vf: spec_fn(F) -> real,
    v: spec_fn(W) -> real,
    degrees: Seq<W>,
    i: int,
    x: W,
    c: F,
) -> bool {
    exists|share: real|
        #[trigger] is_root_of(share, v(degrees[i]) / value_sum(v, degrees)) && share > 0 as real && vf(c) * share == v(
            x,
        )
}

/// The embedding `m` in `dim` dimensions: the coordinate `j` of a node comes from the singular
/// vector of index `rank - j`, `rank` being the index of the last singular value above 0.00001, or
/// the last index where the decomposition is approximated.
pub open spec fn is_initial_value<F, W>(
    vf: spec_fn(F) -> real,
    v: spec_fn(W) -> real,
    degrees: Seq<W>,
    svd: Svd<W>,
    approximated: bool,
    dim: nat,
    m: Matrix<F>,
) -> bool {
    &&& m.width() == dim
    &&& m@.len() == svd.u@.len()
    &&& is_spectrum(v, svd.sigma@, approximated)
    &&& exists|rank: int| #[trigger]
        starts_at(v, svd.sigma@, approximated, rank) && rank >= dim && forall|i: int, j: int|
            0 <= i < svd.u@.len() && 0 <= j < dim ==> is_shared_coordinate(
                vf,
                v,
                degrees,
                i,
                svd.u@[i][rank - j],
                #[trigger] m@[i][j],
            )
}

/// An embedding that a decomposition gives has these coordinates.
pub proof fn lemma_initial_value<F, W: Real + CastTo<F>>(
    vf: spec_fn(F) -> real,
    v: spec_fn(W) -> real,
    degrees: Seq<W>,
    svd: Svd<W>,
    dim: nat,
    approximated: bool,
    m: Matrix<F>,
)
    requires
        is_exact(v),
        keeps_value(v, vf),
        all_positive(v, degrees),
        is_spectral_embedding(degrees, svd, dim, approximated, Ok(m)),
    ensures
        is_initial_value(vf, v, degrees, svd, approximated, dim, m),
{
    let first = choose|first: Result<usize, SpectralError>|
        #![trigger is_first_rank(svd.sigma@, approximated, first)]
        is_first_rank(svd.sigma@, approximated, first) && match first {
            Err(error) => false,
            Ok(rank) => {
                &&& rank >= dim
                &&& is_readable(degrees, svd.u, rank as int, dim)
                &&& m.width() == dim
                &&& is_initial_embedding(degrees, svd.u@, rank as int, dim, m@)
            },
        };
    lemma_first_rank(v, svd.sigma@, approximated, first);
    let rank = first.unwrap() as int;
    let t = value_sum(v, degrees);
    assert forall|i: int, j: int| 0 <= i < svd.u@.len() && 0 <= j < dim implies is_shared_coordinate(
        vf,
        v,
        degrees,
        i,
        svd.u@[i][rank - j],
        #[trigger] m@[i][j],
    ) by {
        let (a, b) = lemma_coordinate(vf, v, degrees, svd.u@, rank, dim, m@, i);
        let d = v(degrees[i]);
        let share = a / b;
        assert(share * b == a) by (nonlinear_arith)
            requires
                share == a / b,
                b > 0 as real,
        ;
        assert(share > 0 as real) by (nonlinear_arith)
            requires
                share * b == a,
                a > 0 as real,
                b > 0 as real,
        ;
        assert(share * share == d / t) by (nonlinear_arith)
            requires
                share * b == a,
                a * a == d,
                b * b == t,
                b > 0 as real,
        {
            assert((share * share) * t == d) by {
                assert((share * b) * (share * b) == (share * share) * (b * b));
            }
            assert(t > 0 as real);
        }
        assert(vf(m@[i][j]) * a == v(svd.u@[i][rank - j]) * b);
        let (c, x) = (vf(m@[i][j]), v(svd.u@[i][rank - j]));
        assert(c * share == x) by (nonlinear_arith)
            requires
                c * a == x * b,
                a == share * b,
                b > 0 as real,
        ;
        assert(is_root_of(share, d / t));
    }
    assert(starts_at(v, svd.sigma@, approximated, rank));
}

/// The vectors do not fit: there are more rows than degrees, or, where a coordinate is wanted, no
/// column for the index `rank`.
pub open spec fn is_misfit<W>(degrees: Seq<W>, u: Matrix<W>, dim: nat, rank: int) -> bool {
    degrees.len() < u@.len() || (dim > 0 && u@.len() > 0 && u.width() <= rank)
}

/// `error` is why a decomposition gives no embedding in `dim` dimensions.
pub open spec fn is_spectral_fault<W>(
    v: spec_fn(W) -> real,
    degrees: Seq<W>,
    svd: Svd<W>,
    dim: nat,
    approximated: bool,
    error: SpectralError,
) -> bool {
    let sigma = svd.sigma@;
    match error {
        SpectralError::EmptySpectrum => sigma.len() == 0,
        SpectralError::SpectrumNotDecreasing => sigma.len() > 2 && v(sigma[0]) < v(sigma[1]),
        SpectralError::NoNullEigenvalue => {
            &&& sigma.len() > 0
            &&& sigma.len() > 2 ==> v(sigma[1]) <= v(sigma[0])
            &&& !approximated
            &&& !(-(1 as real) < v(sigma.last()) * (10000 as real) < 1 as real)
        },
        SpectralError::NoPositiveEigenvalue => {
            &&& is_spectrum(v, sigma, approximated)
            &&& !approximated
            &&& forall|k: int|
                0 <= k < sigma.len() ==> v(#[trigger] sigma[k]) * (100000 as real) <= 1 as real
        },
        SpectralError::TooFewEigenvalues => {
            &&& is_spectrum(v, sigma, approximated)
            &&& exists|rank: int| #[trigger] starts_at(v, sigma, approximated, rank) && rank < dim
        },
        SpectralError::ShapeMismatch => {
            &&& is_spectrum(v, sigma, approximated)
            &&& exists|rank: int| #[trigger]
                starts_at(v, sigma, approximated, rank) && rank >= dim && is_misfit(
                    degrees,
                    svd.u,
                    dim,
                    rank,
                )
        },
    }
}

/// A decomposition that gives no embedding has such a fault.
pub proof fn lemma_spectral_fault<F, W: Real + CastTo<F>>(
    v: spec_fn(W) -> real,
    degrees: Seq<W>,
    svd: Svd<W>,
    dim: nat,
    approximated: bool,
    error: SpectralError,
)
    requires
        is_exact(v),
        is_spectral_embedding::<F, W>(degrees, svd, dim, approximated, Err(error)),
    ensures
        is_spectral_fault(v, degrees, svd, dim, approximated, error),
{
    let first = choose|first: Result<usize, SpectralError>|
        #![trigger is_first_rank(svd.sigma@, approximated, first)]
        is_first_rank(svd.sigma@, approximated, first) && match first {
            Err(other) => error == other,
            Ok(rank) => match error {
                SpectralError::TooFewEigenvalues => rank < dim,
                SpectralError::ShapeMismatch => rank >= dim && !is_readable(
                    degrees,
                    svd.u,
                    rank as int,
                    dim,
                ),
                _ => false,
            },
        };
    lemma_first_rank(v, svd.sigma@, approximated, first);
    if let Ok(rank) = first {
        let r = rank as int;
        assert(starts_at(v, svd.sigma@, approximated, r));
        if error == SpectralError::ShapeMismatch {
            assert(is_misfit(degrees, svd.u, dim, r));
        }
    }
}

/// A decomposition of a laplacian gives no embedding where fewer singular values stand before the
/// index `rank` than dimensions are asked for, and where the vectors do not fit; otherwise it gives
/// one.
pub proof fn law_spectral_refusals<F, W: Real + CastTo<F>>(
    v: spec_fn(W) -> real,
    degrees: &Vec<W>,
    svd: &Svd<W>,
    dim: usize,
    approximated: bool,
    res: Result<Matrix<F>, SpectralError>,
    rank: int,
)
    requires
        is_exact(v),
        is_spectrum(v, svd.sigma@, approximated),
        starts_at(v, svd.sigma@, approximated, rank),
        call_ensures(spectral_embedding::<F, W>, (degrees, svd, dim, approximated), res),
    ensures
        ({
            let misfit = degrees@.len() < svd.u@.len() || (dim > 0 && svd.u@.len() > 0 && svd.u.width() <= rank);
            &&& res == Err::<Matrix<F>, SpectralError>(SpectralError::TooFewEigenvalues) <==> rank < dim
            &&& res == Err::<Matrix<F>, SpectralError>(SpectralError::ShapeMismatch) <==> rank >= dim && misfit
            &&& res is Ok <==> rank >= dim && !misfit
        }),
        res matches Ok(m) ==> m.width() == dim && m@.len() == svd.u@.len(),
{
    lemma_spectral(v, degrees@, *svd, dim as nat, approximated, res, rank);
}

/// The scalar product of two columns of the first `n` rows of a matrix.
pub open spec fn column_dot<T>(v: spec_fn(T) -> real, rows: Seq<Seq<T>>, j: int, k: int, n: nat) -> real
    decreases n,
{
    if n == 0 {
        0 as real
    } else {
        column_dot(v, rows, j, k, (n - 1) as nat) + v(rows[n - 1][j]) * v(rows[n - 1][k])
    }
}

/// The same, each row weighted by a degree.
pub open spec fn weighted_dot<F, W>(
    vf: spec_fn(F) -> real,
    v: spec_fn(W) -> real,
    degrees: Seq<W>,
    rows: Seq<Seq<F>>,
    j: int,
    k: int,
    n: nat,
) -> real
    decreases n,
{
    if n == 0 {
        0 as real
    } else {
        weighted_dot(vf, v, degrees, rows, j, k, (n - 1) as nat) + v(degrees[n - 1]) * (vf(
            rows[n - 1][j],
        ) * vf(rows[n - 1][k]))
    }
}

proof fn lemma_weighted_dot<F, W: Real + CastTo<F>>(
    vf: spec_fn(F) -> real,
    v: spec_fn(W) -> real,
    degrees: Seq<W>,
    u: Seq<Seq<W>>,
    rank: int,
    dim: nat,
    e: Seq<Seq<F>>,
    j: int,
    k: int,
    n: nat,
)
    requires
        is_exact(v),
        keeps_value(v, vf),
        all_positive(v, degrees),
        is_initial_embedding(degrees, u, rank, dim, e),
        n <= u.len() <= degrees.len(),
        0 <= j < dim,
        0 <= k < dim,
    ensures
        weighted_dot(vf, v, degrees, e, j, k, n) == value_sum(v, degrees) * column_dot(
            v,
            u,
            rank - j,
            rank - k,
            n,
        ),
    decreases n,
{
    let t = value_sum(v, degrees);
    if n > 0 {
        let i = n - 1;
        lemma_weighted_dot(vf, v, degrees, u, rank, dim, e, j, k, i as nat);
        let (a, b) = lemma_coordinate(vf, v, degrees, u, rank, dim, e, i);
        let (x, y, p, q) = (vf(e[i][j]), vf(e[i][k]), v(u[i][rank - j]), v(u[i][rank - k]));
        let d = v(degrees[i]);
        assert(x * a == p * b && y * a == q * b);
        assert(d * (x * y) == t * (p * q)) by (nonlinear_arith)
            requires
                a * a == d,
                b * b == t,
                x * a == p * b,
                y * a == q * b,
        {
            assert((a * a) * (x * y) == (x * a) * (y * a));
            assert((p * b) * (q * b) == (b * b) * (p * q));
        }
        let c = column_dot(v, u, rank - j, rank - k, i as nat);
        assert(t * (c + p * q) == t * c + t * (p * q)) by (nonlinear_arith);
    } else {
        assert(t * (0 as real) == 0 as real) by (nonlinear_arith);
    }
}

/// The scalar product of two columns of the embedding, weighted by the degrees, is that of the two
/// singular vectors that they come from, times the sum of the degrees. So coordinates are
/// orthogonal where the singular vectors are, and none is zero or repeats another.
pub proof fn law_coordinates_orthogonal<F, W: Real + CastTo<F>>(
    vf: spec_fn(F) -> real,
    v: spec_fn(W) -> real,
    degrees: &Vec<W>,
    svd: &Svd<W>,
    dim: usize,
    approximated: bool,
    res: Result<Matrix<F>, SpectralError>,
    rank: int,
    j: int,
    k: int,
)
    requires
        is_exact(v),
        keeps_value(v, vf),
        all_positive(v, degrees@),
        is_spectrum(v, svd.sigma@, approximated),
        starts_at(v, svd.sigma@, approximated, rank),
        call_ensures(spectral_embedding::<F, W>, (degrees, svd, dim, approximated), res),
        0 <= j < dim,
        0 <= k < dim,
    ensures
        res matches Ok(m) ==> weighted_dot(vf, v, degrees@, m@, j, k, svd.u@.len()) == value_sum(
            v,
            degrees@,
        ) * column_dot(v, svd.u@, rank - j, rank - k, svd.u@.len()),
{
    lemma_spectral(v, degrees@, *svd, dim as nat, approximated, res, rank);
    if let Ok(m) = res {
        lemma_weighted_dot(
            vf,
            v,
            degrees@,
            svd.u@,
            rank,
            dim as nat,
            m@,
            j,
            k,
            svd.u@.len(),
        );
    }
}

} // verus!
