//! The initial embedding is unique.
use vstd::prelude::*;

use crate::matrix::Matrix;
use crate::number::{casts_once, is_deterministic, is_sqrt, is_total, CastTo, Real};
use crate::spectral::{
    are_degree_weights, is_coordinate, is_degree_weight, is_first_rank, is_initial_embedding,
    is_readable, is_significant, is_spectral_embedding, SpectralError, Svd,
};
use crate::unique::law_total_unique;

verus! {

/// The two decompositions are the same.
pub open spec fn same_svd<W>(a: Svd<W>, b: Svd<W>) -> bool {
    &&& a.sigma@ == b.sigma@
    &&& a.u@ == b.u@
    &&& a.u.width() == b.u.width()
}

/// The two outcomes are the same: the same error, or the same matrix.
pub open spec fn same_outcome<F, E>(a: Result<Matrix<F>, E>, b: Result<Matrix<F>, E>) -> bool {
    match (a, b) {
        (Ok(m), Ok(n)) => m@ == n@ && m.width() == n.width(),
        (Err(e), Err(f)) => e == f,
        _ => false,
    }
}

/// The index of the singular value at which the embedding starts is unique.
pub proof fn law_first_rank_unique<W: Real>(
    sigma: Seq<W>,
    approximated: bool,
    a: Result<usize, SpectralError>,
    b: Result<usize, SpectralError>,
)
    requires
        is_deterministic::<W>(),
        is_first_rank(sigma, approximated, a),
        is_first_rank(sigma, approximated, b),
    ensures
        a == b,
{
    match (a, b) {
        (Ok(m), Ok(n)) => {
            if !approximated {
                assert(is_significant(sigma[m as int], true));
                assert(is_significant(sigma[n as int], true));
                assert(m < n ==> is_significant(sigma[n as int], false));
                assert(n < m ==> is_significant(sigma[m as int], false));
            }
        },
        (Ok(m), Err(SpectralError::NoPositiveEigenvalue)) => {
            assert(is_significant(sigma[m as int], true));
            assert(is_significant(sigma[m as int], false));
        },
        (Err(SpectralError::NoPositiveEigenvalue), Ok(n)) => {
            assert(is_significant(sigma[n as int], true));
            assert(is_significant(sigma[n as int], false));
        },
        _ => {},
    }
}

proof fn lemma_weights_unique<W: Real>(degrees: Seq<W>, v: Seq<W>, w: Seq<W>)
    requires
        is_deterministic::<W>(),
        are_degree_weights(degrees, v),
        are_degree_weights(degrees, w),
    ensures
        v == w,
{
    let (vs, vr) = choose|sum: W, root: W|
        is_total(degrees, sum) && is_sqrt(sum, root) && forall|i: int|
            0 <= i < degrees.len() ==> is_degree_weight(degrees[i], root, #[trigger] v[i]);
    let (ws, wr) = choose|sum: W, root: W|
        is_total(degrees, sum) && is_sqrt(sum, root) && forall|i: int|
            0 <= i < degrees.len() ==> is_degree_weight(degrees[i], root, #[trigger] w[i]);
    law_total_unique(degrees, vs, ws);
    assert(vr == wr);
    assert forall|i: int| 0 <= i < v.len() implies v[i] == w[i] by {
        assert(is_degree_weight(degrees[i], vr, v[i]) && is_degree_weight(degrees[i], vr, w[i]));
    }
    assert(v =~= w);
}

proof fn lemma_initial_embedding_unique<F, W: Real + CastTo<F>>(
    degrees: Seq<W>,
    u: Seq<Seq<W>>,
    rank: int,
    dim: nat,
    e: Seq<Seq<F>>,
    f: Seq<Seq<F>>,
)
    requires
        is_deterministic::<W>(),
        casts_once::<W, F>(),
        is_initial_embedding(degrees, u, rank, dim, e),
        is_initial_embedding(degrees, u, rank, dim, f),
    ensures
        e == f,
{
    let v = choose|weights: Seq<W>|
        #![trigger are_degree_weights(degrees, weights)]
        are_degree_weights(degrees, weights) && forall|i: int, j: int|
            0 <= i < u.len() && 0 <= j < dim ==> is_coordinate(
                u[i][rank - j],
                weights[i],
                #[trigger] e[i][j],
            );
    let w = choose|weights: Seq<W>|
        #![trigger are_degree_weights(degrees, weights)]
        are_degree_weights(degrees, weights) && forall|i: int, j: int|
            0 <= i < u.len() && 0 <= j < dim ==> is_coordinate(
                u[i][rank - j],
                weights[i],
                #[trigger] f[i][j],
            );
    lemma_weights_unique(degrees, v, w);
    assert forall|i: int| 0 <= i < e.len() implies e[i] == f[i] by {
        assert(e[i].len() == f[i].len());
        assert forall|j: int| 0 <= j < e[i].len() implies e[i][j] == f[i][j] by {
            assert(is_coordinate(u[i][rank - j], v[i], e[i][j]));
            assert(is_coordinate(u[i][rank - j], v[i], f[i][j]));
        }
        assert(e[i] =~= f[i]);
    }
    assert(e =~= f);
}

/// The embedding that a decomposition gives is unique.
pub proof fn law_spectral_embedding_unique<F, W: Real + CastTo<F>>(
    degrees: Seq<W>,
    svd_a: Svd<W>,
    svd_b: Svd<W>,
    dim: nat,
    approximated: bool,
    a: Result<Matrix<F>, SpectralError>,
    b: Result<Matrix<F>, SpectralError>,
)
    requires
        is_deterministic::<W>(),
        casts_once::<W, F>(),
        same_svd(svd_a, svd_b),
        is_spectral_embedding(degrees, svd_a, dim, approximated, a),
        is_spectral_embedding(degrees, svd_b, dim, approximated, b),
    ensures
        same_outcome(a, b),
{
    let first = first_of(degrees, svd_a, dim, approximated, a);
    let other = first_of(degrees, svd_b, dim, approximated, b);
    law_first_rank_unique(svd_a.sigma@, approximated, first, other);
    if let (Ok(m), Ok(n)) = (a, b) {
        let rank = first.unwrap() as int;
        lemma_initial_embedding_unique(degrees, svd_a.u@, rank, dim, m@, n@);
    }
}

/// The index of the singular value at which an embedding starts.
proof fn first_of<F, W: Real + CastTo<F>>(
    degrees: Seq<W>,
    svd: Svd<W>,
    dim: nat,
    approximated: bool,
    res: Result<Matrix<F>, SpectralError>,
) -> (first: Result<usize, SpectralError>)
    requires
        is_spectral_embedding(degrees, svd, dim, approximated, res),
    ensures
        is_first_rank(svd.sigma@, approximated, first),
        match (first, res) {
            (Err(error), _) => res == Err::<Matrix<F>, SpectralError>(error),
            (Ok(rank), Err(SpectralError::TooFewEigenvalues)) => rank < dim,
            (Ok(rank), Err(SpectralError::ShapeMismatch)) => rank >= dim && !is_readable(
                degrees,
                svd.u,
                rank as int,
                dim,
            ),
            (Ok(_), Err(_)) => false,
            (Ok(rank), Ok(m)) => rank >= dim && is_readable(degrees, svd.u, rank as int, dim)
                && m.width() == dim && is_initial_embedding(
                degrees,
                svd.u@,
                rank as int,
                dim,
                m@,
            ),
        },
{
    choose|first: Result<usize, SpectralError>|
        #![trigger is_first_rank(svd.sigma@, approximated, first)]
        is_first_rank(svd.sigma@, approximated, first) && match first {
            Err(error) => res == Err::<Matrix<F>, SpectralError>(error),
            Ok(rank) => match res {
                Err(SpectralError::TooFewEigenvalues) => rank < dim,
                Err(SpectralError::ShapeMismatch) => rank >= dim && !is_readable(
                    degrees,
                    svd.u,
                    rank as int,
                    dim,
                ),
                Err(_) => false,
                Ok(m) => {
                    &&& rank >= dim
                    &&& is_readable(degrees, svd.u, rank as int, dim)
                    &&& m.width() == dim
                    &&& is_initial_embedding(degrees, svd.u@, rank as int, dim, m@)
                },
            },
        }
}

} // verus!
