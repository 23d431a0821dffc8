//! In a deterministic arithmetic the contracts of this crate leave one outcome open.
//!
//! The contracts relate an outcome to the operations that led to it, and an operation may answer
//! differently when it is asked again. Where it does not, two outcomes that both meet a contract are the
//! same. The laws of these modules state that, of each step of the embedding and of the whole.
use vstd::prelude::*;

use crate::number::{
    casts_once, is_deterministic, is_sum, is_total, is_zero, sums_to, CastTo, Real,
};

pub mod embedding;
pub mod entropy;
pub mod laplacian;
pub mod scale;
pub mod search;
pub mod spectral;

verus! {

/// The three arithmetics that an embedding is computed in are deterministic, and so are the
/// conversions between them.
pub open spec fn is_steady<
    F: Real + CastTo<W> + CastTo<D>,
    W: Real + CastTo<F> + CastTo<D>,
    D: Real,
>() -> bool {
    &&& is_deterministic::<F>()
    &&& is_deterministic::<W>()
    &&& is_deterministic::<D>()
    &&& casts_once::<F, W>()
    &&& casts_once::<W, F>()
    &&& casts_once::<F, D>()
    &&& casts_once::<W, D>()
}

/// The sum of the terms, added to `start` one after the other, is unique.
pub proof fn law_sum_unique<T: Real>(start: T, terms: Seq<T>, r: T, s: T)
    requires
        is_deterministic::<T>(),
        sums_to(start, terms, r),
        sums_to(start, terms, s),
    ensures
        r == s,
    decreases terms.len(),
{
    if terms.len() > 0 {
        let p = choose|p: T|
            #![trigger is_sum(p, terms.last(), r)]
            sums_to(start, terms.drop_last(), p) && is_sum(p, terms.last(), r);
        let q = choose|q: T|
            #![trigger is_sum(q, terms.last(), s)]
            sums_to(start, terms.drop_last(), q) && is_sum(q, terms.last(), s);
        law_sum_unique(start, terms.drop_last(), p, q);
    }
}

/// The sum of the terms is unique.
pub proof fn law_total_unique<T: Real>(terms: Seq<T>, r: T, s: T)
    requires
        is_deterministic::<T>(),
        is_total(terms, r),
        is_total(terms, s),
    ensures
        r == s,
{
    let y = choose|y: T| is_zero(y) && sums_to(y, terms, r);
    let z = choose|z: T| is_zero(z) && sums_to(z, terms, s);
    assert(y == z);
    law_sum_unique(y, terms, r, s);
}

} // verus!
