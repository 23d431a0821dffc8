//! What holds of an embedding in exact arithmetic.
//!
//! The numbers of an exact arithmetic have real values, and its operations are those of the real numbers.
//! In the arithmetic of a machine the laws of these modules hold up to rounding.
use vstd::prelude::*;

use crate::number::{
    is_at_most, is_below, is_cast, is_count, is_diff, is_magnitude, is_neg, is_one, is_prod,
    is_quot, is_ratio, is_sqrt, is_sum, is_total, is_zero, sums_to, CastTo, Real,
};
use crate::sparse::is_sum_in_some_order;

pub mod coefficient;
pub mod descent;
pub mod embedding;
pub mod entropy;
pub mod laplacian;
pub mod node;
pub mod scale;
pub mod search;
pub mod spectral;
pub mod umap;
pub mod weight;

verus! {

/// The operations are exact, `v` giving the values of the numbers. A quotient is that of the values where
/// the divisor is not 0, and a square root that of a value that is not negative.
pub open spec fn is_exact<T: Real>(v: spec_fn(T) -> real) -> bool {
    &&& forall|r: T| #[trigger] is_zero(r) ==> v(r) == 0 as real
    &&& forall|r: T| #[trigger] is_one(r) ==> v(r) == 1 as real
    &&& forall|num: u32, den: u32, r: T| #[trigger]
        is_ratio(num, den, r) && den != 0 ==> v(r) * (den as real) == num as real
    &&& forall|n: usize, r: T| #[trigger] is_count(n, r) ==> v(r) == n as real
    &&& forall|a: T, b: T, r: T| #[trigger] is_sum(a, b, r) ==> v(r) == v(a) + v(b)
    &&& forall|a: T, b: T, r: T| #[trigger] is_diff(a, b, r) ==> v(r) == v(a) - v(b)
    &&& forall|a: T, b: T, r: T| #[trigger] is_prod(a, b, r) ==> v(r) == v(a) * v(b)
    &&& forall|a: T, b: T, r: T| #[trigger]
        is_quot(a, b, r) && v(b) != 0 as real ==> v(r) * v(b) == v(a)
    &&& forall|a: T, r: T| #[trigger] is_neg(a, r) ==> v(r) == -v(a)
    &&& forall|a: T, r: T| #[trigger]
        is_magnitude(a, r) ==> v(r) == (if v(a) < 0 as real {
            -v(a)
        } else {
            v(a)
        })
    &&& forall|a: T, r: T| #[trigger]
        is_sqrt(a, r) && v(a) >= 0 as real ==> v(r) >= 0 as real && v(r) * v(r) == v(a)
    &&& forall|a: T, b: T, r: bool| #[trigger] is_below(a, b, r) ==> r == (v(a) < v(b))
    &&& forall|a: T, b: T, r: bool| #[trigger] is_at_most(a, b, r) ==> r == (v(a) <= v(b))
}

/// `r` is the square root of `x`.
pub open spec fn is_root_of(r: real, x: real) -> bool {
    r >= 0 as real && r * r == x
}

/// Numbers of the same value are the same number.
pub open spec fn is_faithful<T>(v: spec_fn(T) -> real) -> bool {
    forall|a: T, b: T| #[trigger] v(a) == #[trigger] v(b) ==> a == b
}

/// Conversion keeps the value.
pub open spec fn keeps_value<A: CastTo<B>, B>(v: spec_fn(A) -> real, w: spec_fn(B) -> real) -> bool {
    forall|a: A, b: B| #[trigger] is_cast(a, b) ==> w(b) == v(a)
}

/// The sum of the values of the numbers.
pub open spec fn value_sum<T>(v: spec_fn(T) -> real, terms: Seq<T>) -> real
    decreases terms.len(),
{
    if terms.len() == 0 {
        0 as real
    } else {
        value_sum(v, terms.drop_last()) + v(terms.last())
    }
}

/// What adding the terms to `start` gives has the value of the sum.
pub proof fn lemma_sums_to_exact<T: Real>(v: spec_fn(T) -> real, start: T, terms: Seq<T>, r: T)
    requires
        is_exact(v),
        sums_to(start, terms, r),
    ensures
        v(r) == v(start) + value_sum(v, terms),
    decreases terms.len(),
{
    if terms.len() > 0 {
        let p = choose|p: T|
            #![trigger is_sum(p, terms.last(), r)]
            sums_to(start, terms.drop_last(), p) && is_sum(p, terms.last(), r);
        lemma_sums_to_exact(v, start, terms.drop_last(), p);
    }
}

/// The total of the terms has the value of their sum.
pub proof fn law_total_exact<T: Real>(v: spec_fn(T) -> real, terms: Seq<T>, r: T)
    requires
        is_exact(v),
        is_total(terms, r),
    ensures
        v(r) == value_sum(v, terms),
{
    let z = choose|z: T| is_zero(z) && sums_to(z, terms, r);
    lemma_sums_to_exact(v, z, terms, r);
}

/// A sum without the term of index `k`.
proof fn lemma_sum_remove<T>(v: spec_fn(T) -> real, terms: Seq<T>, k: int)
    requires
        0 <= k < terms.len(),
    ensures
        value_sum(v, terms) == value_sum(v, terms.remove(k)) + v(terms[k]),
    decreases terms.len(),
{
    let rest = terms.remove(k);
    if k == terms.len() - 1 {
        assert(rest =~= terms.drop_last());
    } else {
        assert(rest.drop_last() =~= terms.drop_last().remove(k));
        assert(rest.last() == terms.last());
        lemma_sum_remove(v, terms.drop_last(), k);
    }
}

/// The sum of values does not depend on their order.
pub proof fn law_value_sum_order<T>(v: spec_fn(T) -> real, a: Seq<T>, b: Seq<T>)
    requires
        a.to_multiset() == b.to_multiset(),
    ensures
        value_sum(v, a) == value_sum(v, b),
    decreases a.len(),
{
    broadcast use vstd::seq_lib::group_to_multiset_ensures;

    assert(a.len() == a.to_multiset().len() && b.len() == b.to_multiset().len());
    if a.len() > 0 {
        let x = a.last();
        assert(a.contains(x));
        assert(a.to_multiset().count(x) > 0);
        assert(b.contains(x));
        let k = choose|k: int| 0 <= k < b.len() && b[k] == x;
        lemma_sum_remove(v, b, k);
        assert(a.drop_last() =~= a.remove(a.len() - 1));
        assert(a.drop_last().to_multiset() =~= b.remove(k).to_multiset());
        law_value_sum_order(v, a.drop_last(), b.remove(k));
    }
}

/// A sum is its first term and the sum of the others.
proof fn lemma_sum_front<T>(v: spec_fn(T) -> real, terms: Seq<T>)
    requires
        terms.len() > 0,
    ensures
        value_sum(v, terms) == v(terms.first()) + value_sum(v, terms.drop_first()),
    decreases terms.len(),
{
    if terms.len() == 1 {
        assert(terms.drop_last() =~= Seq::empty());
        assert(terms.drop_first() =~= Seq::empty());
    } else {
        lemma_sum_front(v, terms.drop_last());
        assert(terms.drop_first().drop_last() =~= terms.drop_last().drop_first());
        assert(terms.drop_first().last() == terms.last());
    }
}

/// A sum in some order has the value of the sum.
pub proof fn law_ordered_sum_exact<T: Real>(v: spec_fn(T) -> real, terms: Seq<T>, r: T)
    requires
        is_exact(v),
        is_sum_in_some_order(terms, r),
    ensures
        v(r) == value_sum(v, terms),
{
    let order = choose|order: Seq<T>|
        #![trigger order.to_multiset()]
        order.len() > 0 && order.to_multiset() == terms.to_multiset() && sums_to(
            order.first(),
            order.drop_first(),
            r,
        );
    lemma_sums_to_exact(v, order.first(), order.drop_first(), r);
    lemma_sum_front(v, order);
    law_value_sum_order(v, order, terms);
}

} // verus!
