//! The arithmetic that the embedding is computed in.
//!
//! The algorithms of this crate work in whatever arithmetic the caller brings:
//! single and double precision are two implementations of [`Real`], and
//! [`CastTo`] carries a value from one to the other. Nothing is promised of an
//! operation, neither that it is exact nor that it gives the same answer twice
//! (`exp` and `ln` of a machine need not). The contracts of the crate therefore
//! say which operation was applied to which operands, and that its outcome is the
//! value that went on. The predicates `is_..` below state that of one operation.
use vstd::prelude::*;

verus! {

/// A kind of real number with the operations that the embedding needs.
pub trait Real: Copy {
    /// The number 0.
    fn zero() -> Self;

    /// The number 1.
    fn one() -> Self;

    /// The greatest finite number of this kind.
    fn greatest() -> Self;

    /// The number nearest to `num / den`.
    fn ratio(num: u32, den: u32) -> Self;

    /// The number nearest to `n`.
    fn count(n: usize) -> Self;

    /// `self + other`
    fn plus(self, other: Self) -> Self;

    /// `self - other`
    fn minus(self, other: Self) -> Self;

    /// `self * other`
    fn times(self, other: Self) -> Self;

    /// `self / other`
    fn over(self, other: Self) -> Self;

    /// `-self`
    fn negated(self) -> Self;

    /// The absolute value.
    fn magnitude(self) -> Self;

    /// The square root.
    fn sqrt(self) -> Self;

    /// The exponential function.
    fn exp(self) -> Self;

    /// The natural logarithm.
    fn ln(self) -> Self;

    /// `self` to the power `exponent`.
    fn power(self, exponent: Self) -> Self;

    /// The greater of the two numbers.
    fn greater_of(self, other: Self) -> Self;

    /// The lesser of the two numbers.
    fn lesser_of(self, other: Self) -> Self;

    /// `self < other`
    fn below(self, other: Self) -> bool;

    /// `self <= other`
    fn at_most(self, other: Self) -> bool;

    /// Neither infinite nor undefined.
    fn finite(self) -> bool;

    /// Neither zero, infinite, subnormal nor undefined.
    fn normal(self) -> bool;
}

/// Conversion of a number into another kind of number.
pub trait CastTo<T>: Copy {
    /// The number of kind `T` nearest to `self`.
    fn cast(self) -> T;
}

#[verifier::inline]
pub open spec fn is_zero<T: Real>(r: T) -> bool {
    call_ensures(T::zero, (), r)
}

#[verifier::inline]
pub open spec fn is_one<T: Real>(r: T) -> bool {
    call_ensures(T::one, (), r)
}

#[verifier::inline]
pub open spec fn is_greatest<T: Real>(r: T) -> bool {
    call_ensures(T::greatest, (), r)
}

#[verifier::inline]
pub open spec fn is_ratio<T: Real>(num: u32, den: u32, r: T) -> bool {
    call_ensures(T::ratio, (num, den), r)
}

#[verifier::inline]
pub open spec fn is_count<T: Real>(n: usize, r: T) -> bool {
    call_ensures(T::count, (n,), r)
}

#[verifier::inline]
pub open spec fn is_sum<T: Real>(a: T, b: T, r: T) -> bool {
    call_ensures(T::plus, (a, b), r)
}

#[verifier::inline]
pub open spec fn is_diff<T: Real>(a: T, b: T, r: T) -> bool {
    call_ensures(T::minus, (a, b), r)
}

#[verifier::inline]
pub open spec fn is_prod<T: Real>(a: T, b: T, r: T) -> bool {
    call_ensures(T::times, (a, b), r)
}

#[verifier::inline]
pub open spec fn is_quot<T: Real>(a: T, b: T, r: T) -> bool {
    call_ensures(T::over, (a, b), r)
}

#[verifier::inline]
pub open spec fn is_neg<T: Real>(a: T, r: T) -> bool {
    call_ensures(T::negated, (a,), r)
}

#[verifier::inline]
pub open spec fn is_magnitude<T: Real>(a: T, r: T) -> bool {
    call_ensures(T::magnitude, (a,), r)
}

#[verifier::inline]
pub open spec fn is_sqrt<T: Real>(a: T, r: T) -> bool {
    call_ensures(T::sqrt, (a,), r)
}

#[verifier::inline]
pub open spec fn is_exp<T: Real>(a: T, r: T) -> bool {
    call_ensures(T::exp, (a,), r)
}

#[verifier::inline]
pub open spec fn is_ln<T: Real>(a: T, r: T) -> bool {
    call_ensures(T::ln, (a,), r)
}

#[verifier::inline]
pub open spec fn is_power<T: Real>(a: T, e: T, r: T) -> bool {
    call_ensures(T::power, (a, e), r)
}

#[verifier::inline]
pub open spec fn is_greater_of<T: Real>(a: T, b: T, r: T) -> bool {
    call_ensures(T::greater_of, (a, b), r)
}

#[verifier::inline]
pub open spec fn is_lesser_of<T: Real>(a: T, b: T, r: T) -> bool {
    call_ensures(T::lesser_of, (a, b), r)
}

/// Asked whether `a < b`, the arithmetic answered `r`.
#[verifier::inline]
pub open spec fn is_below<T: Real>(a: T, b: T, r: bool) -> bool {
    call_ensures(T::below, (a, b), r)
}

/// Asked whether `a <= b`, the arithmetic answered `r`.
#[verifier::inline]
pub open spec fn is_at_most<T: Real>(a: T, b: T, r: bool) -> bool {
    call_ensures(T::at_most, (a, b), r)
}

#[verifier::inline]
pub open spec fn is_finite<T: Real>(a: T, r: bool) -> bool {
    call_ensures(T::finite, (a,), r)
}

#[verifier::inline]
pub open spec fn is_normal<T: Real>(a: T, r: bool) -> bool {
    call_ensures(T::normal, (a,), r)
}

#[verifier::inline]
pub open spec fn is_cast<A: CastTo<B>, B>(a: A, b: B) -> bool {
    call_ensures(<A as CastTo<B>>::cast, (a,), b)
}

/// Asked whether `0 < a`, the arithmetic answered `r`.
pub open spec fn is_positive<T: Real>(a: T, r: bool) -> bool {
    exists|z: T| is_zero(z) && is_below(z, a, r)
}

/// `r` is `(a - b)` squared.
pub open spec fn is_squared_gap<T: Real>(a: T, b: T, r: T) -> bool {
    exists|d: T| is_diff(a, b, d) && is_prod(d, d, r)
}

/// `m` is `(a + b) * 0.5`.
pub open spec fn is_midpoint<T: Real>(a: T, b: T, m: T) -> bool {
    exists|s: T, half: T| is_sum(a, b, s) && is_ratio(1, 2, half) && is_prod(s, half, m)
}

/// `total` is what adding the `terms` to `start` one after the other gives.
pub open spec fn sums_to<T: Real>(start: T, terms: Seq<T>, total: T) -> bool
    decreases terms.len(),
{
    if terms.len() == 0 {
        total == start
    } else {
        exists|part: T|
            #![trigger is_sum(part, terms.last(), total)]
            sums_to(start, terms.drop_last(), part) && is_sum(part, terms.last(), total)
    }
}

/// `total` is the sum of the `terms`, taken from the first to the last.
pub open spec fn is_total<T: Real>(terms: Seq<T>, total: T) -> bool {
    exists|z: T| is_zero(z) && sums_to(z, terms, total)
}

/// The numbers `out` are the numbers `src`, converted one by one.
pub open spec fn are_casts<A: CastTo<B>, B>(src: Seq<A>, out: Seq<B>) -> bool {
    &&& out.len() == src.len()
    &&& forall|k: int| 0 <= k < src.len() ==> is_cast(src[k], #[trigger] out[k])
}

/// Asked the same question twice, the arithmetic gives the same answer.
pub open spec fn is_deterministic<T: Real>() -> bool {
    &&& forall|r: T, s: T| #![trigger is_zero(r), is_zero(s)] is_zero(r) && is_zero(s) ==> r == s
    &&& forall|r: T, s: T| #![trigger is_one(r), is_one(s)] is_one(r) && is_one(s) ==> r == s
    &&& forall|r: T, s: T|
        #![trigger is_greatest(r), is_greatest(s)]
        is_greatest(r) && is_greatest(s) ==> r == s
    &&& forall|a: T, b: T, r: T, s: T|
        #![trigger is_sum(a, b, r), is_sum(a, b, s)]
        is_sum(a, b, r) && is_sum(a, b, s) ==> r == s
    &&& forall|a: T, b: T, r: T, s: T|
        #![trigger is_diff(a, b, r), is_diff(a, b, s)]
        is_diff(a, b, r) && is_diff(a, b, s) ==> r == s
    &&& forall|a: T, b: T, r: T, s: T|
        #![trigger is_prod(a, b, r), is_prod(a, b, s)]
        is_prod(a, b, r) && is_prod(a, b, s) ==> r == s
    &&& forall|a: T, b: T, r: T, s: T|
        #![trigger is_quot(a, b, r), is_quot(a, b, s)]
        is_quot(a, b, r) && is_quot(a, b, s) ==> r == s
    &&& forall|a: T, b: T, r: T, s: T|
        #![trigger is_power(a, b, r), is_power(a, b, s)]
        is_power(a, b, r) && is_power(a, b, s) ==> r == s
    &&& forall|a: T, b: T, r: T, s: T|
        #![trigger is_greater_of(a, b, r), is_greater_of(a, b, s)]
        is_greater_of(a, b, r) && is_greater_of(a, b, s) ==> r == s
    &&& forall|a: T, b: T, r: T, s: T|
        #![trigger is_lesser_of(a, b, r), is_lesser_of(a, b, s)]
        is_lesser_of(a, b, r) && is_lesser_of(a, b, s) ==> r == s
    &&& forall|a: T, r: T, s: T|
        #![trigger is_neg(a, r), is_neg(a, s)]
        is_neg(a, r) && is_neg(a, s) ==> r == s
    &&& forall|a: T, r: T, s: T|
        #![trigger is_magnitude(a, r), is_magnitude(a, s)]
        is_magnitude(a, r) && is_magnitude(a, s) ==> r == s
    &&& forall|a: T, r: T, s: T|
        #![trigger is_sqrt(a, r), is_sqrt(a, s)]
        is_sqrt(a, r) && is_sqrt(a, s) ==> r == s
    &&& forall|a: T, r: T, s: T|
        #![trigger is_exp(a, r), is_exp(a, s)]
        is_exp(a, r) && is_exp(a, s) ==> r == s
    &&& forall|a: T, r: T, s: T|
        #![trigger is_ln(a, r), is_ln(a, s)]
        is_ln(a, r) && is_ln(a, s) ==> r == s
    &&& forall|num: u32, den: u32, r: T, s: T|
        #![trigger is_ratio(num, den, r), is_ratio(num, den, s)]
        is_ratio(num, den, r) && is_ratio(num, den, s) ==> r == s
    &&& forall|n: usize, r: T, s: T|
        #![trigger is_count(n, r), is_count(n, s)]
        is_count(n, r) && is_count(n, s) ==> r == s
    &&& forall|a: T, b: T, r: bool, s: bool|
        #![trigger is_below(a, b, r), is_below(a, b, s)]
        is_below(a, b, r) && is_below(a, b, s) ==> r == s
    &&& forall|a: T, b: T, r: bool, s: bool|
        #![trigger is_at_most(a, b, r), is_at_most(a, b, s)]
        is_at_most(a, b, r) && is_at_most(a, b, s) ==> r == s
    &&& forall|a: T, r: bool, s: bool|
        #![trigger is_finite(a, r), is_finite(a, s)]
        is_finite(a, r) && is_finite(a, s) ==> r == s
    &&& forall|a: T, r: bool, s: bool|
        #![trigger is_normal(a, r), is_normal(a, s)]
        is_normal(a, r) && is_normal(a, s) ==> r == s
}

/// Converted twice, a number gives the same number.
pub open spec fn casts_once<A: CastTo<B>, B>() -> bool {
    forall|a: A, b: B, c: B|
        #![trigger is_cast(a, b), is_cast(a, c)]
        is_cast(a, b) && is_cast(a, c) ==> b == c
}

/// The arithmetic gives the same answer to the same question, and to a sum or product whatever the
/// order of its operands.
pub open spec fn is_repeatable<T: Real>() -> bool {
    &&& is_deterministic::<T>()
    &&& forall|a: T, b: T, r: T, s: T|
        #![trigger is_sum(a, b, r), is_sum(b, a, s)]
        is_sum(a, b, r) && is_sum(b, a, s) ==> r == s
    &&& forall|a: T, b: T, r: T, s: T|
        #![trigger is_prod(a, b, r), is_prod(b, a, s)]
        is_prod(a, b, r) && is_prod(b, a, s) ==> r == s
}

/// A sum grows by one term.
pub proof fn lemma_sum_push<T: Real>(start: T, terms: Seq<T>, part: T, term: T, total: T)
    requires
        sums_to(start, terms, part),
        is_sum(part, term, total),
    ensures
        sums_to(start, terms.push(term), total),
{
    let grown = terms.push(term);
    assert(grown.drop_last() =~= terms);
    assert(is_sum(part, grown.last(), total));
}

pub proof fn lemma_total_push<T: Real>(terms: Seq<T>, part: T, term: T, total: T)
    requires
        is_total(terms, part),
        is_sum(part, term, total),
    ensures
        is_total(terms.push(term), total),
{
    let z = choose|z: T| is_zero(z) && sums_to(z, terms, part);
    lemma_sum_push(z, terms, part, term, total);
}

/// The sum of the numbers, from the first to the last.
pub fn total<T: Real>(terms: &Vec<T>) -> (r: T)
    ensures
        is_total(terms@, r),
{
    let z = T::zero();
    let mut acc = z;
    for i in 0..terms.len()
        invariant
            sums_to(z, terms@.take(i as int), acc),
    {
        let next = acc.plus(terms[i]);
        proof {
            lemma_sum_push(z, terms@.take(i as int), acc, terms@[i as int], next);
            assert(terms@.take(i as int).push(terms@[i as int]) =~= terms@.take(i + 1));
        }
        acc = next;
    }
    assert(terms@.take(terms@.len() as int) =~= terms@);
    acc
}

/// A sum is taken from the first term to the last, starting from 0: it is the sum of the terms
/// before the last, and then the last is added.
pub proof fn law_total_in_order<T: Real>(terms: &Vec<T>, r: T)
    requires
        call_ensures(total::<T>, (terms,), r),
    ensures
        terms@.len() == 0 ==> is_zero(r),
        terms@.len() > 0 ==> exists|part: T| #[trigger]
            is_total(terms@.drop_last(), part) && is_sum(part, terms@.last(), r),
        forall|x: T, s: T| #[trigger] is_sum(r, x, s) ==> is_total(terms@.push(x), s),
{
    let z = choose|z: T| is_zero(z) && sums_to(z, terms@, r);
    if terms@.len() > 0 {
        let part = choose|part: T|
            #![trigger is_sum(part, terms@.last(), r)]
            sums_to(z, terms@.drop_last(), part) && is_sum(part, terms@.last(), r);
        assert(is_total(terms@.drop_last(), part));
    }
    assert forall|x: T, s: T| #[trigger] is_sum(r, x, s) implies is_total(terms@.push(x), s) by {
        lemma_total_push(terms@, r, x, s);
    }
}

/// Whether the number is greater than 0.
pub fn positive<T: Real>(a: T) -> (r: bool)
    ensures
        is_positive(a, r),
{
    T::zero().below(a)
}

/// `(a + b) * 0.5`
pub fn midpoint<T: Real>(a: T, b: T) -> (m: T)
    ensures
        is_midpoint(a, b, m),
{
    a.plus(b).times(T::ratio(1, 2))
}

/// `(a - b)` squared.
pub fn squared_gap<T: Real>(a: T, b: T) -> (r: T)
    ensures
        is_squared_gap(a, b, r),
{
    let d = a.minus(b);
    d.times(d)
}

} // verus!
