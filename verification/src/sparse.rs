//! Sparse matrices: as a list of terms, and compressed row by row.
use vstd::prelude::*;

use crate::number::{is_repeatable, is_sum, sums_to, Real};
use crate::summand::Summand;

verus! {

/// A sparse matrix of `nbnodes` rows and columns, as the list of its terms: `values[t]` is a term
/// of the coefficient at row `rows[t]` and column `cols[t]`. A coefficient is the sum of its terms.
pub struct Triplets<W> {
    pub nbnodes: usize,
    pub rows: Vec<usize>,
    pub cols: Vec<usize>,
    pub values: Vec<W>,
}

impl<W> Triplets<W> {
    /// The three lists are of one length.
    pub open spec fn wf(&self) -> bool {
        self.rows@.len() == self.values@.len() && self.cols@.len() == self.values@.len()
    }

    /// The terms: row, column and value of each.
    pub open spec fn terms(&self) -> Seq<(usize, usize, W)> {
        Seq::new(
            self.values@.len(),
            |t: int| (self.rows@[t], self.cols@[t], self.values@[t]),
        )
    }
}

/// A sparse matrix of `nbnodes` rows and columns, compressed row by row: the coefficients of the row
/// `i` are those at the indices `indptr[i] .. indptr[i + 1]` of `data`, in the columns given by
/// `indices`.
pub struct CsrMatrix<W> {
    pub nbnodes: usize,
    pub indptr: Vec<usize>,
    pub indices: Vec<usize>,
    pub data: Vec<W>,
}

/// The values of the terms at the row `row` and the column `col`.
pub open spec fn place_values<W>(terms: Seq<(usize, usize, W)>, row: int, col: int) -> Seq<W>
    decreases terms.len(),
{
    if terms.len() == 0 {
        Seq::empty()
    } else if terms.last().0 == row && terms.last().1 == col {
        place_values(terms.drop_last(), row, col).push(terms.last().2)
    } else {
        place_values(terms.drop_last(), row, col)
    }
}

/// `v` is the sum of the values, of which there is at least one, in some order.
pub open spec fn is_sum_in_some_order<W: Real>(values: Seq<W>, v: W) -> bool {
    exists|order: Seq<W>|
        #![trigger order.to_multiset()]
        order.len() > 0 && order.to_multiset() == values.to_multiset() && sums_to(
            order.first(),
            order.drop_first(),
            v,
        )
}

impl<W: Real> CsrMatrix<W> {
    /// The index `s` of `data` lies in the row `row`.
    pub open spec fn in_row(&self, row: int, s: int) -> bool {
        0 <= row < self.nbnodes && self.indptr@[row] <= s < self.indptr@[row + 1]
    }

    /// The rows follow one another, and fill the matrix.
    pub open spec fn wf(&self) -> bool {
        &&& self.indptr@.len() == self.nbnodes + 1
        &&& self.indptr@.first() == 0
        &&& self.indptr@.last() == self.data@.len()
        &&& self.indices@.len() == self.data@.len()
        &&& forall|i: int, j: int|
            0 <= i <= j <= self.nbnodes ==> self.indptr@[i] <= self.indptr@[j]
    }

    /// The matrix holds the sum of these terms at each place at which there is one, once, and the
    /// columns of a row increase.
    pub open spec fn is_made_of(&self, terms: Seq<(usize, usize, W)>) -> bool {
        &&& self.wf()
        &&& forall|i: int, s: int| #[trigger]
            self.in_row(i, s) ==> self.indices@[s] < self.nbnodes && is_sum_in_some_order(
                place_values(terms, i, self.indices@[s] as int),
                self.data@[s],
            )
        &&& forall|i: int, s: int, t: int|
            #![trigger self.in_row(i, s), self.in_row(i, t)]
            self.in_row(i, s) && self.in_row(i, t) && s < t ==> self.indices@[s] < self.indices@[t]
        &&& forall|t: int|
            0 <= t < terms.len() ==> exists|s: int|
                self.in_row((#[trigger] terms[t]).0 as int, s) && self.indices@[s] == terms[t].1
    }
}

/// Compresses the matrix. The work is done by `sprs`: `TriMatBase::from_triplets` takes the terms
/// and refuses those outside the matrix, and `TriMatBase::to_csr` sorts them by row and column and
/// adds up those at the same place, with the addition of [`Summand`]. What is stated of it: the
/// result has a coefficient at each place that has a term, once, and at no other; it is the sum of
/// the terms at its place. The order in which they are added is not stated, as the sort is not
/// stable.
#[verifier::external_body]
pub(crate) fn compressed<W: Real>(triplets: Triplets<W>) -> (csr: CsrMatrix<W>)
    requires
        triplets.wf(),
        triplets.nbnodes < usize::MAX,
        forall|t: int|
            0 <= t < triplets.terms().len() ==> (#[trigger] triplets.terms()[t]).0
                < triplets.nbnodes && triplets.terms()[t].1 < triplets.nbnodes,
    ensures
        csr.nbnodes == triplets.nbnodes,
        csr.is_made_of(triplets.terms()),
{
    let Triplets { nbnodes, rows, cols, values } = triplets;
    let values: Vec<Summand<W>> = values.into_iter().map(Summand).collect();
    let matrix: sprs::CsMat<Summand<W>> = sprs::TriMatBase::<Vec<usize>, Vec<Summand<W>>>::from_triplets(
        (nbnodes, nbnodes),
        rows,
        cols,
        values,
    ).to_csr();
    let (indptr, indices, data) = matrix.into_raw_storage();
    CsrMatrix { nbnodes, indptr, indices, data: data.into_iter().map(|s| s.0).collect() }
}

/// The sum of one value is that value.
pub proof fn lemma_single_sum<W: Real>(x: W, v: W)
    requires
        is_sum_in_some_order(seq![x], v),
    ensures
        v == x,
{
    broadcast use vstd::seq_lib::group_to_multiset_ensures;

    let order = choose|order: Seq<W>|
        #![trigger order.to_multiset()]
        order.len() > 0 && order.to_multiset() == seq![x].to_multiset() && sums_to(
            order.first(),
            order.drop_first(),
            v,
        );
    assert(order.to_multiset().len() == seq![x].to_multiset().len());
    assert(order.len() == 1);
    assert(order.to_multiset().count(order[0]) > 0);
    assert(seq![x].contains(order[0]));
}

/// How often a value occurs among two.
proof fn lemma_pair_multiset<W>(s: Seq<W>)
    requires
        s.len() == 2,
    ensures
        s.to_multiset() == vstd::multiset::Multiset::empty().insert(s[0]).insert(s[1]),
{
    broadcast use vstd::seq_lib::group_to_multiset_ensures;

    assert(s =~= Seq::empty().push(s[0]).push(s[1]));
    assert(Seq::<W>::empty().to_multiset() =~= vstd::multiset::Multiset::empty());
}

/// Sums of the same terms, at most two of them, are equal in whatever order they are taken.
pub proof fn lemma_short_sums_equal<W: Real>(values: Seq<W>, v: W, w: W)
    requires
        is_repeatable::<W>(),
        values.len() <= 2,
        is_sum_in_some_order(values, v),
        is_sum_in_some_order(values, w),
    ensures
        v == w,
{
    broadcast use vstd::seq_lib::group_to_multiset_ensures;

    let p = choose|p: Seq<W>|
        #![trigger p.to_multiset()]
        p.len() > 0 && p.to_multiset() == values.to_multiset() && sums_to(
            p.first(),
            p.drop_first(),
            v,
        );
    let q = choose|q: Seq<W>|
        #![trigger q.to_multiset()]
        q.len() > 0 && q.to_multiset() == values.to_multiset() && sums_to(
            q.first(),
            q.drop_first(),
            w,
        );
    assert(p.to_multiset().len() == values.len() && q.to_multiset().len() == values.len());
    assert(p.len() == values.len() && q.len() == values.len());
    if p.len() == 1 {
        assert(p.drop_first().len() == 0 && q.drop_first().len() == 0);
        assert(p.to_multiset().count(p[0]) > 0);
        assert(q.contains(p[0]));
    } else {
        assert(p.drop_first() =~= seq![p[1]]);
        assert(q.drop_first() =~= seq![q[1]]);
        assert(p.drop_first().drop_last() =~= Seq::empty());
        assert(q.drop_first().drop_last() =~= Seq::empty());
        reveal_with_fuel(sums_to, 2);
        assert(is_sum(p[0], p[1], v));
        assert(is_sum(q[0], q[1], w));
        lemma_pair_multiset(p);
        lemma_pair_multiset(q);
        assert(p.to_multiset().count(p[0]) > 0);
        assert(p.to_multiset().count(p[1]) > 0);
        assert(q.contains(p[0]) && q.contains(p[1]));
        if p[0] == p[1] {
            assert(p.to_multiset().count(p[0]) == 2);
            assert(q[0] == p[0] && q[1] == p[0]);
        } else {
            assert((q[0] == p[0] && q[1] == p[1]) || (q[0] == p[1] && q[1] == p[0]));
        }
    }
}

/// There is a term at a place that has values.
pub proof fn lemma_place_has_term<W>(terms: Seq<(usize, usize, W)>, i: int, j: int) -> (t: int)
    requires
        place_values(terms, i, j).len() > 0,
    ensures
        0 <= t < terms.len(),
        terms[t].0 == i,
        terms[t].1 == j,
    decreases terms.len(),
{
    if terms.last().0 == i && terms.last().1 == j {
        terms.len() - 1
    } else {
        lemma_place_has_term(terms.drop_last(), i, j)
    }
}

} // verus!
