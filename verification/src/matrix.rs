//! Rectangular tables of numbers.
use vstd::prelude::*;

verus! {

/// A matrix, kept row by row. All rows have the same length.
pub struct Matrix<T> {
    ncols: usize,
    rows: Vec<Vec<T>>,
}

impl<T> View for Matrix<T> {
    type V = Seq<Seq<T>>;

    closed spec fn view(&self) -> Seq<Seq<T>> {
        self.rows@.map_values(|row: Vec<T>| row@)
    }
}

/// Every row of `rows` is `width` long.
pub open spec fn rectangular<T>(rows: Seq<Seq<T>>, width: nat) -> bool {
    forall|i: int| 0 <= i < rows.len() ==> (#[trigger] rows[i]).len() == width
}

impl<T> Matrix<T> {
    /// The number of columns.
    pub closed spec fn width(&self) -> nat {
        self.ncols as nat
    }

    #[verifier::type_invariant]
    spec fn same_lengths(self) -> bool {
        forall|i: int| 0 <= i < self.rows@.len() ==> (#[trigger] self.rows@[i])@.len() == self.ncols
    }

    /// The matrix with these rows, all of them `ncols` long.
    pub fn new(ncols: usize, rows: Vec<Vec<T>>) -> (m: Matrix<T>)
        requires
            rectangular(rows@.map_values(|row: Vec<T>| row@), ncols as nat),
        ensures
            m@ == rows@.map_values(|row: Vec<T>| row@),
            m.width() == ncols,
    {
        let ghost views = rows@.map_values(|row: Vec<T>| row@);
        assert forall|i: int| 0 <= i < rows@.len() implies (#[trigger] rows@[i])@.len() == ncols by {
            assert(views[i] == rows@[i]@);
        }
        Matrix { ncols, rows }
    }

    /// The matrix with these rows, or `None` where one of them is not `ncols` long.
    pub fn from_rows(ncols: usize, rows: Vec<Vec<T>>) -> (res: Option<Matrix<T>>)
        ensures
            res is Some <==> rectangular(rows@.map_values(|row: Vec<T>| row@), ncols as nat),
            res matches Some(m) ==> m@ == rows@.map_values(|row: Vec<T>| row@) && m.width()
                == ncols,
    {
        let ghost views = rows@.map_values(|row: Vec<T>| row@);
        for i in 0..rows.len()
            invariant
                views == rows@.map_values(|row: Vec<T>| row@),
                forall|k: int| 0 <= k < i ==> (#[trigger] rows@[k])@.len() == ncols,
        {
            if rows[i].len() != ncols {
                assert(views[i as int].len() != ncols);
                return None;
            }
        }
        assert forall|k: int| 0 <= k < views.len() implies (#[trigger] views[k]).len() == ncols by {
            assert(views[k] == rows@[k]@);
        }
        Some(Matrix::new(ncols, rows))
    }

    /// The number of rows.
    pub fn nrows(&self) -> (n: usize)
        ensures
            n == self@.len(),
            rectangular(self@, self.width()),
    {
        proof {
            use_type_invariant(self);
        }
        self.rows.len()
    }

    /// The number of columns.
    pub fn ncols(&self) -> (n: usize)
        ensures
            n == self.width(),
            rectangular(self@, self.width()),
    {
        proof {
            use_type_invariant(self);
        }
        self.ncols
    }

    /// The row of index `i`.
    pub fn row(&self, i: usize) -> (row: &Vec<T>)
        requires
            i < self@.len(),
        ensures
            row@ == self@[i as int],
            row@.len() == self.width(),
    {
        proof {
            use_type_invariant(self);
        }
        &self.rows[i]
    }
}

/// Rows make a matrix where each is as long as it is to be, and it has these rows.
pub proof fn law_from_rows<T>(ncols: usize, rows: Vec<Vec<T>>, res: Option<Matrix<T>>)
    requires
        call_ensures(Matrix::<T>::from_rows, (ncols, rows), res),
    ensures
        res is Some <==> forall|i: int| 0 <= i < rows@.len() ==> (#[trigger] rows@[i])@.len() == ncols,
        res matches Some(m) ==> m.width() == ncols && m@.len() == rows@.len() && forall|i: int|
            0 <= i < rows@.len() ==> #[trigger] m@[i] == rows@[i]@,
{
    let views = rows@.map_values(|row: Vec<T>| row@);
    assert forall|i: int| 0 <= i < rows@.len() implies #[trigger] views[i] == rows@[i]@ by {}
    if rectangular(views, ncols as nat) {
        assert forall|i: int| 0 <= i < rows@.len() implies (#[trigger] rows@[i])@.len() == ncols by {
            assert(views[i].len() == ncols);
        }
    }
}

/// A matrix gives back the rows that it was made of, and their number and length.
pub proof fn law_new_is_read_back<T>(
    ncols: usize,
    rows: Vec<Vec<T>>,
    m: Matrix<T>,
    height: usize,
    width: usize,
    i: usize,
    row: &Vec<T>,
)
    requires
        i < rows@.len(),
        call_ensures(Matrix::<T>::new, (ncols, rows), m),
        call_ensures(Matrix::<T>::nrows, (&m,), height),
        call_ensures(Matrix::<T>::ncols, (&m,), width),
        call_ensures(Matrix::<T>::row, (&m, i), row),
    ensures
        height == rows@.len(),
        width == ncols,
        row@ == rows@[i as int]@,
{
    assert(m@[i as int] == rows@[i as int]@);
}

} // verus!
