//! The `ndarray` containers that carry the data, and what is taken on trust about them.
//!
//! Numbers are fixed-point: every cell is an `i32` count of some unit that the caller
//! chooses (thousandths, say). Nothing here depends on the unit.

use vstd::prelude::*;
use crate::error::ForestError;

verus! {

/// A table of fixed-point numbers, one row per observation, held in an
/// `ndarray::Array2<i32>`.
#[verifier::external_body]
#[derive(Debug)]
pub struct Matrix {
    inner: ndarray::Array2<i32>,
}

/// A column of fixed-point numbers, held in an `ndarray::Array1<i32>`.
#[verifier::external_body]
#[derive(Debug)]
pub struct Vector {
    inner: ndarray::Array1<i32>,
}

/// The rows of a matrix, top to bottom, each row left to right.
pub uninterp spec fn matrix_cells(m: Matrix) -> Seq<Seq<i32>>;

/// The number of columns of a matrix, which it has even without rows.
pub uninterp spec fn matrix_width(m: Matrix) -> nat;

/// The entries of a vector, first to last.
pub uninterp spec fn vector_items(v: Vector) -> Seq<i32>;

impl View for Matrix {
    type V = Seq<Seq<i32>>;

    open spec fn view(&self) -> Seq<Seq<i32>> {
        matrix_cells(*self)
    }
}

impl View for Vector {
    type V = Seq<i32>;

    open spec fn view(&self) -> Seq<i32> {
        vector_items(*self)
    }
}

/// Every row of `cells` has exactly `width` entries.
pub open spec fn rectangular(cells: Seq<Seq<i32>>, width: int) -> bool {
    forall|r: int| 0 <= r < cells.len() ==> (#[trigger] cells[r]).len() == width
}

/// The rows of `cells` named by `picks`, in the order of `picks`.
pub open spec fn pick_rows(cells: Seq<Seq<i32>>, picks: Seq<usize>) -> Seq<Seq<i32>> {
    Seq::new(picks.len(), |k: int| cells[picks[k] as int])
}

/// The entries of `items` named by `picks`, in the order of `picks`.
pub open spec fn pick_items(items: Seq<i32>, picks: Seq<usize>) -> Seq<i32> {
    Seq::new(picks.len(), |k: int| items[picks[k] as int])
}

/// The table whose rows are those of `cells`, each cut down to the entries that
/// `picks` names, in the order of `picks`.
pub open spec fn pick_cols(cells: Seq<Seq<i32>>, picks: Seq<usize>) -> Seq<Seq<i32>> {
    Seq::new(cells.len(), |r: int| pick_items(cells[r], picks))
}

/// Every index in `picks` is below `bound`.
pub open spec fn picks_below(picks: Seq<usize>, bound: int) -> bool {
    forall|k: int| 0 <= k < picks.len() ==> (#[trigger] picks[k]) < bound
}

/// `ndarray` accepts a two-dimensional shape when the product of its non-zero
/// axis lengths is at most `isize::MAX`.
pub open spec fn shape_fits(rows: int, cols: int) -> bool {
    (if rows == 0 { 1 } else { rows }) * (if cols == 0 { 1 } else { cols }) <= isize::MAX
}

/// `cells` is the table of `rows` rows and `cols` columns whose cells, read row by
/// row, are the entries of `data`.
pub open spec fn row_major(cells: Seq<Seq<i32>>, rows: int, cols: int, data: Seq<i32>) -> bool {
    &&& cells.len() == rows
    &&& rectangular(cells, cols)
    &&& forall|r: int, c: int|
        0 <= r < rows && 0 <= c < cols ==> (#[trigger] cells[r][c]) == data[r * cols + c]
}

/// `Array2::from_shape_vec` with the shape `(rows, cols)` in row-major order. It
/// succeeds exactly when the shape is one `ndarray` accepts and has as many cells
/// as `data` has entries; cell `(r, c)` is then entry `r * cols + c` of `data`.
#[verifier::external_body]
fn matrix_from_flat(rows: usize, cols: usize, data: Vec<i32>) -> (res: Option<Matrix>)
    ensures
        res is Some <==> (rows * cols == data@.len() && shape_fits(rows as int, cols as int)),
        res matches Some(m) ==> row_major(matrix_cells(m), rows as int, cols as int, data@),
        res matches Some(m) ==> matrix_width(m) == cols,
{
    match ndarray::Array2::from_shape_vec((rows, cols), data) {
        Ok(inner) => Some(Matrix { inner }),
        Err(_) => None,
    }
}

/// `ArrayBase::nrows`: the number of rows.
#[verifier::external_body]
fn matrix_nrows(m: &Matrix) -> (n: usize)
    ensures
        n == matrix_cells(*m).len(),
{
    m.inner.nrows()
}

/// `ArrayBase::ncols`: the number of columns, which is the length of every row.
#[verifier::external_body]
fn matrix_ncols(m: &Matrix) -> (n: usize)
    ensures
        n == matrix_width(*m),
        rectangular(matrix_cells(*m), n as int),
{
    m.inner.ncols()
}

/// Indexing an `Array2` by `[r, c]`, which reads row `r`, column `c`.
#[verifier::external_body]
fn matrix_get(m: &Matrix, r: usize, c: usize) -> (value: i32)
    requires
        r < matrix_cells(*m).len(),
        c < matrix_cells(*m)[r as int].len(),
    ensures
        value == matrix_cells(*m)[r as int][c as int],
{
    m.inner[[r, c]]
}

/// `ArrayBase::row` followed by `to_owned`: a copy of row `r`.
#[verifier::external_body]
fn matrix_row(m: &Matrix, r: usize) -> (row: Vector)
    requires
        r < matrix_cells(*m).len(),
    ensures
        vector_items(row) == matrix_cells(*m)[r as int],
{
    Vector { inner: m.inner.row(r).to_owned() }
}

/// `ArrayBase::select` along axis 0: a new matrix made of the rows that `picks`
/// names, in that order. The call is kept to selections no longer than the matrix.
#[verifier::external_body]
fn matrix_select_rows(m: &Matrix, picks: &Vec<usize>) -> (res: Matrix)
    requires
        picks@.len() <= matrix_cells(*m).len(),
        picks_below(picks@, matrix_cells(*m).len() as int),
    ensures
        matrix_cells(res) == pick_rows(matrix_cells(*m), picks@),
        matrix_width(res) == matrix_width(*m),
{
    Matrix { inner: m.inner.select(ndarray::Axis(0), picks.as_slice()) }
}

/// `ArrayBase::select` along axis 1: a new matrix with as many rows, each made of
/// the entries that `picks` names, in that order. The call is kept to selections no
/// longer than a row.
#[verifier::external_body]
fn matrix_select_cols(m: &Matrix, picks: &Vec<usize>) -> (res: Matrix)
    requires
        picks@.len() <= matrix_width(*m),
        picks_below(picks@, matrix_width(*m) as int),
    ensures
        matrix_cells(res) == pick_cols(matrix_cells(*m), picks@),
        matrix_width(res) == picks@.len(),
{
    Matrix { inner: m.inner.select(ndarray::Axis(1), picks.as_slice()) }
}

/// `Array1::from_vec`: the vector with the entries of `data`.
#[verifier::external_body]
fn vector_from_vec(data: Vec<i32>) -> (v: Vector)
    ensures
        vector_items(v) == data@,
{
    Vector { inner: ndarray::Array1::from_vec(data) }
}

/// `ArrayBase::len` of a one-dimensional array: the number of entries.
#[verifier::external_body]
fn vector_len(v: &Vector) -> (n: usize)
    ensures
        n == vector_items(*v).len(),
{
    v.inner.len()
}

/// Indexing an `Array1` by `i`, which reads entry `i`.
#[verifier::external_body]
fn vector_get(v: &Vector, i: usize) -> (value: i32)
    requires
        i < vector_items(*v).len(),
    ensures
        value == vector_items(*v)[i as int],
{
    v.inner[i]
}

/// `ArrayBase::select` along the only axis: a new vector made of the entries that
/// `picks` names, in that order. The call is kept to selections no longer than
/// the vector.
#[verifier::external_body]
fn vector_select(v: &Vector, picks: &Vec<usize>) -> (res: Vector)
    requires
        picks@.len() <= vector_items(*v).len(),
        picks_below(picks@, vector_items(*v).len() as int),
    ensures
        vector_items(res) == pick_items(vector_items(*v), picks@),
{
    Vector { inner: v.inner.select(ndarray::Axis(0), picks.as_slice()) }
}

impl Matrix {
    /// The number of columns.
    pub open spec fn width(self) -> nat {
        matrix_width(self)
    }

    /// Builds a matrix of `rows` rows and `cols` columns from its cells in row-major
    /// order. The input is refused when the cell count is not `rows * cols` or the
    /// shape is too large for the container.
    pub fn from_shape_vec(rows: usize, cols: usize, data: Vec<i32>) -> (res: Result<
        Matrix,
        ForestError,
    >)
        ensures
            res is Ok <==> (rows * cols == data@.len() && shape_fits(rows as int, cols as int)),
            res is Err ==> res == Err::<Matrix, ForestError>(ForestError::InvalidInput),
            res matches Ok(m) ==> row_major(m@, rows as int, cols as int, data@) && m.width()
                == cols,
    {
        match matrix_from_flat(rows, cols, data) {
            Some(m) => Ok(m),
            None => Err(ForestError::InvalidInput),
        }
    }

    /// The number of rows.
    pub fn nrows(&self) -> (n: usize)
        ensures
            n == self@.len(),
    {
        matrix_nrows(self)
    }

    /// The number of columns; every row has this many entries.
    pub fn ncols(&self) -> (n: usize)
        ensures
            n == self.width(),
            rectangular(self@, n as int),
    {
        matrix_ncols(self)
    }

    /// The cell in row `r`, column `c`, if there is one.
    pub fn get(&self, r: usize, c: usize) -> (cell: Option<i32>)
        ensures
            cell == if r < self@.len() && c < self@[r as int].len() {
                Some(self@[r as int][c as int])
            } else {
                None
            },
    {
        if r < matrix_nrows(self) && c < matrix_ncols(self) {
            Some(matrix_get(self, r, c))
        } else {
            None
        }
    }

    /// The cell in row `r`, column `c`.
    pub fn at(&self, r: usize, c: usize) -> (cell: i32)
        requires
            r < self@.len(),
            c < self@[r as int].len(),
        ensures
            cell == self@[r as int][c as int],
    {
        matrix_get(self, r, c)
    }

    /// A copy of row `r`.
    pub fn row(&self, r: usize) -> (row: Vector)
        requires
            r < self@.len(),
        ensures
            row@ == self@[r as int],
    {
        matrix_row(self, r)
    }

    /// The rows that `picks` names, in that order.
    pub fn select_rows(&self, picks: &Vec<usize>) -> (res: Matrix)
        requires
            picks@.len() <= self@.len(),
            picks_below(picks@, self@.len() as int),
        ensures
            res@ == pick_rows(self@, picks@),
            res.width() == self.width(),
    {
        matrix_select_rows(self, picks)
    }

    /// The columns that `picks` names, in that order.
    pub fn select_cols(&self, picks: &Vec<usize>) -> (res: Matrix)
        requires
            picks@.len() <= self.width(),
            picks_below(picks@, self.width() as int),
        ensures
            res@ == pick_cols(self@, picks@),
            res.width() == picks@.len(),
    {
        matrix_select_cols(self, picks)
    }
}

impl Vector {
    /// The vector with the entries of `data`.
    pub fn from_vec(data: Vec<i32>) -> (v: Vector)
        ensures
            v@ == data@,
    {
        vector_from_vec(data)
    }

    /// The number of entries.
    pub fn len(&self) -> (n: usize)
        ensures
            n == self@.len(),
    {
        vector_len(self)
    }

    /// Entry `i`, if there is one.
    pub fn get(&self, i: usize) -> (item: Option<i32>)
        ensures
            item == if i < self@.len() {
                Some(self@[i as int])
            } else {
                None
            },
    {
        if i < vector_len(self) {
            Some(vector_get(self, i))
        } else {
            None
        }
    }

    /// Entry `i`.
    pub fn at(&self, i: usize) -> (item: i32)
        requires
            i < self@.len(),
        ensures
            item == self@[i as int],
    {
        vector_get(self, i)
    }

    /// The entries that `picks` names, in that order.
    pub fn select(&self, picks: &Vec<usize>) -> (res: Vector)
        requires
            picks@.len() <= self@.len(),
            picks_below(picks@, self@.len() as int),
        ensures
            res@ == pick_items(self@, picks@),
    {
        vector_select(self, picks)
    }

    /// The entries as a `Vec`.
    pub fn to_vec(&self) -> (data: Vec<i32>)
        ensures
            data@ == self@,
    {
        let n: usize = vector_len(self);
        let mut data: Vec<i32> = Vec::new();
        let mut i: usize = 0;
        while i < n
            invariant
                n == self@.len(),
                i <= n,
                data@ == self@.take(i as int),
            decreases n - i,
        {
            data.push(vector_get(self, i));
            i += 1;
        }
        data
    }
}

} // verus!
