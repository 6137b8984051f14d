//! A dense matrix of `i32` coordinates, held in an array of `ndarray`.

use ndarray::Array2;
use vstd::prelude::*;

verus! {

/// A dense matrix of `i32` cells.
///
/// The cells are held in an `ndarray::Array2<i32>`, of which Verus sees
/// nothing: [`matrix_rows`] and [`matrix_ncols`] name what the array holds,
/// and the functions that touch the array say what they do to the two.
#[verifier::external_body]
#[derive(Debug)]
pub struct Matrix {
    cells: Array2<i32>,
}

/// The rows of the array of a matrix, each the sequence of its cells.
pub uninterp spec fn matrix_rows(m: Matrix) -> Seq<Seq<i32>>;

/// The length of the second axis of the array of a matrix.
pub uninterp spec fn matrix_ncols(m: Matrix) -> usize;

/// An array of this shape can be built: neither axis is longer than
/// `isize::MAX`, and the cells take no more than `isize::MAX` bytes.
pub open spec fn shape_fits(rows: nat, cols: nat) -> bool {
    &&& rows <= isize::MAX
    &&& cols <= isize::MAX
    &&& rows * cols * 4 <= isize::MAX
}

/// A shape with fewer columns fits as well.
pub proof fn lemma_narrower_shape_fits(rows: nat, cols: nat, fewer: nat)
    requires
        shape_fits(rows, cols),
        fewer <= cols,
    ensures
        shape_fits(rows, fewer),
        rows * fewer <= rows * cols <= usize::MAX,
{
    assert(rows * fewer <= rows * cols) by (nonlinear_arith)
        requires
            fewer <= cols,
    ;
}

/// Builds an array of zeros.
///
/// Calls `Array2::zeros` of `ndarray` with the shape `(rows, cols)`. It
/// returns an array of that shape in which every cell is zero. It panics
/// when the product of the axis lengths that are not zero exceeds
/// `isize::MAX`, and the vector that it allocates panics when its cells take
/// more than `isize::MAX` bytes; `shape_fits` rules both out.
#[verifier::external_body]
fn array_zeros(rows: usize, cols: usize) -> (m: Matrix)
    requires
        shape_fits(rows as nat, cols as nat),
    ensures
        matrix_rows(m).len() == rows,
        matrix_ncols(m) == cols,
        forall|r: int| 0 <= r < rows ==> (#[trigger] matrix_rows(m)[r]).len() == cols,
        forall|r: int, c: int| 0 <= r < rows && 0 <= c < cols ==> #[trigger] matrix_rows(m)[r][c] == 0,
{
    Matrix { cells: Array2::zeros((rows, cols)) }
}

/// The length of the first axis, from `ArrayBase::nrows` of `ndarray`: the
/// number of rows of the array.
#[verifier::external_body]
fn array_nrows(m: &Matrix) -> (n: usize)
    ensures
        n == matrix_rows(*m).len(),
{
    m.cells.nrows()
}

/// The length of the second axis, from `ArrayBase::ncols` of `ndarray`.
#[verifier::external_body]
fn array_ncols(m: &Matrix) -> (n: usize)
    ensures
        n == matrix_ncols(*m),
{
    m.cells.ncols()
}

/// Reads a cell by indexing the array with `[r, c]`. The index panics when
/// it lies outside the array, which the bounds rule out.
#[verifier::external_body]
fn array_get(m: &Matrix, r: usize, c: usize) -> (v: i32)
    requires
        r < matrix_rows(*m).len(),
        c < matrix_ncols(*m),
        matrix_rows(*m)[r as int].len() == matrix_ncols(*m),
    ensures
        v == matrix_rows(*m)[r as int][c as int],
{
    m.cells[[r, c]]
}

/// Writes a cell by indexing the array with `[r, c]`: that cell changes,
/// and nothing else does. The index panics when it lies outside the array,
/// which the bounds rule out.
#[verifier::external_body]
fn array_set(m: &mut Matrix, r: usize, c: usize, v: i32)
    requires
        r < matrix_rows(*old(m)).len(),
        c < matrix_ncols(*old(m)),
        matrix_rows(*old(m))[r as int].len() == matrix_ncols(*old(m)),
    ensures
        matrix_ncols(*final(m)) == matrix_ncols(*old(m)),
        matrix_rows(*final(m)) == matrix_rows(*old(m)).update(
            r as int,
            matrix_rows(*old(m))[r as int].update(c as int, v),
        ),
{
    m.cells[[r, c]] = v;
}

/// Copies the array with its `clone`: the copy has the shape and the cells
/// of the array.
#[verifier::external_body]
fn array_clone(m: &Matrix) -> (copy: Matrix)
    ensures
        matrix_rows(copy) == matrix_rows(*m),
        matrix_ncols(copy) == matrix_ncols(*m),
{
    Matrix { cells: m.cells.clone() }
}

impl View for Matrix {
    type V = Seq<Seq<i32>>;

    /// The rows of the matrix, each a sequence of `ncols` cells.
    closed spec fn view(&self) -> Seq<Seq<i32>> {
        matrix_rows(*self)
    }
}

impl Clone for Matrix {
    fn clone(&self) -> (m: Matrix)
        ensures
            m.wf() == self.wf(),
            m.nrows() == self.nrows(),
            m.ncols() == self.ncols(),
            m@ == self@,
    {
        array_clone(self)
    }
}

impl Matrix {
    /// Every row has `ncols` cells, and an array of the shape of the matrix
    /// can be built.
    pub closed spec fn wf(&self) -> bool {
        &&& shape_fits(matrix_rows(*self).len(), matrix_ncols(*self) as nat)
        &&& forall|r: int|
            0 <= r < matrix_rows(*self).len() ==> (#[trigger] matrix_rows(*self)[r]).len() == matrix_ncols(*self)
    }

    /// Number of rows.
    pub closed spec fn spec_nrows(&self) -> usize {
        matrix_rows(*self).len() as usize
    }

    /// Number of columns.
    pub closed spec fn spec_ncols(&self) -> usize {
        matrix_ncols(*self)
    }

    /// The view has `nrows` rows of `ncols` cells each, and an array of
    /// that shape can be built.
    pub proof fn lemma_view_shape(&self)
        requires
            self.wf(),
        ensures
            self@.len() == self.spec_nrows(),
            forall|r: int| 0 <= r < self@.len() ==> (#[trigger] self@[r]).len() == self.spec_ncols(),
            self.spec_nrows() * self.spec_ncols() <= usize::MAX,
            shape_fits(self.spec_nrows() as nat, self.spec_ncols() as nat),
    {
        lemma_narrower_shape_fits(self.spec_nrows() as nat, self.spec_ncols() as nat, self.spec_ncols() as nat);
    }

    /// Number of rows.
    #[verifier::when_used_as_spec(spec_nrows)]
    pub fn nrows(&self) -> (n: usize)
        ensures
            n == self.spec_nrows(),
    {
        array_nrows(self)
    }

    /// Number of columns.
    #[verifier::when_used_as_spec(spec_ncols)]
    pub fn ncols(&self) -> (n: usize)
        ensures
            n == self.spec_ncols(),
    {
        array_ncols(self)
    }

    /// The cell in row `r` and column `c`.
    pub fn get(&self, r: usize, c: usize) -> (v: i32)
        requires
            self.wf(),
            r < self.nrows(),
            c < self.ncols(),
        ensures
            v == self@[r as int][c as int],
    {
        array_get(self, r, c)
    }

    /// Overwrites the cell in row `r` and column `c`.
    pub fn set(&mut self, r: usize, c: usize, v: i32)
        requires
            old(self).wf(),
            r < old(self).nrows(),
            c < old(self).ncols(),
        ensures
            final(self).wf(),
            final(self).nrows() == old(self).nrows(),
            final(self).ncols() == old(self).ncols(),
            final(self)@ == old(self)@.update(r as int, old(self)@[r as int].update(c as int, v)),
    {
        array_set(self, r, c, v);
    }

    /// Whether a matrix of this shape can be built.
    pub fn fits(rows: usize, cols: usize) -> (fits: bool)
        ensures
            fits == shape_fits(rows as nat, cols as nat),
    {
        let longest: usize = usize::MAX / 2;
        if rows > longest || cols > longest {
            return false;
        }
        match rows.checked_mul(cols) {
            None => false,
            Some(cells) => cells <= usize::MAX / 8,
        }
    }

    /// A matrix of the given shape filled with zeros, or `None` when a
    /// matrix of that shape cannot be built.
    pub fn zeros(rows: usize, cols: usize) -> (m: Option<Matrix>)
        ensures
            m is Some <==> shape_fits(rows as nat, cols as nat),
            m is Some ==> {
                &&& m->0.wf()
                &&& m->0.nrows() == rows
                &&& m->0.ncols() == cols
                &&& forall|r: int, c: int| 0 <= r < rows && 0 <= c < cols ==> #[trigger] m->0@[r][c] == 0
            },
    {
        if Self::fits(rows, cols) {
            Some(array_zeros(rows, cols))
        } else {
            None
        }
    }

    /// A copy of `len` cells of row `r`, starting at column `start`.
    pub fn row_slice(&self, r: usize, start: usize, len: usize) -> (cells: Vec<i32>)
        requires
            self.wf(),
            r < self.nrows(),
            start + len <= self.ncols(),
        ensures
            cells@ == self@[r as int].subrange(start as int, start + len),
    {
        let mut cells: Vec<i32> = Vec::new();
        let mut c: usize = 0;
        proof {
            self.lemma_view_shape();
        }
        while c < len
            invariant
                self.wf(),
                r < self.nrows(),
                start + len <= self.ncols(),
                self@[r as int].len() == self.ncols(),
                c <= len,
                cells@ == self@[r as int].subrange(start as int, start + c),
            decreases len - c,
        {
            let v = self.get(r, start + c);
            cells.push(v);
            c = c + 1;
            assert(cells@ =~= self@[r as int].subrange(start as int, start + c));
        }
        cells
    }

    /// A copy of row `r`.
    pub fn row(&self, r: usize) -> (cells: Vec<i32>)
        requires
            self.wf(),
            r < self.nrows(),
        ensures
            cells@ == self@[r as int],
    {
        proof {
            self.lemma_view_shape();
        }
        let cells = self.row_slice(r, 0, self.ncols());
        assert(cells@ =~= self@[r as int]);
        cells
    }

    /// Overwrites row `r` with `cells`.
    pub fn set_row(&mut self, r: usize, cells: &Vec<i32>)
        requires
            old(self).wf(),
            r < old(self).nrows(),
            cells.len() == old(self).ncols(),
        ensures
            final(self).wf(),
            final(self).nrows() == old(self).nrows(),
            final(self).ncols() == old(self).ncols(),
            final(self)@ == old(self)@.update(r as int, cells@),
    {
        let ghost before = self@;
        let cols = self.ncols();
        let mut c: usize = 0;
        proof {
            self.lemma_view_shape();
            assert(cells@.take(0) + before[r as int].skip(0) =~= before[r as int]);
            assert(before.update(r as int, before[r as int]) =~= before);
        }
        while c < cols
            invariant
                self.wf(),
                self.nrows() == old(self).nrows(),
                self.ncols() == old(self).ncols(),
                cols == self.ncols(),
                cells.len() == cols,
                r < self.nrows(),
                c <= cols,
                before == old(self)@,
                before.len() == self.nrows(),
                before[r as int].len() == cols,
                self@ == before.update(r as int, cells@.take(c as int) + before[r as int].skip(c as int)),
            decreases cols - c,
        {
            let ghost current = self@;
            self.set(r, c, cells[c]);
            proof {
                let row = cells@.take(c as int) + before[r as int].skip(c as int);
                let next = cells@.take(c + 1) + before[r as int].skip(c + 1);
                assert(current[r as int] == row);
                assert(row.update(c as int, cells[c as int]) =~= next);
                assert(self@ =~= before.update(r as int, next));
            }
            c = c + 1;
        }
        proof {
            assert(cells@.take(cols as int) + before[r as int].skip(cols as int) =~= cells@);
        }
    }

    /// The matrix with the given rows, or `None` when the rows differ in
    /// length or a matrix of that shape cannot be built. Without rows the
    /// matrix has no columns.
    pub fn from_rows(rows: &Vec<Vec<i32>>) -> (m: Option<Matrix>)
        ensures
            m is Some <==> {
                &&& forall|r: int| 0 <= r < rows.len() ==> (#[trigger] rows[r]).len() == rows[0].len()
                &&& rows.len() > 0 ==> shape_fits(rows.len() as nat, rows[0].len() as nat)
            },
            m is Some ==> {
                &&& m->0.wf()
                &&& m->0.nrows() == rows.len()
                &&& rows.len() > 0 ==> m->0.ncols() == rows[0].len()
                &&& rows.len() == 0 ==> m->0.ncols() == 0
                &&& m->0@ == rows.deep_view()
            },
    {
        let n = rows.len();
        let cols = if n == 0 {
            0
        } else {
            rows[0].len()
        };
        let mut m = match Self::zeros(n, cols) {
            None => {
                return None;
            },
            Some(m) => m,
        };
        let mut r: usize = 0;
        proof {
            m.lemma_view_shape();
        }
        while r < n
            invariant
                n == rows.len(),
                n > 0 ==> cols == rows[0].len(),
                m.wf(),
                m.nrows() == n,
                m.ncols() == cols,
                m@.len() == n,
                r <= n,
                forall|i: int| 0 <= i < r ==> (#[trigger] rows[i]).len() == cols,
                forall|i: int| 0 <= i < r ==> #[trigger] m@[i] == rows[i]@,
            decreases n - r,
        {
            if rows[r].len() != cols {
                return None;
            }
            m.set_row(r, &rows[r]);
            r = r + 1;
        }
        proof {
            assert forall|i: int| 0 <= i < n implies m@[i] == #[trigger] rows.deep_view()[i] by {
                assert(rows.deep_view()[i] =~= rows[i]@);
            }
            assert(m@ =~= rows.deep_view());
        }
        Some(m)
    }

    /// A copy of `len` columns of the matrix, starting at column `start`.
    pub fn columns(&self, start: usize, len: usize) -> (part: Matrix)
        requires
            self.wf(),
            start + len <= self.ncols(),
        ensures
            part.wf(),
            part.nrows() == self.nrows(),
            part.ncols() == len,
            forall|r: int|
                0 <= r < self.nrows() ==> #[trigger] part@[r] == self@[r].subrange(start as int, start + len),
    {
        let n = self.nrows();
        proof {
            self.lemma_view_shape();
            lemma_narrower_shape_fits(n as nat, self.ncols() as nat, len as nat);
        }
        let mut part = Matrix::zeros(n, len).unwrap();
        let mut r: usize = 0;
        while r < n
            invariant
                self.wf(),
                start + len <= self.ncols(),
                n == self.nrows(),
                part.wf(),
                part.nrows() == n,
                part.ncols() == len,
                r <= n,
                forall|i: int| 0 <= i < r ==> #[trigger] part@[i] == self@[i].subrange(start as int, start + len),
            decreases n - r,
        {
            let cells = self.row_slice(r, start, len);
            part.set_row(r, &cells);
            r = r + 1;
        }
        part
    }
}

} // verus!
