//! Dense matrices held in one contiguous row-major buffer, and a transposed view
//! that reads the same buffer through swapped strides without copying it.
//!
//! The element type is a parameter: the numeric work on cells is handed in as
//! closures, so that every traversal and every strided address is checked here
//! whatever the cells hold.

use vstd::arithmetic::div_mod::lemma_fundamental_div_mod_converse;
use vstd::prelude::*;

verus! {

/// The buffer offset of cell `(i, j)` under the strides `(rs, cs)`.
pub open spec fn address(i: int, j: int, rs: int, cs: int) -> int {
    i * rs + j * cs
}

/// Cell `(i, j)` of a `cols`-wide grid sits at flat row-major position `i * cols + j`,
/// and that position gives `(i, j)` back by division and remainder.
pub proof fn lemma_flat_position(i: int, j: int, rows: int, cols: int)
    requires
        0 <= i < rows,
        0 <= j < cols,
    ensures
        0 <= i * cols + j < rows * cols,
        (i * cols + j) / cols == i,
        (i * cols + j) % cols == j,
{
    assert(0 <= i * cols + j < rows * cols) by (nonlinear_arith)
        requires
            0 <= i < rows,
            0 <= j < cols,
    ;
    lemma_fundamental_div_mod_converse(i * cols + j, cols, i, j);
}

/// Every flat position below `rows * cols` is the position of the cell
/// `(k / cols, k % cols)`.
pub proof fn lemma_flat_cell(k: int, rows: int, cols: int)
    requires
        0 <= k < rows * cols,
        rows >= 0,
    ensures
        cols > 0,
        0 <= k / cols < rows,
        0 <= k % cols < cols,
        k == (k / cols) * cols + k % cols,
{
    assert(cols > 0) by (nonlinear_arith)
        requires
            0 <= k < rows * cols,
            rows >= 0,
    ;
    assert(k == (k / cols) * cols + k % cols && 0 <= k % cols < cols && k / cols >= 0)
        by (nonlinear_arith)
        requires
            cols > 0,
            k >= 0,
    ;
    assert(k / cols < rows) by (nonlinear_arith)
        requires
            cols > 0,
            k < rows * cols,
            k == (k / cols) * cols + k % cols,
            0 <= k % cols,
    ;
}

/// Read access to a matrix: a shape, a buffer and the strides that address it.
///
/// An owning [`Mat`] and a [`Transpose`] view both offer it, so that an algorithm
/// written against it takes either with no branch on which one it got.
pub trait MatBase<T>: Sized {
    /// The number of rows.
    spec fn rows_spec(&self) -> nat;

    /// The number of columns.
    spec fn cols_spec(&self) -> nat;

    /// The step in the buffer from one row to the next.
    spec fn row_stride_spec(&self) -> int;

    /// The step in the buffer from one column to the next.
    spec fn col_stride_spec(&self) -> int;

    /// The buffer that the cells are read from.
    spec fn data_spec(&self) -> Seq<T>;

    /// The shape and the strides fit the buffer.
    spec fn wf(&self) -> bool;

    /// Every cell lies inside the buffer at the address that the strides give.
    proof fn lemma_layout(&self)
        requires
            self.wf(),
        ensures
            self.row_stride_spec() >= 0,
            self.col_stride_spec() >= 0,
            forall|i: int, j: int|
                0 <= i < self.rows_spec() && 0 <= j < self.cols_spec() ==> 0 <= #[trigger] address(
                    i,
                    j,
                    self.row_stride_spec(),
                    self.col_stride_spec(),
                ) < self.data_spec().len(),
    ;

    /// The buffer.
    fn data(&self) -> (r: &Vec<T>)
        ensures
            r@ == self.data_spec(),
    ;

    /// `(rows, columns)`.
    fn shape(&self) -> (r: (usize, usize))
        ensures
            r.0 == self.rows_spec(),
            r.1 == self.cols_spec(),
    ;

    /// The row stride, as a signed offset.
    fn row_stride(&self) -> (r: isize)
        requires
            self.wf(),
        ensures
            r == self.row_stride_spec(),
    ;

    /// The column stride, as a signed offset.
    fn col_stride(&self) -> (r: isize)
        requires
            self.wf(),
        ensures
            r == self.col_stride_spec(),
    ;

    /// Reads cell `(i, j)`.
    fn get(&self, i: usize, j: usize) -> (r: &T)
        requires
            self.wf(),
            i < self.rows_spec(),
            j < self.cols_spec(),
        ensures
            *r == self.data_spec()[address(
                i as int,
                j as int,
                self.row_stride_spec(),
                self.col_stride_spec(),
            )],
    ;

    /// The number of rows.
    fn row(&self) -> (r: usize)
        ensures
            r == self.rows_spec(),
    {
        self.shape().0
    }

    /// The number of columns.
    fn col(&self) -> (r: usize)
        ensures
            r == self.cols_spec(),
    {
        self.shape().1
    }

    /// The cell at flat row-major position `i`.
    fn to_index(&self, i: usize) -> (r: (usize, usize))
        requires
            self.cols_spec() > 0,
        ensures
            r.0 == i as int / self.cols_spec() as int,
            r.1 == i as int % self.cols_spec() as int,
    {
        let c = self.col();
        (i / c, i % c)
    }
}

/// The value of cell `(i, j)` of `m`: the buffer read at the strided address.
pub open spec fn cell<T, M: MatBase<T>>(m: &M, i: int, j: int) -> T {
    m.data_spec()[address(i, j, m.row_stride_spec(), m.col_stride_spec())]
}

/// The two shapes are equal.
pub open spec fn same_shape<T, A: MatBase<T>, B: MatBase<T>>(a: &A, b: &B) -> bool {
    a.rows_spec() == b.rows_spec() && a.cols_spec() == b.cols_spec()
}

/// The cells of `m` read row by row, whatever its strides.
pub open spec fn cells_in_order<T, M: MatBase<T>>(m: &M) -> Seq<T> {
    Seq::new(
        m.rows_spec() * m.cols_spec(),
        |k: int| cell(m, k / m.cols_spec() as int, k % m.cols_spec() as int),
    )
}

/// A matrix that owns its cells, stored row by row.
#[derive(Clone, Debug)]
pub struct Mat<T> {
    buf: Vec<T>,
    row: usize,
    col: usize,
}

/// A transposed, read-only view of a [`Mat`]: rows and columns swap, the buffer
/// is shared and never copied.
#[derive(Clone, Copy, Debug)]
pub struct Transpose<'a, T> {
    view: &'a Mat<T>,
}

impl<T> MatBase<T> for Mat<T> {
    closed spec fn rows_spec(&self) -> nat {
        self.row as nat
    }

    closed spec fn cols_spec(&self) -> nat {
        self.col as nat
    }

    closed spec fn row_stride_spec(&self) -> int {
        self.col as int
    }

    closed spec fn col_stride_spec(&self) -> int {
        1
    }

    closed spec fn data_spec(&self) -> Seq<T> {
        self.buf@
    }

    closed spec fn wf(&self) -> bool {
        &&& self.buf.len() == self.row * self.col
        &&& self.col <= isize::MAX
    }

    proof fn lemma_layout(&self) {
        assert(self.rows_spec() == self.row && self.cols_spec() == self.col);
        assert(self.row_stride_spec() == self.col && self.col_stride_spec() == 1);
        assert(self.data_spec() == self.buf@);
        assert forall|i: int, j: int|
            0 <= i < self.row && 0 <= j < self.col implies 0 <= #[trigger] address(
                i,
                j,
                self.col as int,
                1,
            ) < self.buf.len() by {
            lemma_flat_position(i, j, self.row as int, self.col as int);
        }
    }

    fn data(&self) -> (r: &Vec<T>) {
        &self.buf
    }

    fn shape(&self) -> (r: (usize, usize)) {
        assert(self.cols_spec() == self.col);
        assert(self.rows_spec() == self.row);
        (self.row, self.col)
    }

    fn row_stride(&self) -> (r: isize) {
        self.col as isize
    }

    fn col_stride(&self) -> (r: isize) {
        1
    }

    fn get(&self, i: usize, j: usize) -> (r: &T) {
        proof {
            lemma_flat_position(i as int, j as int, self.row as int, self.col as int);
        }
        &self.buf[i * self.col + j]
    }
}

impl<'a, T> Transpose<'a, T> {
    /// The matrix that this view reads.
    pub closed spec fn source(&self) -> Mat<T> {
        *self.view
    }

    /// Transposing the view again gives back the matrix it reads.
    pub fn transposed(&self) -> (r: &'a Mat<T>)
        ensures
            *r == self.source(),
    {
        self.view
    }
}

impl<'a, T> MatBase<T> for Transpose<'a, T> {
    closed spec fn rows_spec(&self) -> nat {
        self.view.col as nat
    }

    closed spec fn cols_spec(&self) -> nat {
        self.view.row as nat
    }

    closed spec fn row_stride_spec(&self) -> int {
        1
    }

    closed spec fn col_stride_spec(&self) -> int {
        self.view.col as int
    }

    closed spec fn data_spec(&self) -> Seq<T> {
        self.view.buf@
    }

    closed spec fn wf(&self) -> bool {
        self.view.wf()
    }

    proof fn lemma_layout(&self) {
        self.view.lemma_layout();
        assert forall|i: int, j: int|
            0 <= i < self.view.col && 0 <= j < self.view.row implies 0 <= #[trigger] address(
                i,
                j,
                1,
                self.view.col as int,
            ) < self.view.buf.len() by {
            lemma_flat_position(j, i, self.view.row as int, self.view.col as int);
            assert(address(i, j, 1, self.view.col as int) == j * self.view.col + i)
                by (nonlinear_arith);
        }
    }

    fn data(&self) -> (r: &Vec<T>) {
        &self.view.buf
    }

    fn shape(&self) -> (r: (usize, usize)) {
        assert(self.cols_spec() == self.view.row);
        assert(self.rows_spec() == self.view.col);
        (self.view.col, self.view.row)
    }

    fn row_stride(&self) -> (r: isize) {
        1
    }

    fn col_stride(&self) -> (r: isize) {
        self.view.col as isize
    }

    fn get(&self, i: usize, j: usize) -> (r: &T) {
        let r = self.view.get(j, i);
        assert(address(i as int, j as int, 1, self.view.col as int) == address(
            j as int,
            i as int,
            self.view.col as int,
            1,
        )) by (nonlinear_arith);
        r
    }
}

/// The flat row-major position of cell `(i, j)` in a grid `cols` wide.
pub open spec fn flat(i: int, j: int, cols: int) -> int {
    i * cols + j
}

impl<T> Mat<T> {
    /// An owning matrix lies row by row in its buffer: its strides are
    /// `(cols, 1)` and its buffer holds `rows * cols` cells.
    pub proof fn lemma_row_major(&self)
        requires
            self.wf(),
        ensures
            self.row_stride_spec() == self.cols_spec(),
            self.col_stride_spec() == 1,
            self.data_spec().len() == self.rows_spec() * self.cols_spec(),
            cells_in_order(self) == self.data_spec(),
    {
        assert forall|k: int| 0 <= k < self.data_spec().len() implies #[trigger] cells_in_order(
            self,
        )[k] == self.data_spec()[k] by {
            lemma_flat_cell(k, self.row as int, self.col as int);
            assert(address(k / self.col as int, k % self.col as int, self.col as int, 1) == k);
        }
        assert(cells_in_order(self) =~= self.data_spec());
    }

    /// Takes `buf` as the cells of a `row` by `col` matrix, row by row.
    pub fn from_vec(shape: (usize, usize), buf: Vec<T>) -> (r: Mat<T>)
        requires
            buf.len() == shape.0 * shape.1,
            shape.1 <= isize::MAX,
        ensures
            r.wf(),
            r.rows_spec() == shape.0,
            r.cols_spec() == shape.1,
            r.data_spec() == buf@,
            r.row_stride_spec() == shape.1,
            r.col_stride_spec() == 1,
    {
        let (row, col) = shape;
        Mat { buf, row, col }
    }

    /// A view of this matrix with rows and columns swapped, over the same buffer.
    pub fn transposed(&self) -> (r: Transpose<'_, T>)
        ensures
            r.source() == *self,
            r.wf() == self.wf(),
            r.rows_spec() == self.cols_spec(),
            r.cols_spec() == self.rows_spec(),
            r.data_spec() == self.data_spec(),
            r.row_stride_spec() == 1,
            r.col_stride_spec() == self.cols_spec(),
            self.wf() ==> r.row_stride_spec() == self.col_stride_spec() && r.col_stride_spec()
                == self.row_stride_spec(),
    {
        Transpose { view: self }
    }

    /// Overwrites cell `(i, j)`.
    pub fn set(&mut self, i: usize, j: usize, value: T)
        requires
            old(self).wf(),
            i < old(self).rows_spec(),
            j < old(self).cols_spec(),
        ensures
            final(self).wf(),
            same_shape(final(self), old(self)),
            forall|a: int, b: int|
                0 <= a < old(self).rows_spec() && 0 <= b < old(self).cols_spec() ==> #[trigger] cell(
                    final(self),
                    a,
                    b,
                ) == if a == i && b == j {
                    value
                } else {
                    cell(old(self), a, b)
                },
    {
        proof {
            lemma_flat_position(i as int, j as int, self.row as int, self.col as int);
        }
        let k = i * self.col + j;
        self.buf.set(k, value);
        proof {
            assert forall|a: int, b: int|
                0 <= a < self.row && 0 <= b < self.col implies #[trigger] cell(self, a, b) == if a
                    == i && b == j {
                    value
                } else {
                    cell(old(self), a, b)
                } by {
                lemma_flat_position(a, b, self.row as int, self.col as int);
                if a != i {
                    lemma_flat_position(i as int, j as int, self.row as int, self.col as int);
                }
            }
        }
    }
}

impl<T: Copy> Mat<T> {
    /// A `row` by `col` matrix with every cell set to `value`.
    pub fn filled(shape: (usize, usize), value: T) -> (r: Mat<T>)
        requires
            shape.0 * shape.1 <= usize::MAX,
            shape.1 <= isize::MAX,
        ensures
            r.wf(),
            r.rows_spec() == shape.0,
            r.cols_spec() == shape.1,
            forall|i: int, j: int|
                0 <= i < shape.0 && 0 <= j < shape.1 ==> #[trigger] cell(&r, i, j) == value,
    {
        let (row, col) = shape;
        let n = row * col;
        let mut buf: Vec<T> = Vec::with_capacity(n);
        while buf.len() < n
            invariant
                buf.len() <= n,
                forall|q: int| 0 <= q < buf.len() ==> buf@[q] == value,
            decreases n - buf.len(),
        {
            buf.push(value);
        }
        let r = Mat { buf, row, col };
        proof {
            assert forall|i: int, j: int| 0 <= i < row && 0 <= j < col implies #[trigger] cell(
                &r,
                i,
                j,
            ) == value by {
                lemma_flat_position(i, j, row as int, col as int);
            }
        }
        r
    }

    /// Sets every cell to `value`.
    pub fn fill(&mut self, value: T)
        requires
            old(self).wf(),
        ensures
            final(self).wf(),
            same_shape(final(self), old(self)),
            forall|i: int, j: int|
                0 <= i < old(self).rows_spec() && 0 <= j < old(self).cols_spec() ==> #[trigger] cell(
                    final(self),
                    i,
                    j,
                ) == value,
    {
        let n = self.buf.len();
        let mut k: usize = 0;
        while k < n
            invariant
                self.row == old(self).row,
                self.col == old(self).col,
                self.buf.len() == n,
                n == self.row * self.col,
                self.col <= isize::MAX,
                k <= n,
                forall|q: int| 0 <= q < k ==> self.buf@[q] == value,
            decreases n - k,
        {
            self.buf.set(k, value);
            k = k + 1;
        }
        proof {
            assert forall|i: int, j: int| 0 <= i < self.row && 0 <= j < self.col implies #[trigger] cell(
                self,
                i,
                j,
            ) == value by {
                lemma_flat_position(i, j, self.row as int, self.col as int);
            }
        }
    }
}

/// Position `p` of `s` leads a left-to-right scan in which `keep(best, x)` says
/// whether the best so far stays ahead of `x`: the scan starts at position 0, and
/// `p` took the lead from the leader `q` before it, which had stayed ahead of
/// every position between them.
pub open spec fn scan_leader<T, F: Fn(T, T) -> bool>(s: Seq<T>, keep: F, p: int) -> bool
    decreases p,
{
    if p <= 0 {
        p == 0
    } else {
        exists|q: int|
            0 <= q < p && scan_leader(s, keep, q) && keep.ensures((#[trigger] s[q], s[p]), false)
                && forall|k: int| q < k < p ==> keep.ensures((s[q], #[trigger] s[k]), true)
    }
}

/// [`scan_leader`] unfolded by one step, for a caller that holds `keep` as a
/// closure of its own.
pub proof fn lemma_scan_leader_unfold<T, F: Fn(T, T) -> bool>(s: Seq<T>, keep: F, p: int)
    ensures
        scan_leader(s, keep, p) == if p <= 0 {
            p == 0
        } else {
            exists|q: int|
                0 <= q < p && scan_leader(s, keep, q) && keep.ensures((#[trigger] s[q], s[p]), false)
                    && forall|k: int| q < k < p ==> keep.ensures((s[q], #[trigger] s[k]), true)
        },
{
}

/// Where `keep(best, x)` answers `ge(best, x)` for a total preorder `ge`, every
/// position before a leader of the scan is strictly below it, so the leader is
/// the first of the greatest positions it has seen.
pub proof fn lemma_first_greatest<T, F: Fn(T, T) -> bool>(
    s: Seq<T>,
    keep: F,
    ge: spec_fn(T, T) -> bool,
    p: int,
)
    requires
        0 <= p < s.len(),
        scan_leader(s, keep, p),
        forall|x: T, y: T, b: bool| keep.ensures((x, y), b) ==> b == ge(x, y),
        forall|x: T, y: T, z: T| #[trigger] ge(x, y) && #[trigger] ge(y, z) ==> ge(x, z),
        forall|x: T, y: T| #[trigger] ge(x, y) || ge(y, x),
    ensures
        forall|q: int| 0 <= q < p ==> !ge(#[trigger] s[q], s[p]),
    decreases p,
{
    lemma_scan_leader_unfold(s, keep, p);
    if p > 0 {
        let q0 = choose|q: int|
            0 <= q < p && scan_leader(s, keep, q) && keep.ensures((#[trigger] s[q], s[p]), false)
                && forall|k: int| q < k < p ==> keep.ensures((s[q], #[trigger] s[k]), true);
        lemma_first_greatest(s, keep, ge, q0);
        assert(!ge(s[q0], s[p]));
        assert forall|q: int| 0 <= q < p implies !ge(#[trigger] s[q], s[p]) by {
            if q > q0 {
                assert(keep.ensures((s[q0], s[q]), true));
                assert(ge(s[q0], s[q]));
                if ge(s[q], s[p]) {
                    assert(ge(s[q0], s[p]));
                }
            } else if q < q0 {
                assert(!ge(s[q], s[q0]));
                assert(ge(s[q0], s[q]));
                if ge(s[q], s[p]) {
                    assert(ge(s[q0], s[p]));
                }
            }
        }
    }
}

impl<T: Copy> Mat<T> {
    /// Replaces every cell `x` of this matrix by `f(x, y)`, where `y` is the cell at
    /// the same coordinates of `rhs` (a matrix or a view of the same shape).
    pub fn zip_assign<M: MatBase<T>, F: Fn(T, T) -> T>(&mut self, rhs: &M, f: F)
        requires
            old(self).wf(),
            rhs.wf(),
            same_shape(old(self), rhs),
            forall|x: T, y: T| f.requires((x, y)),
        ensures
            final(self).wf(),
            same_shape(final(self), old(self)),
            forall|i: int, j: int|
                0 <= i < old(self).rows_spec() && 0 <= j < old(self).cols_spec() ==> f.ensures(
                    (cell(old(self), i, j), cell(rhs, i, j)),
                    #[trigger] cell(final(self), i, j),
                ),
    {
        let n = self.buf.len();
        let c = self.col;
        let mut k: usize = 0;
        while k < n
            invariant
                self.row == old(self).row,
                self.col == c,
                c == old(self).col,
                self.buf.len() == n,
                n == self.row * self.col,
                self.col <= isize::MAX,
                k <= n,
                rhs.wf(),
                rhs.rows_spec() == self.row,
                rhs.cols_spec() == c,
                forall|x: T, y: T| f.requires((x, y)),
                forall|q: int| k <= q < n ==> self.buf@[q] == old(self).buf@[q],
                forall|q: int|
                    0 <= q < k ==> f.ensures(
                        (old(self).buf@[q], cell(rhs, q / c as int, q % c as int)),
                        #[trigger] self.buf@[q],
                    ),
            decreases n - k,
        {
            proof {
                lemma_flat_cell(k as int, self.row as int, c as int);
            }
            let (i, j) = (k / c, k % c);
            let x = self.buf[k];
            let y = *rhs.get(i, j);
            let v = f(x, y);
            self.buf.set(k, v);
            k = k + 1;
        }
        proof {
            assert forall|i: int, j: int| 0 <= i < self.row && 0 <= j < c implies f.ensures(
                (cell(old(self), i, j), cell(rhs, i, j)),
                #[trigger] cell(self, i, j),
            ) by {
                lemma_flat_position(i, j, self.row as int, c as int);
            }
        }
    }

    /// Replaces every cell `x` by `f(x)`.
    pub fn map_assign<F: Fn(T) -> T>(&mut self, f: F)
        requires
            old(self).wf(),
            forall|x: T| f.requires((x,)),
        ensures
            final(self).wf(),
            same_shape(final(self), old(self)),
            forall|i: int, j: int|
                0 <= i < old(self).rows_spec() && 0 <= j < old(self).cols_spec() ==> f.ensures(
                    (cell(old(self), i, j),),
                    #[trigger] cell(final(self), i, j),
                ),
    {
        let n = self.buf.len();
        let mut k: usize = 0;
        while k < n
            invariant
                self.row == old(self).row,
                self.col == old(self).col,
                self.buf.len() == n,
                n == self.row * self.col,
                self.col <= isize::MAX,
                k <= n,
                forall|x: T| f.requires((x,)),
                forall|q: int| k <= q < n ==> self.buf@[q] == old(self).buf@[q],
                forall|q: int| 0 <= q < k ==> f.ensures((old(self).buf@[q],), #[trigger] self.buf@[q]),
            decreases n - k,
        {
            let v = f(self.buf[k]);
            self.buf.set(k, v);
            k = k + 1;
        }
        proof {
            assert forall|i: int, j: int| 0 <= i < self.row && 0 <= j < self.col implies f.ensures(
                (cell(old(self), i, j),),
                #[trigger] cell(self, i, j),
            ) by {
                lemma_flat_position(i, j, self.row as int, self.col as int);
            }
        }
    }

    /// A new matrix of the same shape whose every cell is `f` of the cell here.
    pub fn map<F: Fn(T) -> T>(&self, f: F) -> (r: Mat<T>)
        requires
            self.wf(),
            forall|x: T| f.requires((x,)),
        ensures
            r.wf(),
            same_shape(&r, self),
            forall|i: int, j: int|
                0 <= i < self.rows_spec() && 0 <= j < self.cols_spec() ==> f.ensures(
                    (cell(self, i, j),),
                    #[trigger] cell(&r, i, j),
                ),
    {
        let mut r = self.clone_cells();
        r.map_assign(f);
        r
    }

    /// A copy of this matrix, cell for cell.
    pub fn clone_cells(&self) -> (r: Mat<T>)
        ensures
            r.rows_spec() == self.rows_spec(),
            r.cols_spec() == self.cols_spec(),
            r.data_spec() == self.data_spec(),
            r.wf() == self.wf(),
    {
        let n = self.buf.len();
        let mut buf: Vec<T> = Vec::with_capacity(n);
        let mut k: usize = 0;
        while k < n
            invariant
                n == self.buf.len(),
                k <= n,
                buf.len() == k,
                forall|q: int| 0 <= q < k ==> buf@[q] == self.buf@[q],
            decreases n - k,
        {
            buf.push(self.buf[k]);
            k = k + 1;
        }
        assert(buf@ =~= self.buf@);
        Mat { buf, row: self.row, col: self.col }
    }

    /// The coordinates of the greatest cell under `keep`, scanning row by row:
    /// `keep(best, x)` says whether the best cell so far stays ahead of `x`, so a
    /// `>=` comparison lets the first of equal cells win.
    ///
    /// The result leads the row-major scan of the cells (see [`scan_leader`]) and no
    /// cell after it displaced it: for a `keep` that always answers alike on alike
    /// arguments that is one position only. Where `keep` is `>=` of a total order,
    /// [`lemma_first_greatest`] gives that it is the first greatest cell.
    pub fn max_index<F: Fn(T, T) -> bool>(&self, keep: F) -> (r: (usize, usize))
        requires
            self.wf(),
            self.rows_spec() > 0,
            self.cols_spec() > 0,
            forall|x: T, y: T| keep.requires((x, y)),
        ensures
            r.0 < self.rows_spec(),
            r.1 < self.cols_spec(),
            forall|i: int, j: int|
                0 <= i < self.rows_spec() && 0 <= j < self.cols_spec() && flat(
                    r.0 as int,
                    r.1 as int,
                    self.cols_spec() as int,
                ) < flat(i, j, self.cols_spec() as int) ==> keep.ensures(
                    (cell(self, r.0 as int, r.1 as int), #[trigger] cell(self, i, j)),
                    true,
                ),
            scan_leader(cells_in_order(self), keep, flat(r.0 as int, r.1 as int, self.cols_spec() as int)),
    {
        let n = self.buf.len();
        let c = self.col;
        proof {
            lemma_flat_position(0, 0, self.row as int, c as int);
        }
        let mut best: usize = 0;
        let mut k: usize = 1;
        while k < n
            invariant
                n == self.buf.len(),
                n == self.row * c,
                c == self.col,
                0 < n,
                best < k,
                k <= n,
                forall|x: T, y: T| keep.requires((x, y)),
                forall|q: int|
                    best < q < k ==> keep.ensures((self.buf@[best as int], #[trigger] self.buf@[q]), true),
                scan_leader(self.buf@, keep, best as int),
            decreases n - k,
        {
            let stays = keep(self.buf[best], self.buf[k]);
            if !stays {
                proof {
                    let q = best as int;
                    assert(keep.ensures((self.buf@[q], self.buf@[k as int]), false));
                    let s = self.buf@;
                    assert(0 <= q < k && scan_leader(s, keep, q) && keep.ensures((s[q], s[k as int]), false)
                        && forall|m: int| q < m < k ==> keep.ensures((s[q], #[trigger] s[m]), true));
                    assert(scan_leader(s, keep, k as int));
                }
                best = k;
            }
            k = k + 1;
        }
        proof {
            lemma_flat_cell(best as int, self.row as int, c as int);
        }
        let r = (best / c, best % c);
        proof {
            self.lemma_row_major();
            let b = best as int;
            assert(flat(r.0 as int, r.1 as int, c as int) == b);
            assert(cell(self, r.0 as int, r.1 as int) == self.buf@[b]);
            assert forall|i: int, j: int|
                0 <= i < self.row && 0 <= j < c && flat(r.0 as int, r.1 as int, c as int) < flat(
                    i,
                    j,
                    c as int,
                ) implies keep.ensures(
                (cell(self, r.0 as int, r.1 as int), #[trigger] cell(self, i, j)),
                true,
            ) by {
                lemma_flat_position(i, j, self.row as int, c as int);
                assert(cell(self, i, j) == self.buf@[flat(i, j, c as int)]);
            }
        }
        r
    }
}

impl<T: Copy> Mat<T> {
    /// An `R` by `C` matrix whose rows are the rows of `arr`.
    pub fn from_arr<const R: usize, const C: usize>(arr: [[T; C]; R]) -> (r: Mat<T>)
        requires
            R * C <= usize::MAX,
            C <= isize::MAX,
        ensures
            r.wf(),
            r.rows_spec() == R,
            r.cols_spec() == C,
            forall|i: int, j: int| 0 <= i < R && 0 <= j < C ==> #[trigger] cell(&r, i, j) == arr@[i]@[j],
    {
        let mut buf: Vec<T> = Vec::with_capacity(R * C);
        let mut i: usize = 0;
        while i < R
            invariant
                R * C <= usize::MAX,
                i <= R,
                buf.len() == i * C,
                forall|a: int, b: int| 0 <= a < i && 0 <= b < C ==> #[trigger] buf@[a * C + b] == arr@[a]@[b],
            decreases R - i,
        {
            let row = arr[i];
            let mut j: usize = 0;
            while j < C
                invariant
                    R * C <= usize::MAX,
                    i < R,
                    j <= C,
                    row == arr@[i as int],
                    buf.len() == i * C + j,
                    forall|a: int, b: int| 0 <= a < i && 0 <= b < C ==> #[trigger] buf@[a * C + b] == arr@[a]@[b],
                    forall|b: int| 0 <= b < j ==> #[trigger] buf@[i * C + b] == arr@[i as int]@[b],
                decreases C - j,
            {
                proof {
                    lemma_flat_position(i as int, j as int, R as int, C as int);
                }
                buf.push(row[j]);
                proof {
                    assert forall|a: int, b: int| 0 <= a < i && 0 <= b < C implies #[trigger] buf@[a * C + b] == arr@[a]@[b] by {
                        lemma_flat_position(a, b, i as int, C as int);
                    }
                }
                j = j + 1;
            }
            proof {
                assert forall|a: int, b: int| 0 <= a < i + 1 && 0 <= b < C implies #[trigger] buf@[a * C + b] == arr@[a]@[b] by {
                    if a == i {
                        assert(buf@[i * C + b] == arr@[i as int]@[b]);
                    }
                }
                assert((i + 1) * C == i * C + C) by (nonlinear_arith);
            }
            i = i + 1;
        }
        let r = Mat { buf, row: R, col: C };
        proof {
            assert forall|i: int, j: int| 0 <= i < R && 0 <= j < C implies #[trigger] cell(&r, i, j) == arr@[i]@[j] by {
                assert(address(i, j, C as int, 1) == i * C + j);
            }
        }
        r
    }
}

impl<T> Mat<T> {
    /// A `row` by `col` matrix whose cell `(i, j)` is `f(i, j)`.
    pub fn from_fn<F: Fn(usize, usize) -> T>(shape: (usize, usize), f: F) -> (r: Mat<T>)
        requires
            shape.0 * shape.1 <= usize::MAX,
            shape.1 <= isize::MAX,
            forall|i: usize, j: usize| i < shape.0 && j < shape.1 ==> f.requires((i, j)),
        ensures
            r.wf(),
            r.rows_spec() == shape.0,
            r.cols_spec() == shape.1,
            r.data_spec().len() == shape.0 * shape.1,
            forall|i: int, j: int|
                0 <= i < shape.0 && 0 <= j < shape.1 ==> f.ensures(
                    (i as usize, j as usize),
                    #[trigger] cell(&r, i, j),
                ),
    {
        let (row, col) = shape;
        let n = row * col;
        let mut buf: Vec<T> = Vec::with_capacity(n);
        let mut k: usize = 0;
        while k < n
            invariant
                n == row * col,
                k <= n,
                buf.len() == k,
                forall|i: usize, j: usize| i < row && j < col ==> f.requires((i, j)),
                forall|q: int|
                    0 <= q < k ==> f.ensures(
                        ((q / col as int) as usize, (q % col as int) as usize),
                        #[trigger] buf@[q],
                    ),
            decreases n - k,
        {
            proof {
                lemma_flat_cell(k as int, row as int, col as int);
            }
            let v = f(k / col, k % col);
            buf.push(v);
            k = k + 1;
        }
        let r = Mat { buf, row, col };
        proof {
            assert forall|i: int, j: int| 0 <= i < row && 0 <= j < col implies f.ensures(
                (i as usize, j as usize),
                #[trigger] cell(&r, i, j),
            ) by {
                lemma_flat_position(i, j, row as int, col as int);
            }
        }
        r
    }
}

/// Writes `f(x, y)` into every cell of `out`, where `x` and `y` are the cells at the
/// same coordinates of `lhs` and `rhs`; each of the two may be a matrix or a view.
pub fn zip_to<T: Copy, A: MatBase<T>, B: MatBase<T>, F: Fn(T, T) -> T>(
    lhs: &A,
    rhs: &B,
    out: &mut Mat<T>,
    f: F,
)
    requires
        lhs.wf(),
        rhs.wf(),
        old(out).wf(),
        same_shape(lhs, rhs),
        same_shape(lhs, old(out)),
        forall|x: T, y: T| f.requires((x, y)),
    ensures
        final(out).wf(),
        same_shape(final(out), old(out)),
        forall|i: int, j: int|
            0 <= i < lhs.rows_spec() && 0 <= j < lhs.cols_spec() ==> f.ensures(
                (cell(lhs, i, j), cell(rhs, i, j)),
                #[trigger] cell(final(out), i, j),
            ),
{
    let n = out.buf.len();
    let c = out.col;
    let mut k: usize = 0;
    while k < n
        invariant
            out.row == old(out).row,
            out.col == c,
            c == old(out).col,
            out.buf.len() == n,
            n == out.row * out.col,
            out.col <= isize::MAX,
            k <= n,
            lhs.wf(),
            rhs.wf(),
            lhs.rows_spec() == out.row,
            lhs.cols_spec() == c,
            rhs.rows_spec() == out.row,
            rhs.cols_spec() == c,
            forall|x: T, y: T| f.requires((x, y)),
            forall|q: int|
                0 <= q < k ==> f.ensures(
                    (cell(lhs, q / c as int, q % c as int), cell(rhs, q / c as int, q % c as int)),
                    #[trigger] out.buf@[q],
                ),
        decreases n - k,
    {
        proof {
            lemma_flat_cell(k as int, out.row as int, c as int);
        }
        let (i, j) = (k / c, k % c);
        let x = *lhs.get(i, j);
        let y = *rhs.get(i, j);
        let v = f(x, y);
        out.buf.set(k, v);
        k = k + 1;
    }
    proof {
        assert forall|i: int, j: int| 0 <= i < out.row && 0 <= j < c implies f.ensures(
            (cell(lhs, i, j), cell(rhs, i, j)),
            #[trigger] cell(out, i, j),
        ) by {
            lemma_flat_position(i, j, out.row as int, c as int);
        }
    }
}

/// Combining `a` with `b` cell by cell and then undoing the combination with `b`
/// gives `a` back, whenever `undo` inverts `f` exactly (as wrapping subtraction
/// inverts wrapping addition): `sum` is what [`zip_to`] writes for `f` over `a` and
/// `b`, and `back` what it writes for `undo` over `sum` and `b`.
pub proof fn lemma_zip_inverse_restores<
    T,
    A: MatBase<T>,
    B: MatBase<T>,
    F: Fn(T, T) -> T,
    G: Fn(T, T) -> T,
>(a: &A, b: &B, sum: &Mat<T>, back: &Mat<T>, f: F, undo: G)
    requires
        same_shape(a, b),
        same_shape(a, sum),
        same_shape(a, back),
        forall|x: T, y: T, z: T, w: T| f.ensures((x, y), z) && undo.ensures((z, y), w) ==> w == x,
        forall|i: int, j: int|
            0 <= i < a.rows_spec() && 0 <= j < a.cols_spec() ==> f.ensures(
                (cell(a, i, j), cell(b, i, j)),
                #[trigger] cell(sum, i, j),
            ),
        forall|i: int, j: int|
            0 <= i < a.rows_spec() && 0 <= j < a.cols_spec() ==> undo.ensures(
                (cell(sum, i, j), cell(b, i, j)),
                #[trigger] cell(back, i, j),
            ),
    ensures
        forall|i: int, j: int|
            0 <= i < a.rows_spec() && 0 <= j < a.cols_spec() ==> #[trigger] cell(back, i, j) == cell(
                a,
                i,
                j,
            ),
{
    assert forall|i: int, j: int| 0 <= i < a.rows_spec() && 0 <= j < a.cols_spec() implies #[trigger] cell(
        back,
        i,
        j,
    ) == cell(a, i, j) by {
        assert(f.ensures((cell(a, i, j), cell(b, i, j)), cell(sum, i, j)));
        assert(undo.ensures((cell(sum, i, j), cell(b, i, j)), cell(back, i, j)));
    }
}

/// Transposing twice reads the matrix back unchanged: the view of `a` reads cell
/// `(i, j)` of `a` at `(j, i)`, so reading the view with its coordinates swapped
/// again gives every cell of `a`, and the view of the view is `a` itself.
pub proof fn lemma_transpose_twice<T>(a: &Mat<T>, t: &Transpose<T>)
    requires
        a.wf(),
        t.source() == *a,
    ensures
        t.wf(),
        t.rows_spec() == a.cols_spec(),
        t.cols_spec() == a.rows_spec(),
        forall|i: int, j: int|
            0 <= i < a.rows_spec() && 0 <= j < a.cols_spec() ==> #[trigger] cell(t, j, i) == cell(
                a,
                i,
                j,
            ),
{
    assert forall|i: int, j: int| 0 <= i < a.rows_spec() && 0 <= j < a.cols_spec() implies #[trigger] cell(
        t,
        j,
        i,
    ) == cell(a, i, j) by {
        assert(address(j, i, 1, a.col as int) == address(i, j, a.col as int, 1)) by (nonlinear_arith);
    }
}

/// Two shapes that were required to agree and did not.
#[derive(Clone, Copy, Debug, PartialEq, Eq)]
pub struct ShapeMismatch {
    /// The shape that the operation needed.
    pub expected: (usize, usize),
    /// The shape that it was given.
    pub actual: (usize, usize),
}

/// Checks that `b` has the shape of `a`, as the elementwise operations need.
pub fn check_same_shape<T, A: MatBase<T>, B: MatBase<T>>(a: &A, b: &B) -> (r: Result<
    (),
    ShapeMismatch,
>)
    ensures
        r is Ok <==> same_shape(a, b),
        r matches Err(e) ==> e.expected == (a.rows_spec() as usize, a.cols_spec() as usize)
            && e.actual == (b.rows_spec() as usize, b.cols_spec() as usize),
{
    let sa = a.shape();
    let sb = b.shape();
    if sa.0 == sb.0 && sa.1 == sb.1 {
        Ok(())
    } else {
        Err(ShapeMismatch { expected: sa, actual: sb })
    }
}

/// Checks the shapes of a product `lhs · rhs` written into `out`: the columns of
/// `lhs` must match the rows of `rhs` (else the error gives the shape `rhs` should
/// have had), and `out` must be `lhs.rows` by `rhs.cols` (else the error gives
/// that shape and the one `out` has).
pub fn check_product_shapes<T, A: MatBase<T>, B: MatBase<T>, C: MatBase<T>>(
    lhs: &A,
    rhs: &B,
    out: &C,
) -> (r: Result<(), ShapeMismatch>)
    ensures
        r is Ok <==> (lhs.cols_spec() == rhs.rows_spec() && lhs.rows_spec() == out.rows_spec()
            && rhs.cols_spec() == out.cols_spec()),
        lhs.cols_spec() != rhs.rows_spec() ==> r == Err::<(), ShapeMismatch>(
            ShapeMismatch {
                expected: (lhs.cols_spec() as usize, rhs.cols_spec() as usize),
                actual: (rhs.rows_spec() as usize, rhs.cols_spec() as usize),
            },
        ),
        lhs.cols_spec() == rhs.rows_spec() && (lhs.rows_spec() != out.rows_spec()
            || rhs.cols_spec() != out.cols_spec()) ==> r == Err::<(), ShapeMismatch>(
            ShapeMismatch {
                expected: (lhs.rows_spec() as usize, rhs.cols_spec() as usize),
                actual: (out.rows_spec() as usize, out.cols_spec() as usize),
            },
        ),
{
    let sl = lhs.shape();
    let sr = rhs.shape();
    let so = out.shape();
    if sl.1 != sr.0 {
        Err(ShapeMismatch { expected: (sl.1, sr.1), actual: sr })
    } else if sl.0 != so.0 || sr.1 != so.1 {
        Err(ShapeMismatch { expected: (sl.0, sr.1), actual: so })
    } else {
        Ok(())
    }
}

} // verus!
