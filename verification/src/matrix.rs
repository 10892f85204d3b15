//! A two-dimensional array of `i32`, stored in an `ndarray::Array2<i32>`.
//!
//! Verus cannot look inside the array, so its contents are given a name,
//! [`matrix_cells`], and its number of columns another, [`matrix_width`].
//! Every operation of `ndarray` that the library uses goes through one small
//! function whose contract is believed, not proved. Everything built on top
//! of these functions is verified.

use vstd::prelude::*;

verus! {

/// A rectangular array of `i32`, backed by `ndarray::Array2<i32>`.
///
/// The type is opaque to the verifier. Its view is `matrix_cells`.
#[verifier::external_body]
pub struct Matrix {
    inner: ndarray::Array2<i32>,
}

/// The rows of a matrix, top to bottom, each row left to right.
pub uninterp spec fn matrix_cells(m: Matrix) -> Seq<Seq<i32>>;

/// The number of columns of a matrix: the length of each of its rows.
pub uninterp spec fn matrix_width(m: Matrix) -> nat;

impl View for Matrix {
    type V = Seq<Seq<i32>>;

    open spec fn view(&self) -> Seq<Seq<i32>> {
        matrix_cells(*self)
    }
}

/// `g` has `r` rows and every row has `c` entries.
pub open spec fn has_shape(g: Seq<Seq<i32>>, r: int, c: int) -> bool {
    &&& g.len() == r
    &&& forall|i: int| 0 <= i < r ==> (#[trigger] g[i]).len() == c
}

/// `g` has as many rows as every row has entries.
pub open spec fn is_square(g: Seq<Seq<i32>>) -> bool {
    has_shape(g, g.len() as int, g.len() as int)
}

/// `m` has `r` rows and `c` columns.
pub open spec fn is_sized(m: Matrix, r: int, c: int) -> bool {
    matrix_width(m) == c && has_shape(matrix_cells(m), r, c)
}

/// Every entry of `g` lies between `lo` and `hi`, both included.
pub open spec fn entries_within(g: Seq<Seq<i32>>, lo: int, hi: int) -> bool {
    forall|i: int, j: int|
        0 <= i < g.len() && 0 <= j < g[i].len() ==> lo <= #[trigger] g[i][j] <= hi
}

/// The sum of `x[k] * y[k]` over the first `n` positions.
pub open spec fn inner_product(x: Seq<i32>, y: Seq<i32>, n: int) -> int
    decreases n,
{
    if n <= 0 {
        0
    } else {
        inner_product(x, y, n - 1) + x[n - 1] * y[n - 1]
    }
}

/// Column `j` of `g`, top to bottom.
pub open spec fn column(g: Seq<Seq<i32>>, j: int) -> Seq<i32> {
    Seq::new(g.len(), |i: int| g[i][j])
}

/// An `r` by `c` array of `i32` can be held: no axis is longer than
/// `isize::MAX`, and its entries take no more than `isize::MAX` bytes.
pub open spec fn fits_memory(r: int, c: int) -> bool {
    &&& 0 <= r <= isize::MAX
    &&& 0 <= c <= isize::MAX
    &&& r * c * 4 <= isize::MAX
}

/// `ArrayBase::dim`: the number of rows and of columns.
///
/// Believed: the pair is the shape of the contents, and the array respects
/// the limits under which `ndarray` and `Vec` hold any array at all (no axis
/// and no buffer beyond `isize::MAX`).
#[verifier::external_body]
pub(crate) fn dims(m: &Matrix) -> (d: (usize, usize))
    ensures
        d.0 == matrix_cells(*m).len(),
        d.1 == matrix_width(*m),
        has_shape(matrix_cells(*m), d.0 as int, d.1 as int),
        fits_memory(d.0 as int, d.1 as int),
    no_unwind
{
    m.inner.dim()
}

/// `ArrayBase::len`: the number of entries.
///
/// Believed: it is the number of rows times the number of columns.
#[verifier::external_body]
pub(crate) fn entry_count(m: &Matrix) -> (n: usize)
    ensures
        n == matrix_cells(*m).len() * matrix_width(*m),
{
    m.inner.len()
}

/// `Index::index` of `ArrayBase` with a pair of indices.
///
/// Believed: inside the bounds it hands out the entry at that row and column.
#[verifier::external_body]
pub(crate) fn get(m: &Matrix, i: usize, j: usize) -> (v: i32)
    requires
        i < matrix_cells(*m).len(),
        j < matrix_cells(*m)[i as int].len(),
    ensures
        v == matrix_cells(*m)[i as int][j as int],
    no_unwind
{
    m.inner[[i, j]]
}

/// `IndexMut::index_mut` of `ArrayBase` with a pair of indices.
///
/// Believed: inside the bounds it replaces the entry at that row and column
/// and leaves every other entry and the shape as they were.
#[verifier::external_body]
pub(crate) fn put(m: &mut Matrix, i: usize, j: usize, v: i32)
    requires
        i < matrix_cells(*old(m)).len(),
        j < matrix_cells(*old(m))[i as int].len(),
    ensures
        matrix_cells(*final(m)) == matrix_cells(*old(m)).update(
            i as int,
            matrix_cells(*old(m))[i as int].update(j as int, v),
        ),
        matrix_width(*final(m)) == matrix_width(*old(m)),
    no_unwind
{
    m.inner[[i, j]] = v;
}

/// `Clone::clone` of `ArrayBase`.
///
/// Believed: the copy has the shape and the contents of the array that it
/// was made from.
#[verifier::external_body]
pub(crate) fn duplicate(m: &Matrix) -> (copy: Matrix)
    ensures
        matrix_cells(copy) == matrix_cells(*m),
        matrix_width(copy) == matrix_width(*m),
{
    Matrix { inner: m.inner.clone() }
}

/// `ArrayBase::ones` with a pair as shape.
///
/// Believed: for a shape that fits in memory the result has that shape and
/// every entry is 1.
#[verifier::external_body]
pub(crate) fn ones(r: usize, c: usize) -> (m: Matrix)
    requires
        fits_memory(r as int, c as int),
    ensures
        is_sized(m, r as int, c as int),
        entries_within(matrix_cells(m), 1, 1),
{
    Matrix { inner: ndarray::Array2::ones((r, c)) }
}

/// `ArrayBase::eye`.
///
/// Believed: for an order that fits in memory the result is square of that
/// order, with 1 on the diagonal and 0 elsewhere.
#[verifier::external_body]
pub(crate) fn identity(n: usize) -> (m: Matrix)
    requires
        fits_memory(n as int, n as int),
    ensures
        is_sized(m, n as int, n as int),
        forall|i: int, j: int|
            0 <= i < n && 0 <= j < n ==> #[trigger] matrix_cells(m)[i][j] == (if i == j {
                1i32
            } else {
                0i32
            }),
{
    Matrix { inner: ndarray::Array2::eye(n) }
}

/// `Mul::mul` of an `i32` with an array: every entry times the scalar.
///
/// Believed: where no product leaves the range of `i32`, the result has the
/// shape of the argument and each entry is the scalar times the old entry.
#[verifier::external_body]
pub(crate) fn scaled(k: i32, m: Matrix) -> (res: Matrix)
    requires
        forall|i: int, j: int|
            0 <= i < matrix_cells(m).len() && 0 <= j < matrix_cells(m)[i].len() ==> i32::MIN <= k
                * #[trigger] matrix_cells(m)[i][j] <= i32::MAX,
    ensures
        is_sized(res, matrix_cells(m).len() as int, matrix_width(m) as int),
        forall|i: int, j: int|
            0 <= i < matrix_cells(m).len() && 0 <= j < matrix_width(m)
                ==> #[trigger] matrix_cells(res)[i][j] == k * matrix_cells(m)[i][j],
{
    Matrix { inner: k * m.inner }
}

/// `ArrayBase::t`, copied into an array of its own.
///
/// Believed: the result has the columns of the argument as its rows.
#[verifier::external_body]
pub(crate) fn transposed(m: &Matrix) -> (t: Matrix)
    ensures
        is_sized(t, matrix_width(*m) as int, matrix_cells(*m).len() as int),
        forall|i: int, j: int|
            0 <= i < matrix_cells(*m).len() && 0 <= j < matrix_width(*m)
                ==> #[trigger] matrix_cells(t)[j][i] == matrix_cells(*m)[i][j],
{
    Matrix { inner: m.inner.t().to_owned() }
}

/// `Dot::dot` of two two-dimensional arrays: the matrix product.
///
/// Believed: for arrays whose inner lengths agree, whose entries are -1, 0
/// or 1 (so that no partial sum can leave `i32`) and whose product fits in
/// memory, the entry at row `i` and column `j` of the result is the inner
/// product of row `i` of the left with column `j` of the right factor.
#[verifier::external_body]
pub(crate) fn product(a: &Matrix, b: &Matrix) -> (p: Matrix)
    requires
        matrix_width(*a) == matrix_cells(*b).len(),
        matrix_width(*a) <= i32::MAX,
        entries_within(matrix_cells(*a), -1, 1),
        entries_within(matrix_cells(*b), -1, 1),
        fits_memory(matrix_cells(*a).len() as int, matrix_width(*b) as int),
    ensures
        is_sized(p, matrix_cells(*a).len() as int, matrix_width(*b) as int),
        forall|i: int, j: int|
            0 <= i < matrix_cells(*a).len() && 0 <= j < matrix_width(*b)
                ==> #[trigger] matrix_cells(p)[i][j] == inner_product(
                matrix_cells(*a)[i],
                column(matrix_cells(*b), j),
                matrix_width(*a) as int,
            ),
{
    Matrix { inner: a.inner.dot(&b.inner) }
}

/// `PartialEq::eq` of two arrays.
///
/// Believed: two arrays are equal exactly when they have the same shape and
/// the same contents.
#[verifier::external_body]
pub(crate) fn same(a: &Matrix, b: &Matrix) -> (eq: bool)
    ensures
        eq == (matrix_cells(*a) == matrix_cells(*b) && matrix_width(*a) == matrix_width(*b)),
{
    a.inner == b.inner
}

/// The rows held by a vector of vectors.
pub open spec fn grid_of(rows: Seq<Vec<i32>>) -> Seq<Seq<i32>> {
    Seq::new(rows.len(), |i: int| rows[i]@)
}

/// The width of a grid: the length of its first row, 0 where it has none.
pub open spec fn width(g: Seq<Seq<i32>>) -> int {
    if g.len() == 0 {
        0
    } else {
        g[0].len() as int
    }
}

impl Matrix {
    /// The number of columns.
    pub open spec fn width(&self) -> nat {
        matrix_width(*self)
    }

    /// The matrix whose rows are `rows`.
    ///
    /// `None` exactly when the rows differ in length or the matrix would not
    /// fit in memory.
    pub fn from_rows(rows: &Vec<Vec<i32>>) -> (res: Option<Matrix>)
        ensures
            res.is_some() <==> has_shape(
                grid_of(rows@),
                rows@.len() as int,
                width(grid_of(rows@)),
            ) && fits_memory(rows@.len() as int, width(grid_of(rows@))),
            res.is_some() ==> res.unwrap()@ == grid_of(rows@) && res.unwrap().width() == width(
                grid_of(rows@),
            ),
    {
        let r: usize = rows.len();
        let c: usize = if r == 0 {
            0
        } else {
            rows[0].len()
        };
        let ghost g = grid_of(rows@);
        let mut i: usize = 0;
        while i < r
            invariant
                r == rows@.len(),
                g == grid_of(rows@),
                c == width(g),
                0 <= i <= r,
                forall|k: int| 0 <= k < i ==> (#[trigger] g[k]).len() == c,
            decreases r - i,
        {
            assert(g[i as int] == rows@[i as int]@);
            if rows[i].len() != c {
                return None;
            }
            i += 1;
        }
        if !shape_fits(r, c) {
            return None;
        }
        let mut m = ones(r, c);
        let mut i: usize = 0;
        while i < r
            invariant
                r == rows@.len(),
                g == grid_of(rows@),
                has_shape(g, r as int, c as int),
                is_sized(m, r as int, c as int),
                has_shape(m@, r as int, c as int),
                0 <= i <= r,
                forall|k: int| 0 <= k < i ==> #[trigger] m@[k] == g[k],
            decreases r - i,
        {
            let mut j: usize = 0;
            while j < c
                invariant
                    r == rows@.len(),
                    g == grid_of(rows@),
                    has_shape(g, r as int, c as int),
                    is_sized(m, r as int, c as int),
                has_shape(m@, r as int, c as int),
                    0 <= i < r,
                    0 <= j <= c,
                    forall|k: int| 0 <= k < i ==> #[trigger] m@[k] == g[k],
                    forall|l: int| 0 <= l < j ==> #[trigger] m@[i as int][l] == g[i as int][l],
                decreases c - j,
            {
                assert(g[i as int] == rows@[i as int]@);
                let v: i32 = rows[i][j];
                put(&mut m, i, j, v);
                j += 1;
            }
            assert(m@[i as int] =~= g[i as int]);
            i += 1;
        }
        assert(m@ =~= g);
        Some(m)
    }

    /// The rows of the matrix as vectors.
    pub fn to_rows(&self) -> (rows: Vec<Vec<i32>>)
        ensures
            grid_of(rows@) == self@,
    {
        let (r, c) = dims(self);
        let mut rows: Vec<Vec<i32>> = Vec::new();
        let mut i: usize = 0;
        while i < r
            invariant
                has_shape(self@, r as int, c as int),
                0 <= i <= r,
                rows@.len() == i,
                forall|k: int| 0 <= k < i ==> (#[trigger] rows@[k])@ == self@[k],
            decreases r - i,
        {
            let mut row: Vec<i32> = Vec::new();
            let mut j: usize = 0;
            while j < c
                invariant
                    has_shape(self@, r as int, c as int),
                    0 <= i < r,
                    0 <= j <= c,
                    row@.len() == j,
                    forall|l: int| 0 <= l < j ==> #[trigger] row@[l] == self@[i as int][l],
                decreases c - j,
            {
                row.push(get(self, i, j));
                j += 1;
            }
            assert(row@ =~= self@[i as int]);
            rows.push(row);
            i += 1;
        }
        assert(grid_of(rows@) =~= self@);
        rows
    }

    /// The number of rows.
    pub fn rows(&self) -> (r: usize)
        ensures
            r == self@.len(),
    {
        dims(self).0
    }

    /// The number of columns: the length of every row.
    pub fn cols(&self) -> (c: usize)
        ensures
            c == self.width(),
            has_shape(self@, self@.len() as int, c as int),
    {
        dims(self).1
    }

    /// The entry at row `i` and column `j`, where there is one.
    pub fn at(&self, i: usize, j: usize) -> (v: Option<i32>)
        ensures
            v == (if i < self@.len() && j < self@[i as int].len() {
                Some(self@[i as int][j as int])
            } else {
                None
            }),
    {
        let (r, c) = dims(self);
        if i < r && j < c {
            Some(get(self, i, j))
        } else {
            None
        }
    }
}

/// Whether an `r` by `c` array of `i32` fits in memory.
pub fn shape_fits(r: usize, c: usize) -> (ok: bool)
    ensures
        ok == fits_memory(r as int, c as int),
{
    let limit: usize = isize::MAX as usize;
    if r > limit || c > limit {
        return false;
    }
    match r.checked_mul(c) {
        None => {
            assert(r * c * 4 > isize::MAX) by (nonlinear_arith)
                requires
                    r * c > usize::MAX,
                    usize::MAX >= isize::MAX,
            ;
            false
        },
        Some(cells) => cells <= limit / 4,
    }
}

} // verus!
