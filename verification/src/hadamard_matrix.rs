//! Hadamard matrices: recognising one, normalising it, and deriving the
//! incidence matrix of the block design that it carries.

use crate::error::SchemeError;
use crate::matrix::{
    column, dims, duplicate, get, fits_memory, has_shape, identity, inner_product, is_square, ones,
    product, same, put, scaled, transposed, Matrix,
};
use vstd::prelude::*;

verus! {

/// Every entry of `g` is 1 or -1.
pub open spec fn is_signed(g: Seq<Seq<i32>>) -> bool {
    forall|i: int, j: int|
        0 <= i < g.len() && 0 <= j < g[i].len() ==> (#[trigger] g[i][j] == 1 || g[i][j] == -1)
}

/// The inner product of rows `i` and `k` of a square grid.
pub open spec fn row_dot(g: Seq<Seq<i32>>, i: int, k: int) -> int {
    inner_product(g[i], g[k], g.len() as int)
}

/// Distinct rows are orthogonal and every row has squared norm `n`:
/// the product of `g` with its transpose is `n` times the identity.
pub open spec fn is_orthogonal(g: Seq<Seq<i32>>) -> bool {
    forall|i: int, k: int|
        0 <= i < g.len() && 0 <= k < g.len() ==> #[trigger] row_dot(g, i, k) == (if i == k {
            g.len() as int
        } else {
            0
        })
}

/// `g` is a Hadamard matrix: square, of order at least 1, with entries 1
/// and -1 and pairwise orthogonal rows.
pub open spec fn is_hadamard_grid(g: Seq<Seq<i32>>) -> bool {
    &&& g.len() >= 1
    &&& is_square(g)
    &&& is_signed(g)
    &&& is_orthogonal(g)
}

/// Row `i` is negated by normalisation: its first entry is -1.
pub open spec fn row_flips(g: Seq<Seq<i32>>, i: int) -> bool {
    g[i][0] == -1
}

/// Column `j` is negated by normalisation: once the first row has been made
/// to start with 1, its top entry is -1, that is, it differs from the corner.
pub open spec fn col_flips(g: Seq<Seq<i32>>, j: int) -> bool {
    g[0][j] != g[0][0]
}

/// `v`, negated where `flip` holds.
pub open spec fn flipped(v: i32, flip: bool) -> i32 {
    if flip {
        (-v) as i32
    } else {
        v
    }
}

/// The entry at row `a` and column `b` once the rows before `rows_done` and
/// the columns before `cols_done` have been brought to start with 1.
pub open spec fn stage(g: Seq<Seq<i32>>, a: int, b: int, rows_done: int, cols_done: int) -> i32 {
    flipped(g[a][b], (a < rows_done && row_flips(g, a)) != (b < cols_done && col_flips(g, b)))
}

/// The normal form of a grid of 1 and -1: each row and each column is
/// negated as a whole where that makes its first entry 1.
pub open spec fn normalized_grid(g: Seq<Seq<i32>>) -> Seq<Seq<i32>> {
    Seq::new(
        g.len(),
        |a: int| Seq::new(g[a].len(), |b: int| flipped(g[a][b], row_flips(g, a) != col_flips(g, b))),
    )
}

/// The first row and the first column of `g` hold nothing but 1.
pub open spec fn is_normal(g: Seq<Seq<i32>>) -> bool {
    &&& forall|i: int| 0 <= i < g.len() ==> (#[trigger] g[i])[0] == 1
    &&& forall|j: int| 0 <= j < g.len() ==> #[trigger] g[0][j] == 1
}

/// The incidence matrix of a grid of 1 and -1: the first row and column are
/// dropped, and of the rest 1 stays 1 and -1 becomes 0.
pub open spec fn incidence_grid(g: Seq<Seq<i32>>) -> Seq<Seq<i32>> {
    Seq::new(
        (g.len() - 1) as nat,
        |a: int| Seq::new((g.len() - 1) as nat, |b: int| ((g[a + 1][b + 1] + 1) / 2) as i32),
    )
}

/// Negating both factors keeps a product; negating one negates it.
proof fn lemma_flipped_product(x: i32, y: i32, fx: bool, fy: bool)
    requires
        x == 1 || x == -1,
        y == 1 || y == -1,
    ensures
        flipped(x, fx) * flipped(y, fy) == (if fx == fy {
            x * y
        } else {
            -(x * y)
        }),
{
    let a: int = flipped(x, fx) as int;
    let b: int = flipped(y, fy) as int;
    assert(a * b == (if fx == fy {
        x * y
    } else {
        -(x * y)
    })) by (nonlinear_arith)
        requires
            x == 1 || x == -1,
            y == 1 || y == -1,
            a == (if fx {
                -x
            } else {
                x as int
            }),
            b == (if fy {
                -y
            } else {
                y as int
            }),
    ;
}

/// Over any prefix, the inner product of two rows of the normal form is that
/// of the rows as they were, negated where exactly one of the two was negated.
proof fn lemma_normalized_rows(g: Seq<Seq<i32>>, i: int, k: int, t: int)
    requires
        is_square(g),
        is_signed(g),
        0 <= i < g.len(),
        0 <= k < g.len(),
        0 <= t <= g.len(),
    ensures
        inner_product(normalized_grid(g)[i], normalized_grid(g)[k], t) == (if row_flips(g, i)
            == row_flips(g, k) {
            inner_product(g[i], g[k], t)
        } else {
            -inner_product(g[i], g[k], t)
        }),
    decreases t,
{
    if t > 0 {
        lemma_normalized_rows(g, i, k, t - 1);
        let fi = row_flips(g, i) != col_flips(g, t - 1);
        let fk = row_flips(g, k) != col_flips(g, t - 1);
        assert(g[i][t - 1] == 1 || g[i][t - 1] == -1);
        assert(g[k][t - 1] == 1 || g[k][t - 1] == -1);
        lemma_flipped_product(g[i][t - 1], g[k][t - 1], fi, fk);
        assert(normalized_grid(g)[i][t - 1] == flipped(g[i][t - 1], fi));
        assert(normalized_grid(g)[k][t - 1] == flipped(g[k][t - 1], fk));
    }
}

/// The normal form of a Hadamard matrix is a Hadamard matrix whose first row
/// and first column hold nothing but 1.
pub proof fn lemma_normalized_is_hadamard(g: Seq<Seq<i32>>)
    requires
        is_hadamard_grid(g),
    ensures
        is_hadamard_grid(normalized_grid(g)),
        is_normal(normalized_grid(g)),
{
    let h = normalized_grid(g);
    let n = g.len() as int;
    assert forall|i: int, j: int| 0 <= i < h.len() && 0 <= j < h[i].len() implies (#[trigger] h[i][j]
        == 1 || h[i][j] == -1) by {
        assert(g[i][j] == 1 || g[i][j] == -1);
    }
    assert forall|i: int, k: int| 0 <= i < n && 0 <= k < n implies #[trigger] row_dot(h, i, k) == (if i
        == k {
        n
    } else {
        0
    }) by {
        lemma_normalized_rows(g, i, k, n);
        assert(row_dot(g, i, k) == (if i == k {
            n
        } else {
            0
        }));
    }
    assert forall|i: int| 0 <= i < n implies (#[trigger] h[i])[0] == 1 by {
        assert(g[i][0] == 1 || g[i][0] == -1);
        assert(g[0][0] == 1 || g[0][0] == -1);
    }
    assert forall|j: int| 0 <= j < n implies #[trigger] h[0][j] == 1 by {
        assert(g[0][j] == 1 || g[0][j] == -1);
        assert(g[0][0] == 1 || g[0][0] == -1);
    }
}

/// Brings every row and every column of a Hadamard matrix to start with 1.
///
/// For each index in turn, the row of that index is negated if it starts
/// with -1, and then the column of that index if its top entry is -1.
fn normalize_cells(m: &mut Matrix)
    requires
        is_hadamard_grid(old(m)@),
    ensures
        final(m)@ == normalized_grid(old(m)@),
    no_unwind
{
    let ghost g = m@;
    let (n, _) = dims(m);
    let mut i: usize = 0;
    while i < n
        invariant
            g == old(m)@,
            is_hadamard_grid(g),
            n == g.len(),
            has_shape(m@, n as int, n as int),
            0 <= i <= n,
            forall|a: int, b: int|
                0 <= a < n && 0 <= b < n ==> #[trigger] m@[a][b] == stage(g, a, b, i as int, i as int),
        decreases n - i,
    {
        assert(g[i as int][0] == 1 || g[i as int][0] == -1);
        assert(g[0][i as int] == 1 || g[0][i as int] == -1);
        assert(g[0][0] == 1 || g[0][0] == -1);
        if get(m, i, 0) == -1 {
            let mut j: usize = 0;
            while j < n
                invariant
                    is_hadamard_grid(g),
                    n == g.len(),
                    has_shape(m@, n as int, n as int),
                    0 <= i < n,
                    0 <= j <= n,
                    row_flips(g, i as int),
                    forall|a: int, b: int|
                        0 <= a < n && 0 <= b < n ==> #[trigger] m@[a][b] == stage(
                            g,
                            a,
                            b,
                            if a == i && b < j {
                                i + 1
                            } else {
                                i as int
                            },
                            i as int,
                        ),
                decreases n - j,
            {
                assert(g[i as int][j as int] == 1 || g[i as int][j as int] == -1);
                let v: i32 = get(m, i, j);
                put(m, i, j, -v);
                j += 1;
            }
        }
        assert forall|a: int, b: int| 0 <= a < n && 0 <= b < n implies #[trigger] m@[a][b] == stage(
            g,
            a,
            b,
            i + 1,
            i as int,
        ) by {}
        if get(m, 0, i) == -1 {
            let mut j: usize = 0;
            while j < n
                invariant
                    is_hadamard_grid(g),
                    n == g.len(),
                    has_shape(m@, n as int, n as int),
                    0 <= i < n,
                    0 <= j <= n,
                    col_flips(g, i as int),
                    forall|a: int, b: int|
                        0 <= a < n && 0 <= b < n ==> #[trigger] m@[a][b] == stage(
                            g,
                            a,
                            b,
                            i + 1,
                            if b == i && a < j {
                                i + 1
                            } else {
                                i as int
                            },
                        ),
                decreases n - j,
            {
                assert(g[j as int][i as int] == 1 || g[j as int][i as int] == -1);
                let v: i32 = get(m, j, i);
                put(m, j, i, -v);
                j += 1;
            }
        }
        assert forall|a: int, b: int| 0 <= a < n && 0 <= b < n implies #[trigger] m@[a][b] == stage(
            g,
            a,
            b,
            i + 1,
            i + 1,
        ) by {}
        i += 1;
    }
    assert forall|a: int| 0 <= a < n implies #[trigger] m@[a] == normalized_grid(g)[a] by {
        assert(m@[a] =~= normalized_grid(g)[a]);
    }
    assert(m@ =~= normalized_grid(g));
}

/// A Hadamard matrix.
pub struct HadamardMatrix {
    mtx: Matrix,
}

impl View for HadamardMatrix {
    type V = Seq<Seq<i32>>;

    closed spec fn view(&self) -> Seq<Seq<i32>> {
        self.mtx@
    }
}

impl HadamardMatrix {
    #[verifier::type_invariant]
    spec fn well_formed(self) -> bool {
        is_hadamard_grid(self.mtx@)
    }

    /// Whether `mtx` is a Hadamard matrix.
    pub fn is_hadamard(mtx: &Matrix) -> (yes: bool)
        ensures
            yes == is_hadamard_grid(mtx@),
    {
        let (n, m) = dims(mtx);
        if n != m || n < 1 {
            assert(n >= 1 ==> mtx@[0].len() == m);
            return false;
        }
        let mut i: usize = 0;
        while i < n
            invariant
                has_shape(mtx@, n as int, n as int),
                0 <= i <= n,
                forall|a: int, b: int|
                    0 <= a < i && 0 <= b < n ==> (#[trigger] mtx@[a][b] == 1 || mtx@[a][b] == -1),
            decreases n - i,
        {
            let mut j: usize = 0;
            while j < n
                invariant
                    has_shape(mtx@, n as int, n as int),
                    0 <= i < n,
                    0 <= j <= n,
                    forall|a: int, b: int|
                        0 <= a < i && 0 <= b < n ==> (#[trigger] mtx@[a][b] == 1 || mtx@[a][b]
                            == -1),
                    forall|b: int|
                        0 <= b < j ==> (#[trigger] mtx@[i as int][b] == 1 || mtx@[i as int][b]
                            == -1),
                decreases n - j,
            {
                let v: i32 = get(mtx, i, j);
                if v != -1 && v != 1 {
                    return false;
                }
                j += 1;
            }
            i += 1;
        }
        assert(n <= i32::MAX) by (nonlinear_arith)
            requires
                n * n * 4 <= isize::MAX,
                isize::MAX <= 0x7fff_ffff_ffff_ffff,
        ;
        let res = scaled(n as i32, identity(n));
        let t = transposed(mtx);
        let mult_res = product(mtx, &t);
        proof {
            assert forall|a: int, b: int| 0 <= a < n && 0 <= b < n implies #[trigger] mult_res@[a][b]
                == row_dot(mtx@, a, b) by {
                assert(column(t@, b) =~= mtx@[b]);
            }
            if is_orthogonal(mtx@) {
                assert forall|a: int| 0 <= a < n implies #[trigger] res@[a] == mult_res@[a] by {
                    assert forall|b: int| 0 <= b < n implies res@[a][b] == mult_res@[a][b] by {
                        assert(mult_res@[a][b] == row_dot(mtx@, a, b));
                    }
                    assert(res@[a] =~= mult_res@[a]);
                }
                assert(res@ =~= mult_res@);
            }
            if res@ == mult_res@ {
                assert forall|a: int, b: int| 0 <= a < n && 0 <= b < n implies #[trigger] row_dot(
                    mtx@,
                    a,
                    b,
                ) == (if a == b {
                    n as int
                } else {
                    0
                }) by {
                    assert(mult_res@[a][b] == row_dot(mtx@, a, b));
                    assert(res@[a][b] == mult_res@[a][b]);
                }
            }
        }
        same(&res, &mult_res)
    }

    /// A Hadamard matrix with the entries of `mtx`.
    ///
    /// Fails with `InvalidMatrix` exactly when `mtx` is not a Hadamard matrix.
    pub fn from(mtx: &Matrix) -> (res: Result<HadamardMatrix, SchemeError>)
        ensures
            is_hadamard_grid(mtx@) ==> res.is_ok() && res.unwrap()@ == mtx@,
            !is_hadamard_grid(mtx@) ==> res == Err::<HadamardMatrix, SchemeError>(
                SchemeError::InvalidMatrix,
            ),
    {
        if HadamardMatrix::is_hadamard(mtx) {
            Ok(HadamardMatrix { mtx: duplicate(mtx) })
        } else {
            Err(SchemeError::InvalidMatrix)
        }
    }
    /// Brings the matrix to its normal form, in which the first row and the
    /// first column hold nothing but 1.
    pub fn normalize(&mut self) -> (ret: &mut Self)
        ensures
            ret@ == normalized_grid(old(self)@),
            is_normal(ret@),
            *final(self) == *final(ret),
    {
        proof {
            use_type_invariant(&*self);
            lemma_normalized_is_hadamard(self.mtx@);
        }
        normalize_cells(&mut self.mtx);
        self
    }

    /// The incidence matrix of the design: the matrix without its first row
    /// and column, with 0 in place of -1.
    pub fn get_incidence(&self) -> (inc: Matrix)
        ensures
            inc@ == incidence_grid(self@),
            inc.width() == self@.len() - 1,
    {
        proof {
            use_type_invariant(self);
        }
        let (n, c) = dims(&self.mtx);
        assert(c == n) by {
            assert(self.mtx@[0].len() == c);
        }
        let d: usize = n - 1;
        assert(fits_memory(d as int, d as int)) by (nonlinear_arith)
            requires
                fits_memory(n as int, n as int),
                d == n - 1,
                n >= 1,
        ;
        let mut inc = ones(d, d);
        let ghost g = self.mtx@;
        let mut i: usize = 0;
        while i < d
            invariant
                g == self.mtx@,
                is_hadamard_grid(g),
                g.len() == d + 1,
                has_shape(inc@, d as int, d as int),
                inc.width() == d,
                0 <= i <= d,
                forall|a: int, b: int|
                    0 <= a < i && 0 <= b < d ==> #[trigger] inc@[a][b] == incidence_grid(g)[a][b],
            decreases d - i,
        {
            let mut j: usize = 0;
            while j < d
                invariant
                    g == self.mtx@,
                    is_hadamard_grid(g),
                    g.len() == d + 1,
                    has_shape(inc@, d as int, d as int),
                inc.width() == d,
                    0 <= i < d,
                    0 <= j <= d,
                    forall|a: int, b: int|
                        0 <= a < i && 0 <= b < d ==> #[trigger] inc@[a][b] == incidence_grid(
                            g,
                        )[a][b],
                    forall|b: int|
                        0 <= b < j ==> #[trigger] inc@[i as int][b] == incidence_grid(g)[i as int][b],
                decreases d - j,
            {
                assert(g[i + 1][j + 1] == 1 || g[i + 1][j + 1] == -1);
                let v: i32 = get(&self.mtx, i + 1, j + 1);
                put(&mut inc, i, j, (v + 1) / 2);
                j += 1;
            }
            i += 1;
        }
        assert forall|a: int| 0 <= a < d implies #[trigger] inc@[a] == incidence_grid(g)[a] by {
            assert(inc@[a] =~= incidence_grid(g)[a]);
        }
        assert(inc@ =~= incidence_grid(g));
        inc
    }

    /// The entries of the matrix.
    pub fn matrix(&self) -> (m: &Matrix)
        ensures
            m@ == self@,
            is_hadamard_grid(m@),
    {
        proof {
            use_type_invariant(self);
        }
        &self.mtx
    }
}

} // verus!
