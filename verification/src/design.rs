//! Why the incidence matrix of a normalised Hadamard matrix is a covering
//! design: in every column, so few rows hold 0 that any set of rows as large
//! as the threshold has a row that holds 1.
//!
//! The argument counts squares. With orthogonal rows the squares of the
//! column sums add up to the square of the order. The first column of a
//! normalised matrix sums to the order, so its square takes all of that,
//! and every other column sums to 0: it holds as many 1 as -1.

use crate::hadamard_matrix::{incidence_grid, is_hadamard_grid, is_normal, is_orthogonal, row_dot};
use crate::matrix::inner_product;
use vstd::prelude::*;

verus! {

/// The sum of the first `m` entries of column `j`.
pub open spec fn col_sum(g: Seq<Seq<i32>>, j: int, m: int) -> int
    decreases m,
{
    if m <= 0 {
        0
    } else {
        col_sum(g, j, m - 1) + g[m - 1][j]
    }
}

/// How many of the first `m` entries of column `j` are -1.
pub open spec fn neg_count(g: Seq<Seq<i32>>, j: int, m: int) -> int
    decreases m,
{
    if m <= 0 {
        0
    } else {
        neg_count(g, j, m - 1) + (if g[m - 1][j] == -1 {
            1int
        } else {
            0int
        })
    }
}

/// The rows among the first `m` that hold -1 in column `j`.
pub open spec fn neg_rows(g: Seq<Seq<i32>>, j: int, m: int) -> Set<int> {
    Set::new(|i: int| 0 <= i < m && g[i][j] == -1)
}

/// The squares of the sums of the first `m` entries of the first `w`
/// columns, added up.
spec fn square_total(g: Seq<Seq<i32>>, m: int, w: int) -> int
    decreases w,
{
    if w <= 0 {
        0
    } else {
        square_total(g, m, w - 1) + col_sum(g, w - 1, m) * col_sum(g, w - 1, m)
    }
}

/// Row `r` against the column sums of the first `m` rows, over the first
/// `w` columns.
spec fn cross_total(g: Seq<Seq<i32>>, r: int, m: int, w: int) -> int
    decreases w,
{
    if w <= 0 {
        0
    } else {
        cross_total(g, r, m, w - 1) + g[r][w - 1] * col_sum(g, w - 1, m)
    }
}

/// Against the sums of no rows at all, every row gives 0.
proof fn lemma_cross_total_start(g: Seq<Seq<i32>>, r: int, w: int)
    ensures
        cross_total(g, r, 0, w) == 0,
    decreases w,
{
    if w > 0 {
        lemma_cross_total_start(g, r, w - 1);
        assert(g[r][w - 1] * col_sum(g, w - 1, 0) == 0) by (nonlinear_arith)
            requires
                col_sum(g, w - 1, 0) == 0,
        ;
    }
}

/// Taking one more row into the column sums adds the inner product of row
/// `r` with that row.
proof fn lemma_cross_total_step(g: Seq<Seq<i32>>, r: int, m: int, w: int)
    requires
        0 <= m,
    ensures
        cross_total(g, r, m + 1, w) == cross_total(g, r, m, w) + inner_product(g[r], g[m], w),
    decreases w,
{
    if w > 0 {
        lemma_cross_total_step(g, r, m, w - 1);
        let a = g[r][w - 1] as int;
        let b = g[m][w - 1] as int;
        let s = col_sum(g, w - 1, m);
        assert(col_sum(g, w - 1, m + 1) == s + b);
        assert(a * (s + b) == a * s + a * b) by (nonlinear_arith);
    }
}

/// A row is orthogonal to the sum of the rows above it.
proof fn lemma_cross_total_vanishes(g: Seq<Seq<i32>>, r: int, m: int)
    requires
        is_orthogonal(g),
        0 <= m <= r < g.len(),
    ensures
        cross_total(g, r, m, g.len() as int) == 0,
    decreases m,
{
    let n = g.len() as int;
    if m == 0 {
        lemma_cross_total_start(g, r, n);
    } else {
        lemma_cross_total_vanishes(g, r, m - 1);
        lemma_cross_total_step(g, r, m - 1, n);
        assert(row_dot(g, r, m - 1) == 0);
    }
}

/// The squares of the sums of no rows at all add up to 0.
proof fn lemma_square_total_start(g: Seq<Seq<i32>>, w: int)
    ensures
        square_total(g, 0, w) == 0,
    decreases w,
{
    if w > 0 {
        lemma_square_total_start(g, w - 1);
        assert(col_sum(g, w - 1, 0) * col_sum(g, w - 1, 0) == 0) by (nonlinear_arith)
            requires
                col_sum(g, w - 1, 0) == 0,
        ;
    }
}

/// Taking row `m` into the column sums adds twice its product with the
/// sums so far, and its squared norm.
proof fn lemma_square_total_step(g: Seq<Seq<i32>>, m: int, w: int)
    requires
        0 <= m,
    ensures
        square_total(g, m + 1, w) == square_total(g, m, w) + 2 * cross_total(g, m, m, w)
            + inner_product(g[m], g[m], w),
    decreases w,
{
    if w > 0 {
        lemma_square_total_step(g, m, w - 1);
        let b = g[m][w - 1] as int;
        let s = col_sum(g, w - 1, m);
        assert(col_sum(g, w - 1, m + 1) == s + b);
        assert((s + b) * (s + b) == s * s + 2 * (b * s) + b * b) by (nonlinear_arith);
    }
}

/// With orthogonal rows, the squares of the column sums of the first `m`
/// rows add up to `m` times the order.
proof fn lemma_square_total_value(g: Seq<Seq<i32>>, m: int)
    requires
        is_orthogonal(g),
        0 <= m <= g.len(),
    ensures
        square_total(g, m, g.len() as int) == m * g.len(),
    decreases m,
{
    let n = g.len() as int;
    if m == 0 {
        lemma_square_total_start(g, n);
    } else {
        lemma_square_total_value(g, m - 1);
        lemma_square_total_step(g, m - 1, n);
        lemma_cross_total_vanishes(g, m - 1, m - 1);
        assert(row_dot(g, m - 1, m - 1) == n);
        assert((m - 1) * n + n == m * n) by (nonlinear_arith);
    }
}

/// The squares of the first column's sum and of another column's sum are
/// part of the total.
proof fn lemma_square_total_holds(g: Seq<Seq<i32>>, m: int, j: int, w: int)
    requires
        0 < j < w,
    ensures
        square_total(g, m, w) >= col_sum(g, 0, m) * col_sum(g, 0, m) + col_sum(g, j, m) * col_sum(
            g,
            j,
            m,
        ),
    decreases w,
{
    let last = col_sum(g, w - 1, m);
    assert(last * last >= 0) by (nonlinear_arith);
    if j < w - 1 {
        lemma_square_total_holds(g, m, j, w - 1);
    } else {
        lemma_square_total_first(g, m, j);
    }
}

/// The square of the first column's sum is part of the total.
proof fn lemma_square_total_first(g: Seq<Seq<i32>>, m: int, w: int)
    requires
        0 < w,
    ensures
        square_total(g, m, w) >= col_sum(g, 0, m) * col_sum(g, 0, m),
    decreases w,
{
    if w > 1 {
        lemma_square_total_first(g, m, w - 1);
        let last = col_sum(g, w - 1, m);
        assert(last * last >= 0) by (nonlinear_arith);
    } else {
        assert(square_total(g, m, 0) == 0);
    }
}

/// A column of ones sums to its length.
proof fn lemma_first_column_sum(g: Seq<Seq<i32>>, m: int)
    requires
        is_normal(g),
        0 <= m <= g.len(),
    ensures
        col_sum(g, 0, m) == m,
    decreases m,
{
    if m > 0 {
        lemma_first_column_sum(g, m - 1);
        assert(g[m - 1][0] == 1);
    }
}

/// In a normalised Hadamard matrix every column but the first sums to 0.
pub proof fn lemma_columns_balance(g: Seq<Seq<i32>>, j: int)
    requires
        is_hadamard_grid(g),
        is_normal(g),
        0 < j < g.len(),
    ensures
        col_sum(g, j, g.len() as int) == 0,
{
    let n = g.len() as int;
    lemma_square_total_value(g, n);
    lemma_square_total_holds(g, n, j, n);
    lemma_first_column_sum(g, n);
    let s = col_sum(g, j, n);
    assert(s == 0) by (nonlinear_arith)
        requires
            n * n >= n * n + s * s,
    ;
}

/// A column of 1 and -1 sums to its length less twice the number of -1.
proof fn lemma_col_sum_counts(g: Seq<Seq<i32>>, j: int, m: int)
    requires
        is_hadamard_grid(g),
        0 <= j < g.len(),
        0 <= m <= g.len(),
    ensures
        col_sum(g, j, m) == m - 2 * neg_count(g, j, m),
    decreases m,
{
    if m > 0 {
        lemma_col_sum_counts(g, j, m - 1);
        assert(g[m - 1][j] == 1 || g[m - 1][j] == -1);
    }
}

/// The rows that hold -1 in a column are as many as `neg_count` says.
proof fn lemma_neg_rows_len(g: Seq<Seq<i32>>, j: int, m: int)
    requires
        0 <= m,
    ensures
        neg_rows(g, j, m).finite(),
        neg_rows(g, j, m).len() == neg_count(g, j, m),
    decreases m,
{
    if m == 0 {
        assert(neg_rows(g, j, m) =~= Set::<int>::empty());
    } else {
        lemma_neg_rows_len(g, j, m - 1);
        if g[m - 1][j] == -1 {
            assert(neg_rows(g, j, m) =~= neg_rows(g, j, m - 1).insert(m - 1));
        } else {
            assert(neg_rows(g, j, m) =~= neg_rows(g, j, m - 1));
        }
    }
}

/// In a normalised Hadamard matrix, distinct rows that all hold -1 in one
/// column are at most half the order.
pub proof fn lemma_few_negative_rows(g: Seq<Seq<i32>>, j: int, rows: Seq<int>)
    requires
        is_hadamard_grid(g),
        is_normal(g),
        0 < j < g.len(),
        rows.no_duplicates(),
        forall|k: int| 0 <= k < rows.len() ==> 0 <= #[trigger] rows[k] < g.len() && g[rows[k]][j] == -1,
    ensures
        2 * rows.len() <= g.len(),
{
    let n = g.len() as int;
    lemma_columns_balance(g, j);
    lemma_col_sum_counts(g, j, n);
    lemma_neg_rows_len(g, j, n);
    rows.unique_seq_to_set();
    assert(rows.to_set().subset_of(neg_rows(g, j, n))) by {
        assert forall|x: int| rows.to_set().contains(x) implies neg_rows(g, j, n).contains(x) by {
            let k = choose|k: int| 0 <= k < rows.len() && rows[k] == x;
            assert(0 <= rows[k] < n && g[rows[k]][j] == -1);
        }
    }
    vstd::set_lib::lemma_len_subset(rows.to_set(), neg_rows(g, j, n));
}

/// The incidence matrix of a Hadamard matrix is square, of order one less,
/// and holds 1 where the matrix holds 1 and 0 where it holds -1.
pub proof fn lemma_incidence_entries(g: Seq<Seq<i32>>)
    requires
        is_hadamard_grid(g),
    ensures
        crate::matrix::is_square(incidence_grid(g)),
        incidence_grid(g).len() == g.len() - 1,
        forall|a: int, b: int|
            0 <= a < g.len() - 1 && 0 <= b < g.len() - 1 ==> #[trigger] incidence_grid(g)[a][b] == (if g[a
                + 1][b + 1] == 1 {
                1i32
            } else {
                0i32
            }),
{
    assert forall|a: int, b: int| 0 <= a < g.len() - 1 && 0 <= b < g.len() - 1 implies #[trigger] incidence_grid(
        g,
    )[a][b] == (if g[a + 1][b + 1] == 1 {
        1i32
    } else {
        0i32
    }) by {
        assert(g[a + 1][b + 1] == 1 || g[a + 1][b + 1] == -1);
    }
}

} // verus!
