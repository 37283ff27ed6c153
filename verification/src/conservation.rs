//! How much smoke a storey holds, and that diffusion neither makes nor,
//! rounding apart, loses any of it where the smoke is away from walls and
//! from the rim of the field.

use vstd::prelude::*;
use crate::plan::{has_shape, width};
use crate::smoke::{density_at, diffused, neighbourhood_count, neighbourhood_sum, Smoke};

verus! {

/// `f(i, 0) + ... + f(i, n - 1)`.
pub open spec fn sum_row(f: spec_fn(int, int) -> int, i: int, n: int) -> int
    decreases n,
{
    if n <= 0 {
        0
    } else {
        sum_row(f, i, n - 1) + f(i, n - 1)
    }
}

/// The sum of `f` over the first `m` rows of `n` cells.
pub open spec fn sum_grid(f: spec_fn(int, int) -> int, m: int, n: int) -> int
    decreases m,
{
    if m <= 0 {
        0
    } else {
        sum_grid(f, m - 1, n) + sum_row(f, m - 1, n)
    }
}

/// The smoke that `field` holds, all cells together.
pub open spec fn total_density(field: Seq<Vec<Smoke>>) -> int {
    sum_grid(|i: int, j: int| density_at(field, i, j), field.len() as int, width(field) as int)
}

/// What the rounding of one diffusion step of `field` loses, in fifths: the
/// remainders that are left where the sum of a neighbourhood is divided by 5.
pub open spec fn rounding_loss(field: Seq<Vec<Smoke>>) -> int {
    sum_grid(
        |i: int, j: int| neighbourhood_sum(field, i, j) % 5,
        field.len() as int,
        width(field) as int,
    )
}

/// Whether smoke can enter the cell `(i, j)` and all four cells beside it.
pub open spec fn inner(field: Seq<Vec<Smoke>>, i: int, j: int) -> bool {
    neighbourhood_count(field, i, j) == 5
}

/// Whether the smoke of `field` is away from walls and from the rim: smoke
/// can enter every cell that holds smoke, every cell beside such a cell, and
/// every cell beside those.
pub open spec fn smoke_is_inside(field: Seq<Vec<Smoke>>) -> bool {
    forall|i: int, j: int|
        #[trigger] density_at(field, i, j) > 0 ==> inner(field, i, j) && inner(field, i - 1, j)
            && inner(field, i + 1, j) && inner(field, i, j - 1) && inner(field, i, j + 1)
}

/// Two functions that agree on the first `n` cells of row `i` have the same
/// sum there.
proof fn lemma_sum_row_agrees(f: spec_fn(int, int) -> int, g: spec_fn(int, int) -> int, i: int, n: int)
    requires
        forall|j: int| 0 <= j < n ==> #[trigger] f(i, j) == g(i, j),
    ensures
        sum_row(f, i, n) == sum_row(g, i, n),
    decreases n,
{
    if n > 0 {
        lemma_sum_row_agrees(f, g, i, n - 1);
    }
}

/// The sum over a row of `a * f + g` is `a` times that of `f` plus that of `g`.
proof fn lemma_sum_row_linear(
    h: spec_fn(int, int) -> int,
    a: int,
    f: spec_fn(int, int) -> int,
    g: spec_fn(int, int) -> int,
    i: int,
    n: int,
)
    requires
        forall|j: int| 0 <= j < n ==> #[trigger] h(i, j) == a * f(i, j) + g(i, j),
    ensures
        sum_row(h, i, n) == a * sum_row(f, i, n) + sum_row(g, i, n),
    decreases n,
{
    if n > 0 {
        lemma_sum_row_linear(h, a, f, g, i, n - 1);
        assert(a * (sum_row(f, i, n - 1) + f(i, n - 1)) == a * sum_row(f, i, n - 1) + a * f(i, n - 1))
            by (nonlinear_arith);
    } else {
        assert(a * 0 == 0);
    }
}

/// The sum over a grid of `a * f + g` is `a` times that of `f` plus that of `g`.
proof fn lemma_sum_grid_linear(
    h: spec_fn(int, int) -> int,
    a: int,
    f: spec_fn(int, int) -> int,
    g: spec_fn(int, int) -> int,
    m: int,
    n: int,
)
    requires
        forall|i: int, j: int| 0 <= i < m && 0 <= j < n ==> #[trigger] h(i, j) == a * f(i, j) + g(i, j),
    ensures
        sum_grid(h, m, n) == a * sum_grid(f, m, n) + sum_grid(g, m, n),
    decreases m,
{
    if m > 0 {
        lemma_sum_grid_linear(h, a, f, g, m - 1, n);
        lemma_sum_row_linear(h, a, f, g, m - 1, n);
        assert(a * (sum_grid(f, m - 1, n) + sum_row(f, m - 1, n)) == a * sum_grid(f, m - 1, n) + a
            * sum_row(f, m - 1, n)) by (nonlinear_arith);
    } else {
        assert(a * 0 == 0);
    }
}

/// A row on which `f` is 0 sums to 0.
proof fn lemma_sum_row_zero(f: spec_fn(int, int) -> int, i: int, n: int)
    requires
        forall|j: int| 0 <= j < n ==> #[trigger] f(i, j) == 0,
    ensures
        sum_row(f, i, n) == 0,
    decreases n,
{
    if n > 0 {
        lemma_sum_row_zero(f, i, n - 1);
    }
}

/// The sum over the rows `from` to `from + m - 1` of `f`, each of `n` cells.
spec fn sum_rows_from(f: spec_fn(int, int) -> int, from: int, m: int, n: int) -> int
    decreases m,
{
    if m <= 0 {
        0
    } else {
        sum_rows_from(f, from, m - 1, n) + sum_row(f, from + m - 1, n)
    }
}

/// A function that takes on row `i` what `f` takes on row `i + by` sums over
/// the first `m` rows to what `f` sums to over the rows from `by` on.
proof fn lemma_rows_shifted(
    g: spec_fn(int, int) -> int,
    f: spec_fn(int, int) -> int,
    by: int,
    m: int,
    n: int,
)
    requires
        forall|i: int, j: int| 0 <= i < m && 0 <= j < n ==> #[trigger] g(i, j) == f(i + by, j),
    ensures
        sum_grid(g, m, n) == sum_rows_from(f, by, m, n),
    decreases m,
{
    if m > 0 {
        lemma_rows_shifted(g, f, by, m - 1, n);
        let up = |i: int, j: int| f(i + by, j);
        assert forall|j: int| 0 <= j < n implies #[trigger] g(m - 1, j) == up(m - 1, j) by {}
        lemma_sum_row_agrees(g, up, m - 1, n);
        lemma_row_of_shifted(f, by, m - 1, n);
    }
}

/// Row `i` of the function that takes there what `f` takes on row `i + by`
/// sums to what row `i + by` of `f` sums to.
proof fn lemma_row_of_shifted(f: spec_fn(int, int) -> int, by: int, i: int, n: int)
    ensures
        sum_row(|a: int, b: int| f(a + by, b), i, n) == sum_row(f, i + by, n),
    decreases n,
{
    if n > 0 {
        lemma_row_of_shifted(f, by, i, n - 1);
    }
}

/// The rows from 0 on are the first rows.
proof fn lemma_rows_from_zero(f: spec_fn(int, int) -> int, m: int, n: int)
    ensures
        sum_rows_from(f, 0, m, n) == sum_grid(f, m, n),
    decreases m,
{
    if m > 0 {
        lemma_rows_from_zero(f, m - 1, n);
    }
}

/// Moving the window of `m` rows one row down takes the first row out and
/// the row behind the last in.
proof fn lemma_rows_window(f: spec_fn(int, int) -> int, from: int, m: int, n: int)
    requires
        m >= 0,
    ensures
        sum_rows_from(f, from + 1, m, n) + sum_row(f, from, n) == sum_rows_from(f, from, m, n) + sum_row(
            f,
            from + m,
            n,
        ),
    decreases m,
{
    if m > 0 {
        lemma_rows_window(f, from, m - 1, n);
    }
}

/// The sum over the cells `from` to `from + n - 1` of row `i` of `f`.
spec fn sum_cells_from(f: spec_fn(int, int) -> int, i: int, from: int, n: int) -> int
    decreases n,
{
    if n <= 0 {
        0
    } else {
        sum_cells_from(f, i, from, n - 1) + f(i, from + n - 1)
    }
}

/// A function that takes on cell `j` what `f` takes on cell `j + by` sums
/// over the first `n` cells of a row to what `f` sums to over the cells from
/// `by` on.
proof fn lemma_cells_shifted(
    g: spec_fn(int, int) -> int,
    f: spec_fn(int, int) -> int,
    by: int,
    i: int,
    n: int,
)
    requires
        forall|j: int| 0 <= j < n ==> #[trigger] g(i, j) == f(i, j + by),
    ensures
        sum_row(g, i, n) == sum_cells_from(f, i, by, n),
    decreases n,
{
    if n > 0 {
        lemma_cells_shifted(g, f, by, i, n - 1);
    }
}

/// The cells from 0 on are the first cells.
proof fn lemma_cells_from_zero(f: spec_fn(int, int) -> int, i: int, n: int)
    ensures
        sum_cells_from(f, i, 0, n) == sum_row(f, i, n),
    decreases n,
{
    if n > 0 {
        lemma_cells_from_zero(f, i, n - 1);
    }
}

/// Moving the window of `n` cells one cell on takes the first cell out and
/// the cell behind the last in.
proof fn lemma_cells_window(f: spec_fn(int, int) -> int, i: int, from: int, n: int)
    requires
        n >= 0,
    ensures
        sum_cells_from(f, i, from + 1, n) + f(i, from) == sum_cells_from(f, i, from, n) + f(i, from + n),
    decreases n,
{
    if n > 0 {
        lemma_cells_window(f, i, from, n - 1);
    }
}

/// A function that is `f` moved by one row, where `f` is 0 on the rows that
/// the move takes out of and into the window, sums to what `f` sums to.
proof fn lemma_moved_rows(g: spec_fn(int, int) -> int, f: spec_fn(int, int) -> int, by: int,
    m: int, n: int)
    requires
        m >= 0,
        by == 1 || by == -1,
        forall|i: int, j: int| 0 <= i < m && 0 <= j < n ==> #[trigger] g(i, j) == f(i + by, j),
        forall|i: int, j: int| i <= 0 || i >= m - 1 ==> #[trigger] f(i, j) == 0,
    ensures
        sum_grid(g, m, n) == sum_grid(f, m, n),
{
    lemma_rows_shifted(g, f, by, m, n);
    lemma_rows_from_zero(f, m, n);
    if by == 1 {
        lemma_rows_window(f, 0, m, n);
        lemma_sum_row_zero(f, 0, n);
        lemma_sum_row_zero(f, m, n);
    } else {
        lemma_rows_window(f, -1, m, n);
        lemma_sum_row_zero(f, -1, n);
        lemma_sum_row_zero(f, m - 1, n);
    }
}

/// A function that is `f` moved by one cell along the rows, where `f` is 0
/// on the cells that the move takes out of and into the window, sums to
/// what `f` sums to.
proof fn lemma_moved_cells(g: spec_fn(int, int) -> int, f: spec_fn(int, int) -> int, by: int,
    m: int, n: int)
    requires
        n >= 0,
        by == 1 || by == -1,
        forall|i: int, j: int| 0 <= i < m && 0 <= j < n ==> #[trigger] g(i, j) == f(i, j + by),
        forall|i: int, j: int| j <= 0 || j >= n - 1 ==> #[trigger] f(i, j) == 0,
    ensures
        sum_grid(g, m, n) == sum_grid(f, m, n),
    decreases m,
{
    if m > 0 {
        lemma_moved_cells(g, f, by, m - 1, n);
        let i = m - 1;
        lemma_cells_shifted(g, f, by, i, n);
        lemma_cells_from_zero(f, i, n);
        assert(f(i, -1) == 0 && f(i, n) == 0);
        assert(f(i, 0) == 0 && f(i, n - 1) == 0);
        if by == 1 {
            lemma_cells_window(f, i, 0, n);
        } else {
            lemma_cells_window(f, i, -1, n);
        }
    }
}

/// Diffusion keeps the smoke. Where the smoke of a field is away from walls
/// and from the rim, one diffusion step leaves the sum of all densities as
/// it was, but for what the rounding of the means takes: five times the
/// smoke after the step, plus the remainders of the divisions by 5, is
/// five times the smoke before. So the smoke never grows, and where every
/// neighbourhood sums to a multiple of 5 it stays the same.
pub proof fn lemma_diffusion_keeps_smoke(before: Seq<Vec<Smoke>>, after: Seq<Vec<Smoke>>)
    requires
        has_shape(before, before.len(), width(before)),
        has_shape(after, before.len(), width(before)),
        forall|i: int, j: int|
            0 <= i < before.len() && 0 <= j < width(before) ==> #[trigger] after[i][j] == diffused(
                before,
                i,
                j,
            ),
        smoke_is_inside(before),
    ensures
        5 * total_density(after) + rounding_loss(before) == 5 * total_density(before),
        0 <= rounding_loss(before),
        total_density(after) <= total_density(before),
        rounding_loss(before) == 0 ==> total_density(after) == total_density(before),
{
    let m = before.len() as int;
    let n = width(before) as int;
    assert(width(after) == width(before));
    let d = |i: int, j: int| density_at(before, i, j);
    let e = |i: int, j: int| density_at(after, i, j);
    let r = |i: int, j: int| neighbourhood_sum(before, i, j) % 5;
    let s = |i: int, j: int| neighbourhood_sum(before, i, j);
    let up = |i: int, j: int| density_at(before, i - 1, j);
    let down = |i: int, j: int| density_at(before, i + 1, j);
    let left = |i: int, j: int| density_at(before, i, j - 1);
    let right = |i: int, j: int| density_at(before, i, j + 1);
    // the rim holds no smoke
    assert forall|i: int, j: int| (i <= 0 || i >= m - 1 || j <= 0 || j >= n - 1)
        implies #[trigger] density_at(
        before,
        i,
        j,
    ) == 0 by {
        if density_at(before, i, j) > 0 {
            assert(inner(before, i - 1, j) && inner(before, i + 1, j) && inner(before, i, j - 1)
                && inner(before, i, j + 1));
        }
    }
    // every cell takes a fifth of its neighbourhood
    assert forall|i: int, j: int| 0 <= i < m && 0 <= j < n implies #[trigger] s(i, j) == 5 * e(i, j) + r(
        i,
        j,
    ) by {
        let sum = neighbourhood_sum(before, i, j);
        assert(after[i][j] == diffused(before, i, j));
        if sum > 0 {
            assert(inner(before, i, j)) by {
                if density_at(before, i, j) > 0 {
                } else if density_at(before, i - 1, j) > 0 {
                    assert(inner(before, i - 1 + 1, j));
                } else if density_at(before, i + 1, j) > 0 {
                    assert(inner(before, i + 1 - 1, j));
                } else if density_at(before, i, j - 1) > 0 {
                    assert(inner(before, i, j - 1 + 1));
                } else {
                    assert(density_at(before, i, j + 1) > 0);
                    assert(inner(before, i, j + 1 - 1));
                }
            }
            assert(density_at(after, i, j) == sum / 5);
        } else {
            assert(sum == 0);
            assert(density_at(after, i, j) == 0) by {
                if before[i][j] is Diffusible {
                    let count = neighbourhood_count(before, i, j);
                    assert(1 <= count <= 5);
                    assert(0int / count == 0) by (nonlinear_arith)
                        requires
                            1 <= count,
                    ;
                }
            }
        }
    }
    // so five times the smoke after, plus the remainders, is the sum of the neighbourhoods
    lemma_sum_grid_linear(s, 5, e, r, m, n);
    // which counts every cell five times
    lemma_moved_rows(up, d, -1, m, n);
    lemma_moved_rows(down, d, 1, m, n);
    lemma_moved_cells(left, d, -1, m, n);
    lemma_moved_cells(right, d, 1, m, n);
    let a1 = |i: int, j: int| d(i, j) + up(i, j);
    let a2 = |i: int, j: int| a1(i, j) + down(i, j);
    let a3 = |i: int, j: int| a2(i, j) + left(i, j);
    lemma_sum_grid_linear(a1, 1, d, up, m, n);
    lemma_sum_grid_linear(a2, 1, a1, down, m, n);
    lemma_sum_grid_linear(a3, 1, a2, left, m, n);
    lemma_sum_grid_linear(s, 1, a3, right, m, n);
    assert(sum_grid(s, m, n) == 5 * sum_grid(d, m, n));
    // the remainders are not negative
    lemma_loss_not_negative(before, m, n);
}

/// The remainders that the rounding leaves are not negative.
proof fn lemma_loss_not_negative(field: Seq<Vec<Smoke>>, m: int, n: int)
    ensures
        0 <= sum_grid(|i: int, j: int| neighbourhood_sum(field, i, j) % 5, m, n),
    decreases m,
{
    let r = |i: int, j: int| neighbourhood_sum(field, i, j) % 5;
    if m > 0 {
        lemma_loss_not_negative(field, m - 1, n);
        lemma_row_loss_not_negative(field, m - 1, n);
    }
}

/// The remainders that the rounding leaves in a row are not negative.
proof fn lemma_row_loss_not_negative(field: Seq<Vec<Smoke>>, i: int, n: int)
    ensures
        0 <= sum_row(|a: int, b: int| neighbourhood_sum(field, a, b) % 5, i, n),
    decreases n,
{
    if n > 0 {
        lemma_row_loss_not_negative(field, i, n - 1);
    }
}

} // verus!
