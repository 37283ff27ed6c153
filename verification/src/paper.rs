//! Where the cells of a storey lie on the drawing board.
//!
//! Lengths are millionths of a pixel. The board is centred on the origin;
//! x grows to the right and y upwards, so that row 0 lies at the top.

use vstd::prelude::*;

verus! {

/// `value` held within what an `i64` can hold.
pub open spec fn held(value: int) -> i64 {
    if value > i64::MAX {
        i64::MAX
    } else if value < i64::MIN {
        i64::MIN
    } else {
        value as i64
    }
}

/// The x of the middle of a cell in column `j`, for cells of `element_size`
/// on a board that is `width` wide.
pub open spec fn x_of(element_size: u64, j: usize, width: u64) -> int {
    element_size / 2 + j * element_size - width / 2
}

/// The y of the middle of a cell in row `i`, for cells of `element_size`
/// on a board that is `height` high.
pub open spec fn y_of(element_size: u64, i: usize, height: u64) -> int {
    -(element_size / 2) - i * element_size + height / 2
}

/// How far the near edge of the board is from the middle of the cell number
/// `n` of a row or column, counted from that edge: an exact number that
/// fits in a `u128`.
fn offset(element_size: u64, n: usize) -> (offset: u128)
    ensures
        offset == element_size / 2 + n * element_size,
{
    assert(n * element_size <= 0xffff_ffff_ffff_ffff * 0xffff_ffff_ffff_ffff) by (nonlinear_arith)
        requires
            0 <= n <= 0xffff_ffff_ffff_ffff,
            0 <= element_size <= 0xffff_ffff_ffff_ffff,
    ;
    (element_size / 2) as u128 + (n as u128) * (element_size as u128)
}

/// The x of the middle of a cell in column `j`, held within what can be held.
pub fn get_x(element_size: u64, j: usize, width: u64) -> (x: i64)
    ensures
        x == held(x_of(element_size, j, width)),
{
    let right = offset(element_size, j);
    let half = (width / 2) as u128;
    if right >= half {
        let x = right - half;
        if x > i64::MAX as u128 {
            i64::MAX
        } else {
            x as i64
        }
    } else {
        -((half - right) as i64)
    }
}

/// The y of the middle of a cell in row `i`, held within what can be held.
pub fn get_y(element_size: u64, i: usize, height: u64) -> (y: i64)
    ensures
        y == held(y_of(element_size, i, height)),
{
    let down = offset(element_size, i);
    let half = (height / 2) as u128;
    if half >= down {
        (half - down) as i64
    } else {
        let y = down - half;
        if y > i64::MAX as u128 {
            i64::MIN
        } else {
            -(y as i64)
        }
    }
}

} // verus!
