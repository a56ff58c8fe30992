//! Building blocks of a graphical user interface.

use vstd::prelude::*;
use crate::draw::geometry::LIMIT;
use crate::draw::path::{PathOp, rectangle_path};

pub mod ecs;

verus! {

/// The sum of the four channels of a colour.
pub open spec fn brightness(bg: [u8; 4]) -> int {
    bg[0] + bg[1] + bg[2] + bg[3]
}

/// The colour for text on a background: opaque black where the four channels
/// of the background add up to more than 512, opaque white else.
pub fn fgcolor_from_bg(bg: [u8; 4]) -> (fg: [u8; 4])
    ensures
        brightness(bg) > 512 ==> fg@ == seq![0u8, 0u8, 0u8, 255u8],
        brightness(bg) <= 512 ==> fg@ == seq![255u8, 255u8, 255u8, 255u8],
{
    let mut sum: u32 = 0;
    let mut i: usize = 0;
    while i < 4
        invariant
            i <= 4,
            sum <= 255 * i,
            sum == (if i > 0 { bg[0] as int } else { 0 }) + (if i > 1 { bg[1] as int } else { 0 }) + (if i > 2 {
                bg[2] as int
            } else {
                0
            }) + (if i > 3 {
                bg[3] as int
            } else {
                0
            }),
        decreases 4 - i,
    {
        sum += bg[i] as u32;
        i += 1;
    }
    if sum > 512 {
        let fg: [u8; 4] = [0, 0, 0, 255];
        assert(fg@ =~= seq![0u8, 0u8, 0u8, 255u8]);
        fg
    } else {
        let fg: [u8; 4] = [255, 255, 255, 255];
        assert(fg@ =~= seq![255u8, 255u8, 255u8, 255u8]);
        fg
    }
}

/// The height of a row of the interface in pixels, unless another is set.
pub const ROW_HEIGHT: u32 = 36;

/// The path of the rectangle from `(0, top)` to `(width, bottom)`, in pixels.
fn band_path(width: u16, top: u64, bottom: u64) -> (path: [PathOp; 4])
    requires
        top <= 0x2_0000_0000,
        bottom <= 0x2_0000_0000,
    ensures
        path@ == rectangle_path(0, top as int, width as int, bottom as int),
{
    let right: i64 = (width as i64) * 65536;
    let up: i64 = (top as i64) * 65536;
    let down: i64 = (bottom as i64) * 65536;
    let path: [PathOp; 4] = [
        PathOp::Move(0, up, 0),
        PathOp::Line(right, up, 0),
        PathOp::Line(right, down, 0),
        PathOp::Line(0, down, 0),
    ];
    assert(path@ =~= rectangle_path(0, top as int, width as int, bottom as int));
    path
}

/// The background of the head of a window `width` pixels wide with rows
/// `size` pixels high: the rectangle over the full width from the top down to
/// one pixel below the first row.
pub fn head_shape(width: u16, size: u32) -> (path: [PathOp; 4])
    ensures
        path@ == rectangle_path(0, 0, width as int, size + 1),
{
    band_path(width, 0, size as u64 + 1)
}

/// The background of the page of a window `width` pixels wide with rows
/// `size` pixels high: the rectangle over the full width that takes the
/// second row.
pub fn page_shape(width: u16, size: u32) -> (path: [PathOp; 4])
    ensures
        path@ == rectangle_path(0, size as int, width as int, 2 * size),
{
    band_path(width, size as u64, 2 * (size as u64))
}

/// Where a text in the head begins and how high it is, in coordinates with
/// sixteen fractional bits: an eighth of a row to the right of `x` and below
/// the top, and three quarters of a row high.
pub fn head_text(x: i64, size: u32) -> (place: (i64, i64, i64))
    requires
        -LIMIT <= x <= LIMIT,
    ensures
        place.0 == x + size * 8192,
        place.1 == size * 8192,
        place.2 == size * 49152,
{
    let s: i64 = size as i64;
    (x + s * 8192, s * 8192, s * 49152)
}

/// Where a text in the page begins and how high it is, in coordinates with
/// sixteen fractional bits: an eighth of a row to the right of `x` and below
/// the top of the second row, and three quarters of a row high.
pub fn page_text(x: i64, size: u32) -> (place: (i64, i64, i64))
    requires
        -LIMIT <= x <= LIMIT,
    ensures
        place.0 == x + size * 8192,
        place.1 == size * 73728,
        place.2 == size * 49152,
{
    let s: i64 = size as i64;
    (x + s * 8192, s * 73728, s * 49152)
}

} // verus!
