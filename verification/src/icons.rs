//! Where the icons of a toolbar go.
//!
//! A toolbar `graphic_h` pixels high is cut into slots half as wide as it is
//! high, less a margin of an eighth of its height. The slots 0 to 6 are
//! counted from the left edge; the slots from 7 on are the slots 1, 2, ... of
//! a group of eight slots that ends at the right edge.

use vstd::prelude::*;

verus! {

/// Where an icon is drawn: its left edge, its top edge and its width, in
/// pixels.
#[derive(Clone, Copy, Debug, PartialEq, Eq, Structural)]
pub struct Placement {
    pub x: u16,
    pub y: u16,
    pub graphic_width: u16,
}

/// The margin around the icons.
pub open spec fn margin(graphic_h: int) -> int {
    graphic_h / 8
}

/// The width of a slot.
pub open spec fn advance(graphic_h: int) -> int {
    graphic_h / 2 - margin(graphic_h)
}

/// The left edge of slot `x` of a toolbar `width` pixels wide. It may lie
/// outside the toolbar.
pub open spec fn slot_left(x: int, width: int, graphic_h: int) -> int {
    if x > 6 {
        width - 8 * advance(graphic_h) + (x - 6) * advance(graphic_h)
    } else {
        x * advance(graphic_h)
    }
}

/// The left edge of a slot, where every step of the way to it is a number of
/// pixels from 0 to 65535.
pub open spec fn slot_fits(x: int, width: int, graphic_h: int) -> bool {
    if x > 6 {
        &&& 8 * advance(graphic_h) <= width
        &&& (x - 6) * advance(graphic_h) <= 65535
        &&& slot_left(x, width, graphic_h) <= 65535
    } else {
        x * advance(graphic_h) <= 65535
    }
}

/// The left edge of slot `x`, or nothing where it does not fit.
fn slot(x: u16, width: u16, graphic_h: u16) -> (left: Option<u16>)
    ensures
        left is Some <==> slot_fits(x as int, width as int, graphic_h as int),
        left is Some ==> left->Some_0 as int == slot_left(x as int, width as int, graphic_h as int),
{
    let ad: u32 = (graphic_h / 2 - graphic_h / 8) as u32;
    let (offs, n): (u32, u32) = if x > 6 {
        if 8 * ad > width as u32 {
            return None;
        }
        (width as u32 - 8 * ad, (x - 6) as u32)
    } else {
        (0, x as u32)
    };
    assert(n * ad <= 65535 * 65535) by (nonlinear_arith)
        requires
            n <= 65535,
            ad <= 65535,
    ;
    let step: u32 = n * ad;
    if step > 65535 || offs + step > 65535 {
        None
    } else {
        Some((offs + step) as u16)
    }
}

/// The place of an icon half as wide as the toolbar is high, less the
/// margin, in slot `x`.
pub fn half(x: u16, width: u16, graphic_h: u16) -> (place: Option<Placement>)
    ensures
        place is Some <==> slot_fits(x as int, width as int, graphic_h as int),
        place is Some ==> place->Some_0 == (Placement {
            x: slot_left(x as int, width as int, graphic_h as int) as u16,
            y: margin(graphic_h as int) as u16,
            graphic_width: advance(graphic_h as int) as u16,
        }),
{
    let margin: u16 = graphic_h / 8;
    match slot(x, width, graphic_h) {
        Some(left) => Some(Placement { x: left, y: margin, graphic_width: graphic_h / 2 - margin }),
        None => None,
    }
}

/// The place of an icon as wide as the toolbar is high, less the margin on
/// both sides, in slot `x`.
pub fn full(x: u16, width: u16, graphic_h: u16) -> (place: Option<Placement>)
    ensures
        place is Some <==> slot_fits(x as int, width as int, graphic_h as int),
        place is Some ==> place->Some_0 == (Placement {
            x: slot_left(x as int, width as int, graphic_h as int) as u16,
            y: margin(graphic_h as int) as u16,
            graphic_width: (graphic_h - 2 * margin(graphic_h as int)) as u16,
        }),
{
    let margin: u16 = graphic_h / 8;
    match slot(x, width, graphic_h) {
        Some(left) => Some(Placement { x: left, y: margin, graphic_width: graphic_h - margin * 2 }),
        None => None,
    }
}

} // verus!
