use barg::draw::path::PathOp;
use barg::gui::{head_shape, head_text, page_shape, page_text, ROW_HEIGHT};
use barg::icons::{full, half, Placement};

const ONE: i64 = 65536;

#[test]
fn head_is_one_pixel_higher_than_a_row() {
    assert_eq!(ROW_HEIGHT, 36);
    assert_eq!(
        head_shape(640, 36),
        [
            PathOp::Move(0, 0, 0),
            PathOp::Line(640 * ONE, 0, 0),
            PathOp::Line(640 * ONE, 37 * ONE, 0),
            PathOp::Line(0, 37 * ONE, 0),
        ]
    );
}

#[test]
fn page_is_the_second_row() {
    assert_eq!(
        page_shape(640, 36),
        [
            PathOp::Move(0, 36 * ONE, 0),
            PathOp::Line(640 * ONE, 36 * ONE, 0),
            PathOp::Line(640 * ONE, 72 * ONE, 0),
            PathOp::Line(0, 72 * ONE, 0),
        ]
    );
    assert_eq!(page_shape(65535, u32::MAX)[2], PathOp::Line(65535 * ONE, 2 * (u32::MAX as i64) * ONE, 0));
}

#[test]
fn text_is_inset_by_an_eighth_of_a_row() {
    // Rows of 36 pixels: 4.5 pixels in, 27 pixels high.
    assert_eq!(head_text(0, 36), (294912, 294912, 27 * ONE));
    assert_eq!(head_text(10 * ONE, 36), (10 * ONE + 294912, 294912, 27 * ONE));
    // In the page the text begins 36 + 4.5 pixels down.
    assert_eq!(page_text(0, 36), (294912, 36 * ONE + 294912, 27 * ONE));
    assert_eq!(page_text(-ONE, 8), (0, 9 * ONE, 6 * ONE));
}

#[test]
fn half_icons_on_the_left() {
    // A toolbar 48 high: margin 6, slots 18 wide.
    for x in 0..=6 {
        assert_eq!(
            half(x, 640, 48),
            Some(Placement { x: x * 18, y: 6, graphic_width: 18 })
        );
    }
}

#[test]
fn icons_on_the_right_end_at_the_edge() {
    // Slot 7 is the second of the eight slots that end at the right edge.
    assert_eq!(half(7, 640, 48), Some(Placement { x: 640 - 8 * 18 + 18, y: 6, graphic_width: 18 }));
    assert_eq!(half(13, 640, 48), Some(Placement { x: 640 - 18, y: 6, graphic_width: 18 }));
    assert_eq!(full(13, 640, 48), Some(Placement { x: 622, y: 6, graphic_width: 36 }));
}

#[test]
fn full_icons_are_as_wide_as_the_toolbar_is_high_less_the_margins() {
    assert_eq!(full(0, 640, 48), Some(Placement { x: 0, y: 6, graphic_width: 36 }));
    assert_eq!(full(3, 640, 50), Some(Placement { x: 57, y: 6, graphic_width: 38 }));
    assert_eq!(full(1, 100, 7), Some(Placement { x: 3, y: 0, graphic_width: 7 }));
}

#[test]
fn icons_that_do_not_fit_have_no_place() {
    // The group of eight slots is wider than the toolbar.
    assert_eq!(half(7, 100, 48), None);
    assert_eq!(full(9, 143, 48), None);
    assert_eq!(full(9, 144, 48), Some(Placement { x: 54, y: 6, graphic_width: 36 }));
    // The slot is past the largest number of pixels.
    assert_eq!(half(6, 640, 65535), None);
    assert_eq!(half(2, 640, 65535), Some(Placement { x: 49152, y: 8191, graphic_width: 24576 }));
    assert_eq!(half(3, 640, 65535), None);
    assert_eq!(full(65535, 65535, 48), None);
    assert_eq!(full(20, 65535, 48), None);
    assert_eq!(half(14, 65535, 48), Some(Placement { x: 65535, y: 6, graphic_width: 18 }));
    assert_eq!(half(15, 65535, 48), None);
}
