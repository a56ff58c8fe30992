use barg::draw::composite::{composite, over};

#[test]
fn transparent_source_keeps_an_opaque_destination() {
    for r in [0u8, 1, 77, 255] {
        let dst = [r, 200, 13, 255];
        assert_eq!(composite(255, [9, 8, 7, 0], dst), dst);
        assert_eq!(over([9, 8, 7, 0], dst), dst);
    }
}

#[test]
fn transparent_source_keeps_a_clear_destination() {
    assert_eq!(composite(255, [9, 8, 7, 0], [0, 0, 0, 0]), [0, 0, 0, 0]);
    assert_eq!(composite(255, [9, 8, 7, 0], [0, 0, 0, 90]), [0, 0, 0, 90]);
}

#[test]
fn transparent_source_over_a_colour_without_alpha_clears_it() {
    assert_eq!(composite(255, [9, 8, 7, 0], [5, 5, 5, 0]), [0, 0, 0, 0]);
}

#[test]
fn transparent_source_rounds_a_translucent_destination() {
    // 100 * 128 / 255 = 50, and 50 * 256 / 128 = 100; 3 * 128 / 255 = 1, and
    // 1 * 256 / 128 = 2; 3 * 10 / 255 = 0.
    assert_eq!(composite(255, [9, 8, 7, 0], [100, 3, 0, 128]), [100, 2, 0, 128]);
    assert_eq!(composite(255, [9, 8, 7, 0], [3, 3, 3, 10]), [0, 0, 0, 10]);
}

#[test]
fn opaque_source_with_full_coverage_replaces_the_destination() {
    for dst in [[0u8, 0, 0, 0], [1, 2, 3, 4], [255, 255, 255, 255], [10, 200, 30, 128]] {
        for src in [[255u8, 0, 0, 255], [0, 0, 0, 255], [12, 34, 56, 255]] {
            assert_eq!(composite(255, src, dst), src);
        }
    }
}

#[test]
fn coverage_scales_the_alpha_of_the_source() {
    // Alpha 255 * 128 / 255 = 128 over nothing: the colour with that alpha.
    assert_eq!(composite(128, [255, 0, 0, 255], [0, 0, 0, 0]), [255, 0, 0, 128]);
    // No coverage is a transparent source.
    assert_eq!(composite(0, [255, 0, 0, 255], [0, 0, 255, 255]), [0, 0, 255, 255]);
}

#[test]
fn half_red_over_opaque_blue() {
    // Source alpha 128: red 128, blue 255 * 127 / 255 = 127, alpha 128 + 127.
    assert_eq!(over([255, 0, 0, 128], [0, 0, 255, 255]), [128, 0, 127, 255]);
}

#[test]
fn half_white_over_half_black() {
    // Alpha 128 + (128 * 127 / 255 = 63) = 191; white 128 * 256 / 191 = 171.
    assert_eq!(over([255, 255, 255, 128], [0, 0, 0, 128]), [171, 171, 171, 191]);
}
