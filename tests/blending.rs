use cloth::{blend, Color};

#[test]
fn blend_color_over_itself_keeps_rgb() {
    let c: Color = [10, 200, 30, 127];
    // alpha: 127 + 127 * (1 - 127/255) = 190.75 on the 0..=255 scale
    assert_eq!(blend(c, c), [10, 200, 30, 191]);
    let half: Color = [255, 0, 0, 128];
    assert_eq!(blend(half, half), [255, 0, 0, 192]);
}

#[test]
fn blend_transparent_over_itself_is_unchanged() {
    let c: Color = [9, 8, 7, 0];
    assert_eq!(blend(c, c), c);
}

#[test]
fn blend_opaque_overwrites() {
    let new: Color = [1, 2, 3, 255];
    for old in [[0, 0, 0, 0], [255, 255, 255, 255], [40, 80, 120, 7]] {
        assert_eq!(blend(old, new), new);
    }
}

#[test]
fn blend_fully_transparent_is_no_op() {
    for old in [[0, 0, 0, 0], [255, 255, 255, 255], [40, 80, 120, 7], [5, 6, 7, 0]] {
        assert_eq!(blend(old, [200, 100, 50, 0]), old);
    }
}

#[test]
fn blend_half_red_over_transparent() {
    assert_eq!(blend([0, 0, 0, 0], [255, 0, 0, 127]), [255, 0, 0, 127]);
}

#[test]
fn blend_green_over_red_is_source_over() {
    // green' = 0.498; red' = 0.498; out' = 0.498 + 0.502 * 0.498 = 0.748
    // r = 0.498 * 0.502 / 0.748 * 255 = 85.2; g = 0.498 / 0.748 * 255 = 169.8
    assert_eq!(blend([255, 0, 0, 127], [0, 255, 0, 127]), [85, 170, 0, 191]);
}
