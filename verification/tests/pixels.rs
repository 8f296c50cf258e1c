use orbitalz::pixel::Pixel;

fn float_blend(base: Pixel, top: Pixel) -> Pixel {
    let max = 255.0f32;
    let (br, bg, bb, ba) = (
        base.r as f32 / max,
        base.g as f32 / max,
        base.b as f32 / max,
        base.a as f32 / max,
    );
    let (tr, tg, tb, ta) = (
        top.r as f32 / max,
        top.g as f32 / max,
        top.b as f32 / max,
        top.a as f32 / max,
    );
    let alpha = ba + ta - ba * ta;
    let r = (tr * ta + br * ba * (1.0 - ta)) / alpha;
    let g = (tg * ta + bg * ba * (1.0 - ta)) / alpha;
    let b = (tb * ta + bb * ba * (1.0 - ta)) / alpha;
    Pixel::new((max * r) as u8, (max * g) as u8, (max * b) as u8, (max * alpha) as u8)
}

#[test]
fn transparent_is_clear_black() {
    assert_eq!(Pixel::transparent(), Pixel { r: 0, g: 0, b: 0, a: 0 });
}

#[test]
fn new_sets_channels_in_order() {
    let p = Pixel::new(1, 2, 3, 4);
    assert_eq!((p.r, p.g, p.b, p.a), (1, 2, 3, 4));
}

#[test]
fn clear_top_leaves_base() {
    let base = Pixel::new(10, 20, 30, 200);
    let top = Pixel::new(250, 240, 230, 0);
    assert_eq!(base.blend(top), base);
}

#[test]
fn opaque_top_replaces_base() {
    let base = Pixel::new(10, 20, 30, 200);
    let top = Pixel::new(250, 240, 230, 255);
    assert_eq!(base.blend(top), top);
}

#[test]
fn opaque_top_replaces_transparent_canvas() {
    let top = Pixel::new(7, 8, 9, 255);
    assert_eq!(Pixel::transparent().blend(top), top);
}

#[test]
fn half_transparent_top_mixes_with_base() {
    let base = Pixel::new(0, 0, 255, 255);
    let top = Pixel::new(255, 0, 0, 128);
    let mixed = base.blend(top);
    assert_ne!(mixed, base);
    assert_ne!(mixed, top);
    assert_eq!(mixed, float_blend(base, top));
    assert_eq!(mixed, Pixel::new(128, 0, 127, 254));
}

#[test]
fn faint_top_over_faint_base_accumulates_alpha() {
    let base = Pixel::new(100, 100, 100, 100);
    let top = Pixel::new(200, 200, 200, 100);
    let mixed = base.blend(top);
    assert_eq!(mixed, float_blend(base, top));
    assert_eq!(mixed, Pixel::new(162, 162, 162, 160));
}

#[test]
fn blend_is_repeatable() {
    let base = Pixel::new(12, 34, 56, 78);
    let top = Pixel::new(90, 123, 45, 67);
    assert_eq!(base.blend(top), base.blend(top));
}
