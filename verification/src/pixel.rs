//! RGBA samples and the blending of one sample over another.

use vstd::prelude::*;

verus! {

/// One RGBA sample: eight bits per channel, straight (not premultiplied) alpha.
#[derive(Clone, Copy, Debug, PartialEq, Eq, Structural)]
pub struct Pixel {
    pub r: u8,
    pub g: u8,
    pub b: u8,
    pub a: u8,
}

/// What `image`'s `Pixel::blend` leaves in an `Rgba<u8>` destination `base`
/// after blending a partially transparent `top` onto it. The crate computes
/// it in single-precision floating point, so it is named here, not defined.
pub uninterp spec fn blended(base: Pixel, top: Pixel) -> Pixel;

/// `top` laid over `base`: a clear `top` leaves `base` as it is, an opaque
/// `top` replaces it, and anything in between is blended.
pub open spec fn over(base: Pixel, top: Pixel) -> Pixel {
    if top.a == 0 {
        base
    } else if top.a == 255 {
        top
    } else {
        blended(base, top)
    }
}

impl Pixel {
    /// The fully transparent black sample that a fresh canvas is filled with.
    pub open spec fn clear() -> Pixel {
        Pixel { r: 0, g: 0, b: 0, a: 0 }
    }

    pub fn transparent() -> (p: Pixel)
        ensures
            p == Pixel::clear(),
    {
        Pixel { r: 0, g: 0, b: 0, a: 0 }
    }

    pub fn new(r: u8, g: u8, b: u8, a: u8) -> (p: Pixel)
        ensures
            p == (Pixel { r, g, b, a }),
    {
        Pixel { r, g, b, a }
    }

    /// Lays `top` over this sample.
    pub fn blend(self, top: Pixel) -> (out: Pixel)
        ensures
            out == over(self, top),
    {
        blend_rgba(self, top)
    }
}

/// Calls `image::Pixel::blend` on two `image::Rgba<u8>` values. Trusted: a
/// `top` with alpha 0 leaves `base` unchanged, a `top` with alpha 255
/// overwrites it, and for every other alpha the result is the named
/// floating-point blend.
#[verifier::external_body]
fn blend_rgba(base: Pixel, top: Pixel) -> (out: Pixel)
    ensures
        top.a == 0 ==> out == base,
        top.a == 255 ==> out == top,
        0 < top.a < 255 ==> out == blended(base, top),
{
    let mut under = image::Rgba([base.r, base.g, base.b, base.a]);
    image::Pixel::blend(&mut under, &image::Rgba([top.r, top.g, top.b, top.a]));
    Pixel { r: under.0[0], g: under.0[1], b: under.0[2], a: under.0[3] }
}

} // verus!
