//! Rasters: rectangular grids of RGBA samples, stored row by row.

use vstd::prelude::*;
use crate::pixel::{over, Pixel};

verus! {

/// A raster image of `width` by `height` samples in row-major order.
#[derive(Clone, Debug, PartialEq, Eq)]
pub struct Raster {
    width: u32,
    height: u32,
    pixels: Vec<Pixel>,
}

impl View for Raster {
    type V = Seq<Pixel>;

    /// The samples, row after row, top row first.
    closed spec fn view(&self) -> Seq<Pixel> {
        self.pixels@
    }
}

/// Channel `c` of a sample, in the order red, green, blue, alpha.
pub open spec fn channel(p: Pixel, c: int) -> u8 {
    if c == 0 {
        p.r
    } else if c == 1 {
        p.g
    } else if c == 2 {
        p.b
    } else {
        p.a
    }
}

/// The samples written out as bytes, four per sample.
pub open spec fn rgba_bytes(pixels: Seq<Pixel>) -> Seq<u8> {
    Seq::new(4 * pixels.len(), |k: int| channel(pixels[k / 4], k % 4))
}

/// The samples that a run of bytes holds, four bytes per sample; bytes
/// beyond the last full group of four are not part of any sample.
pub open spec fn pixels_of(bytes: Seq<u8>) -> Seq<Pixel> {
    Seq::new(
        (bytes.len() / 4) as nat,
        |i: int| (Pixel { r: bytes[4 * i], g: bytes[4 * i + 1], b: bytes[4 * i + 2], a: bytes[4 * i + 3] }),
    )
}

impl Raster {
    /// Number of samples per row.
    pub closed spec fn spec_width(&self) -> u32 {
        self.width
    }

    /// Number of rows.
    pub closed spec fn spec_height(&self) -> u32 {
        self.height
    }

    /// A raster holds exactly one sample per grid position.
    pub open spec fn wf(&self) -> bool {
        self@.len() == self.spec_width() * self.spec_height()
    }

    /// Two rasters cover the same grid.
    pub open spec fn same_size(&self, other: &Raster) -> bool {
        self.spec_width() == other.spec_width() && self.spec_height() == other.spec_height()
    }

    pub fn width(&self) -> (w: u32)
        ensures
            w == self.spec_width(),
    {
        self.width
    }

    pub fn height(&self) -> (h: u32)
        ensures
            h == self.spec_height(),
    {
        self.height
    }

    /// Number of samples held.
    pub fn len(&self) -> (n: usize)
        ensures
            n == self@.len(),
    {
        self.pixels.len()
    }

    /// Whether `other` covers the same grid as this raster.
    pub fn has_size_of(&self, other: &Raster) -> (same: bool)
        ensures
            same == self.same_size(other),
    {
        self.width == other.width && self.height == other.height
    }

    /// Builds a raster from its samples; `None` unless there is exactly one
    /// sample per grid position.
    pub fn new(width: u32, height: u32, pixels: Vec<Pixel>) -> (made: Option<Raster>)
        ensures
            made is Some <==> pixels@.len() == width * height,
            made matches Some(r) ==> r.wf() && r.spec_width() == width && r.spec_height() == height
                && r@ == pixels@,
    {
        assert(width * height <= 0xFFFF_FFFF * 0xFFFF_FFFF) by (nonlinear_arith)
            requires
                0 <= width <= 0xFFFF_FFFF,
                0 <= height <= 0xFFFF_FFFF,
        ;
        let want: u64 = (width as u64) * (height as u64);
        if (pixels.len() as u64) == want {
            Some(Raster { width, height, pixels })
        } else {
            None
        }
    }

    /// The sample in column `x` of row `y`, or `None` outside the grid.
    pub fn pixel(&self, x: u32, y: u32) -> (found: Option<Pixel>)
        requires
            self.wf(),
        ensures
            found is Some <==> x < self.spec_width() && y < self.spec_height(),
            found matches Some(p) ==> p == self@[y * self.spec_width() + x],
    {
        if x < self.width && y < self.height {
            let col: usize = x as usize;
            let row: usize = y as usize;
            let stride: usize = self.width as usize;
            let count: usize = self.pixels.len();
            proof {
                let rows = self.height as int;
                let total = count as int;
                assert(total == stride * rows);
                assert(0 <= row * stride && row * stride + col < total) by (nonlinear_arith)
                    requires
                        0 <= col < stride,
                        0 <= row < rows,
                        total == stride * rows,
                ;
            }
            let at: usize = row * stride + col;
            Some(self.pixels[at])
        } else {
            None
        }
    }

    /// The sample at position `i` in row-major order, or `None` where the
    /// raster has no such position.
    pub fn sample(&self, i: usize) -> (found: Option<Pixel>)
        ensures
            found is Some <==> i < self@.len(),
            found matches Some(p) ==> p == self@[i as int],
    {
        if i < self.pixels.len() {
            Some(self.pixels[i])
        } else {
            None
        }
    }

    /// The raster of width and height zero.
    pub fn empty() -> (r: Raster)
        ensures
            r.wf(),
            r.spec_width() == 0,
            r.spec_height() == 0,
            r@.len() == 0,
    {
        Raster { width: 0, height: 0, pixels: Vec::new() }
    }

    /// A raster with every sample equal to `fill`; `None` when the grid has
    /// more positions than a vector can index.
    pub fn filled(width: u32, height: u32, fill: Pixel) -> (made: Option<Raster>)
        ensures
            made is Some <==> width * height <= usize::MAX,
            made matches Some(r) ==> r.wf() && r.spec_width() == width && r.spec_height() == height
                && r@ == Seq::new((width * height) as nat, |i: int| fill),
    {
        assert(0 <= width * height <= 0xFFFF_FFFF * 0xFFFF_FFFF) by (nonlinear_arith)
            requires
                0 <= width <= 0xFFFF_FFFF,
                0 <= height <= 0xFFFF_FFFF,
        ;
        let want: u64 = (width as u64) * (height as u64);
        if want > usize::MAX as u64 {
            return None;
        }
        let n: usize = want as usize;
        let mut pixels: Vec<Pixel> = Vec::new();
        let mut i: usize = 0;
        while i < n
            invariant
                i <= n,
                pixels@ == Seq::new(i as nat, |k: int| fill),
            decreases n - i,
        {
            pixels.push(fill);
            i = i + 1;
            assert(pixels@ =~= Seq::new(i as nat, |k: int| fill));
        }
        Some(Raster { width, height, pixels })
    }

    /// Reads a raster from RGBA bytes, four per sample in row-major order;
    /// `None` unless there are exactly four bytes per grid position.
    pub fn from_rgba(width: u32, height: u32, bytes: &Vec<u8>) -> (made: Option<Raster>)
        ensures
            made is Some <==> bytes@.len() == 4 * (width * height),
            made matches Some(r) ==> r.wf() && r.spec_width() == width && r.spec_height() == height
                && r@ == pixels_of(bytes@),
    {
        assert(0 <= width * height <= 0xFFFF_FFFF * 0xFFFF_FFFF) by (nonlinear_arith)
            requires
                0 <= width <= 0xFFFF_FFFF,
                0 <= height <= 0xFFFF_FFFF,
        ;
        let want: u128 = 4 * ((width as u128) * (height as u128));
        if (bytes.len() as u128) != want {
            return None;
        }
        let n: usize = bytes.len() / 4;
        let mut pixels: Vec<Pixel> = Vec::new();
        let mut i: usize = 0;
        while i < n
            invariant
                i <= n,
                n == bytes@.len() / 4,
                bytes@.len() == 4 * n,
                4 * n <= usize::MAX,
                pixels@ == pixels_of(bytes@).subrange(0, i as int),
            decreases n - i,
        {
            let p = Pixel::new(bytes[4 * i], bytes[4 * i + 1], bytes[4 * i + 2], bytes[4 * i + 3]);
            pixels.push(p);
            i = i + 1;
            assert(pixels@ =~= pixels_of(bytes@).subrange(0, i as int));
        }
        assert(pixels@ =~= pixels_of(bytes@));
        Some(Raster { width, height, pixels })
    }

    /// Writes the samples out as RGBA bytes, four per sample in row-major
    /// order.
    pub fn to_rgba(&self) -> (bytes: Vec<u8>)
        ensures
            bytes@ == rgba_bytes(self@),
    {
        let n: usize = self.pixels.len();
        let mut bytes: Vec<u8> = Vec::new();
        let mut i: usize = 0;
        while i < n
            invariant
                i <= n,
                n == self.pixels@.len(),
                bytes@ == rgba_bytes(self.pixels@.subrange(0, i as int)),
            decreases n - i,
        {
            let p = self.pixels[i];
            bytes.push(p.r);
            bytes.push(p.g);
            bytes.push(p.b);
            bytes.push(p.a);
            i = i + 1;
            assert(bytes@ =~= rgba_bytes(self.pixels@.subrange(0, i as int)));
        }
        assert(self.pixels@.subrange(0, n as int) =~= self.pixels@);
        bytes
    }

    /// A fully transparent raster covering the same grid as `like`.
    pub fn blank_like(like: &Raster) -> (canvas: Raster)
        requires
            like.wf(),
        ensures
            canvas.wf(),
            canvas.same_size(like),
            canvas@ == Seq::new(like@.len(), |i: int| Pixel::clear()),
    {
        let n: usize = like.pixels.len();
        let mut pixels: Vec<Pixel> = Vec::new();
        let mut i: usize = 0;
        while i < n
            invariant
                i <= n,
                pixels@ == Seq::new(i as nat, |k: int| Pixel::clear()),
            decreases n - i,
        {
            pixels.push(Pixel::transparent());
            i = i + 1;
            assert(pixels@ =~= Seq::new(i as nat, |k: int| Pixel::clear()));
        }
        Raster { width: like.width, height: like.height, pixels }
    }

    /// Lays `top` over this raster, sample by sample, where both cover the
    /// same grid. Where they do not, nothing is written and the answer is
    /// `false`.
    pub fn lay_over(&mut self, top: &Raster) -> (laid: bool)
        requires
            old(self).wf(),
            top.wf(),
        ensures
            laid == old(self).same_size(top),
            !laid ==> *final(self) == *old(self),
            final(self).wf(),
            final(self).same_size(old(self)),
            final(self)@.len() == old(self)@.len(),
            laid ==> forall|i: int|
                0 <= i < old(self)@.len() ==> #[trigger] final(self)@[i] == over(
                    old(self)@[i],
                    top@[i],
                ),
    {
        if self.width != top.width || self.height != top.height {
            return false;
        }
        let n: usize = self.pixels.len();
        let mut i: usize = 0;
        while i < n
            invariant
                i <= n,
                n == self.pixels@.len(),
                n == top.pixels@.len(),
                n == old(self).pixels@.len(),
                self.width == old(self).width,
                self.height == old(self).height,
                forall|k: int|
                    0 <= k < i ==> #[trigger] self.pixels@[k] == over(
                        old(self).pixels@[k],
                        top.pixels@[k],
                    ),
                forall|k: int| i <= k < n ==> #[trigger] self.pixels@[k] == old(self).pixels@[k],
            decreases n - i,
        {
            let mixed = self.pixels[i].blend(top.pixels[i]);
            self.pixels.set(i, mixed);
            i = i + 1;
        }
        true
    }
}

} // verus!
