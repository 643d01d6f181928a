use vstd::prelude::*;

use crate::clamp::{clamp_i64, clamped};

verus! {

/// An 8-bit RGB raster stored row by row from the top, three bytes per
/// pixel, as image decoders hand it out. It backs the image texture.
#[derive(Debug)]
pub struct ImageData {
    width: u32,
    height: u32,
    pixels: Vec<u8>,
}

/// Offset of the first byte of pixel `(x, y)` in a raster `width` wide.
pub open spec fn pixel_offset(width: int, x: int, y: int) -> int {
    3 * (y * width + x)
}

impl ImageData {
    #[verifier::type_invariant]
    spec fn inv(self) -> bool {
        &&& self.width >= 1
        &&& self.height >= 1
        &&& self.pixels@.len() == 3 * (self.width as int) * (self.height as int)
    }

    pub closed spec fn spec_width(self) -> int {
        self.width as int
    }

    pub closed spec fn spec_height(self) -> int {
        self.height as int
    }

    pub closed spec fn bytes(self) -> Seq<u8> {
        self.pixels@
    }

    /// The colour of pixel `(x, y)`, counted from the top-left corner.
    pub open spec fn spec_pixel(self, x: int, y: int) -> (u8, u8, u8) {
        let o = pixel_offset(self.spec_width(), x, y);
        (self.bytes()[o], self.bytes()[o + 1], self.bytes()[o + 2])
    }

    /// Wraps a raster of `width` by `height` pixels. `None` when a dimension
    /// is zero or `pixels` does not hold exactly three bytes per pixel.
    pub fn new(width: u32, height: u32, pixels: Vec<u8>) -> (r: Option<Self>)
        ensures
            r.is_some() <==> (width >= 1 && height >= 1 && pixels@.len() == 3 * (width as int)
                * (height as int)),
            r matches Some(img) ==> img.spec_width() == width && img.spec_height() == height
                && img.bytes() == pixels@,
    {
        if width == 0 || height == 0 {
            return None;
        }
        let w = width as u128;
        let h = height as u128;
        assert(w * h <= 0xffff_ffff_ffff_ffff) by (nonlinear_arith)
            requires
                w <= u32::MAX,
                h <= u32::MAX,
        ;
        let expected: u128 = 3 * (w * h);
        let ok = pixels.len() as u128 == expected;
        assert(3 * (w * h) == 3 * (width as int) * (height as int)) by (nonlinear_arith)
            requires
                w == width,
                h == height,
        ;
        if !ok {
            return None;
        }
        Some(ImageData { width, height, pixels })
    }

    pub fn width(&self) -> (r: u32)
        ensures
            r == self.spec_width(),
            r >= 1,
    {
        proof {
            use_type_invariant(self);
        }
        self.width
    }

    pub fn height(&self) -> (r: u32)
        ensures
            r == self.spec_height(),
            r >= 1,
    {
        proof {
            use_type_invariant(self);
        }
        self.height
    }

    /// The colour of pixel `(x, y)`, counted from the top-left corner.
    pub fn pixel(&self, x: u32, y: u32) -> (r: (u8, u8, u8))
        requires
            x < self.spec_width(),
            y < self.spec_height(),
        ensures
            r == self.spec_pixel(x as int, y as int),
    {
        proof {
            use_type_invariant(self);
        }
        let w = self.width as usize;
        let len = self.pixels.len();
        proof {
            let wi = w as int;
            let hi = self.height as int;
            let xi = x as int;
            let yi = y as int;
            assert(yi * wi <= yi * wi + xi && 3 * (yi * wi + xi) + 2 < len) by (nonlinear_arith)
                requires
                    0 <= xi < wi,
                    0 <= yi < hi,
                    len == 3 * wi * hi,
            ;
        }
        let o = 3 * (y as usize * w + x as usize);
        (self.pixels[o], self.pixels[o + 1], self.pixels[o + 2])
    }

    /// The pixel nearest to column `x` and row `y` (from the top): both are
    /// clamped to the raster before the lookup.
    pub fn texel(&self, x: i64, y: i64) -> (r: (u8, u8, u8))
        ensures
            r == self.spec_pixel(
                clamped(x as int, 0, self.spec_width() - 1),
                clamped(y as int, 0, self.spec_height() - 1),
            ),
    {
        proof {
            use_type_invariant(self);
        }
        let i = clamp_i64(x, 0, self.width as i64 - 1);
        let j = clamp_i64(y, 0, self.height as i64 - 1);
        self.pixel(i as u32, j as u32)
    }
}

} // verus!
