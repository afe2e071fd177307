//! Images of RGBA pixels and their shapes.

use vstd::prelude::*;
use crate::color::{pixels_of, Pixel};
use crate::error::QuantizeError;

verus! {

/// Whether a buffer of `len` bytes holds an image of `width` by `height`
/// pixels: both are positive and every pixel has its four bytes.
pub open spec fn shape_matches(len: nat, width: nat, height: nat) -> bool {
    width > 0 && height > 0 && width * height * 4 == len
}

/// Decides `shape_matches` without overflow.
pub fn check_shape(len: usize, width: usize, height: usize) -> (ok: bool)
    ensures
        ok == shape_matches(len as nat, width as nat, height as nat),
{
    if width == 0 || height == 0 {
        return false;
    }
    match width.checked_mul(height) {
        None => {
            assert(width * height * 4 > len) by (nonlinear_arith)
                requires
                    width * height > usize::MAX,
                    len <= usize::MAX,
            ;
            false
        },
        Some(area) => match area.checked_mul(4) {
            None => false,
            Some(bytes) => bytes == len,
        },
    }
}

/// A raster of pixels in row-major order, with at least one row and one
/// column.
pub struct Image {
    width: usize,
    height: usize,
    pixels: Vec<Pixel>,
}

impl View for Image {
    type V = Seq<Pixel>;

    /// The pixels, row after row.
    closed spec fn view(&self) -> Seq<Pixel> {
        self.pixels@
    }
}

impl Image {
    #[verifier::type_invariant]
    spec fn well_formed(self) -> bool {
        &&& self.width > 0
        &&& self.height > 0
        &&& self.pixels.len() == self.width * self.height
        &&& self.pixels.len() * 4 <= usize::MAX
    }

    /// The number of pixels in a row.
    pub closed spec fn spec_width(self) -> nat {
        self.width as nat
    }

    /// The number of rows.
    pub closed spec fn spec_height(self) -> nat {
        self.height as nat
    }

    /// Reads an image from interleaved RGBA bytes. A buffer whose length is
    /// not `width * height * 4`, or a dimension of 0, is refused.
    pub fn from_rgba(bytes: &[u8], width: usize, height: usize) -> (result: Result<Image, QuantizeError>)
        ensures
            match result {
                Ok(image) => {
                    &&& shape_matches(bytes@.len(), width as nat, height as nat)
                    &&& image@ == pixels_of(bytes@)
                    &&& image.spec_width() == width
                    &&& image.spec_height() == height
                    &&& image@.len() == width * height
                },
                Err(e) => {
                    &&& !shape_matches(bytes@.len(), width as nat, height as nat)
                    &&& e == QuantizeError::ShapeMismatch
                },
            },
    {
        if !check_shape(bytes.len(), width, height) {
            return Err(QuantizeError::ShapeMismatch);
        }
        let count: usize = bytes.len() / 4;
        let mut pixels: Vec<Pixel> = Vec::with_capacity(count);
        let mut i: usize = 0;
        while i < count
            invariant
                i <= count,
                count * 4 == bytes@.len(),
                bytes@.len() <= usize::MAX,
                pixels@.len() == i,
                forall|j: int| 0 <= j < i ==> pixels@[j] == pixels_of(bytes@)[j],
            decreases count - i,
        {
            let p = Pixel { r: bytes[4 * i], g: bytes[4 * i + 1], b: bytes[4 * i + 2], a: bytes[4 * i + 3] };
            pixels.push(p);
            i = i + 1;
        }
        assert(pixels@ =~= pixels_of(bytes@));
        Ok(Image { width, height, pixels })
    }

    /// The number of pixels in a row.
    pub fn width(&self) -> (w: usize)
        ensures
            w == self.spec_width(),
            0 < w <= self@.len(),
    {
        proof {
            use_type_invariant(self);
            assert(self.width <= self.width * self.height) by (nonlinear_arith)
                requires
                    self.width > 0,
                    self.height > 0,
            ;
        }
        self.width
    }

    /// The number of rows.
    pub fn height(&self) -> (h: usize)
        ensures
            h == self.spec_height(),
            h > 0,
    {
        proof {
            use_type_invariant(self);
        }
        self.height
    }

    /// The number of pixels, which is the width times the height.
    pub fn len(&self) -> (n: usize)
        ensures
            n == self@.len(),
            n == self.spec_width() * self.spec_height(),
            n > 0,
            n * 4 <= usize::MAX,
    {
        proof {
            use_type_invariant(self);
            assert(self.width * self.height > 0) by (nonlinear_arith)
                requires
                    self.width > 0,
                    self.height > 0,
            ;
        }
        self.pixels.len()
    }

    /// The pixel at position `i`, counted row by row.
    pub fn pixel(&self, i: usize) -> (p: Pixel)
        requires
            i < self@.len(),
        ensures
            p == self@[i as int],
    {
        self.pixels[i]
    }
}

} // verus!
