//! Pixels and the distance between them.

use vstd::prelude::*;

verus! {

/// One pixel: red, green, blue and alpha, eight bits each.
#[derive(Clone, Copy, Debug, PartialEq, Eq, Structural)]
pub struct Pixel {
    pub r: u8,
    pub g: u8,
    pub b: u8,
    pub a: u8,
}

/// The largest distance between two pixels: every channel differs by 255.
pub const MAX_DISTANCE: u32 = 1_300_500;

/// How much a squared difference in channel `ch` counts. Green weighs most
/// among the colors and blue least, as the eye sees them; alpha weighs as
/// much as the three colors together.
pub open spec fn channel_weight(ch: int) -> int {
    if ch == 0 {
        3
    } else if ch == 1 {
        6
    } else if ch == 2 {
        1
    } else {
        10
    }
}

/// The square of `x - y`.
pub open spec fn squared_difference(x: int, y: int) -> int {
    (x - y) * (x - y)
}

/// The perceptual distance between two pixels: the weighted sum of the
/// squared channel differences.
pub open spec fn distance(p: Pixel, q: Pixel) -> int {
    3 * squared_difference(p.r as int, q.r as int)
        + 6 * squared_difference(p.g as int, q.g as int)
        + squared_difference(p.b as int, q.b as int)
        + 10 * squared_difference(p.a as int, q.a as int)
}

/// The pixels that a byte buffer holds, four bytes each; bytes after the
/// last full group are left out.
pub open spec fn pixels_of(bytes: Seq<u8>) -> Seq<Pixel> {
    Seq::new(
        (bytes.len() / 4) as nat,
        |i: int| Pixel { r: bytes[4 * i], g: bytes[4 * i + 1], b: bytes[4 * i + 2], a: bytes[4 * i + 3] },
    )
}

/// The bytes of a sequence of pixels, four per pixel in the order r, g, b, a.
pub open spec fn bytes_of(pixels: Seq<Pixel>) -> Seq<u8> {
    Seq::new((4 * pixels.len()) as nat, |i: int| pixels[i / 4].channel(i % 4))
}

impl Pixel {
    /// The value of channel `ch`: 0 is red, 1 green, 2 blue, 3 alpha.
    pub open spec fn channel(self, ch: int) -> u8 {
        if ch == 0 {
            self.r
        } else if ch == 1 {
            self.g
        } else if ch == 2 {
            self.b
        } else {
            self.a
        }
    }

    /// What is seen of the pixel: a pixel with alpha 0 shows no color, so
    /// all such pixels stand for the same one.
    pub open spec fn visible(self) -> Pixel {
        if self.a == 0 {
            Pixel { r: 0, g: 0, b: 0, a: 0 }
        } else {
            self
        }
    }

    /// The pixel as one number, a different one for each pixel.
    pub open spec fn packed(self) -> u32 {
        (self.r as int + 256 * (self.g as int) + 65536 * (self.b as int) + 16777216 * (self.a as int)) as u32
    }

    pub fn new(r: u8, g: u8, b: u8, a: u8) -> (p: Pixel)
        ensures
            p == (Pixel { r, g, b, a }),
    {
        Pixel { r, g, b, a }
    }

    /// Reads channel `ch` of the pixel.
    pub fn get(&self, ch: usize) -> (v: u8)
        requires
            ch < 4,
        ensures
            v == self.channel(ch as int),
    {
        if ch == 0 {
            self.r
        } else if ch == 1 {
            self.g
        } else if ch == 2 {
            self.b
        } else {
            self.a
        }
    }

    /// Computes `visible`.
    pub fn to_visible(&self) -> (p: Pixel)
        ensures
            p == self.visible(),
    {
        if self.a == 0 {
            Pixel { r: 0, g: 0, b: 0, a: 0 }
        } else {
            *self
        }
    }

    /// Computes `packed`.
    pub fn pack(&self) -> (key: u32)
        ensures
            key == self.packed(),
    {
        let r: u32 = self.r as u32;
        let g: u32 = self.g as u32;
        let b: u32 = self.b as u32;
        let a: u32 = self.a as u32;
        r + 256 * g + 65536 * b + 16777216 * a
    }

    /// The perceptual distance from this pixel to `other`.
    pub fn distance_to(&self, other: &Pixel) -> (d: u32)
        ensures
            d == distance(*self, *other),
            d <= MAX_DISTANCE,
    {
        let dr: u32 = square_of_difference(self.r, other.r);
        let dg: u32 = square_of_difference(self.g, other.g);
        let db: u32 = square_of_difference(self.b, other.b);
        let da: u32 = square_of_difference(self.a, other.a);
        3 * dr + 6 * dg + db + 10 * da
    }
}

/// Computes `squared_difference` of two channel values.
pub fn square_of_difference(x: u8, y: u8) -> (d: u32)
    ensures
        d == squared_difference(x as int, y as int),
        d <= 65025,
{
    let gap: u32 = if x >= y {
        (x - y) as u32
    } else {
        (y - x) as u32
    };
    assert(gap * gap == (x - y) * (x - y)) by (nonlinear_arith)
        requires
            gap == x - y || gap == y - x,
    ;
    assert(gap * gap <= 65025) by (nonlinear_arith)
        requires
            gap <= 255,
    ;
    gap * gap
}

/// Two pixels with the same packed number are the same pixel.
pub proof fn lemma_packed_is_injective(p: Pixel, q: Pixel)
    requires
        p.packed() == q.packed(),
    ensures
        p == q,
{
    lemma_packed_holds_channels(p);
    lemma_packed_holds_channels(q);
}

/// The channels can be read back from the packed number.
proof fn lemma_packed_holds_channels(p: Pixel)
    ensures
        p.r == p.packed() % 256,
        p.g == (p.packed() / 256) % 256,
        p.b == (p.packed() / 65536) % 256,
        p.a == p.packed() / 16777216,
{
    let high = p.b as int + 256 * (p.a as int);
    let middle = p.g as int + 256 * high;
    let key = p.r as int + 256 * middle;
    assert(key == p.packed());
    assert(key / 256 == middle);
    assert(middle / 256 == high);
    assert(key / 65536 == high);
    assert(high / 256 == p.a);
    assert(key / 16777216 == p.a as int);
}

/// The distance is zero exactly between a pixel and itself, and never
/// negative.
pub proof fn lemma_distance_zero(p: Pixel, q: Pixel)
    ensures
        distance(p, q) >= 0,
        distance(p, q) == 0 <==> p == q,
        distance(p, q) == distance(q, p),
{
    lemma_square(p.r as int, q.r as int);
    lemma_square(p.g as int, q.g as int);
    lemma_square(p.b as int, q.b as int);
    lemma_square(p.a as int, q.a as int);
}

proof fn lemma_square(x: int, y: int)
    ensures
        squared_difference(x, y) >= 0,
        squared_difference(x, y) == 0 <==> x == y,
        squared_difference(x, y) == squared_difference(y, x),
{
    assert((x - y) * (x - y) >= 0) by (nonlinear_arith);
    assert((x - y) * (x - y) == 0 <==> x == y) by (nonlinear_arith);
    assert((x - y) * (x - y) == (y - x) * (y - x)) by (nonlinear_arith);
}

} // verus!
