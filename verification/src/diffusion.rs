//! What error diffusion computes, and what follows where nothing is
//! diffused.

use vstd::prelude::*;
use crate::color::{distance, lemma_distance_zero, Pixel};
use crate::palette::{lemma_nearest_among, nearest_index};

verus! {

/// One whole step of a channel, in the units in which errors are carried:
/// sixteenths of a 65536th.
pub const UNIT: i32 = 1_048_576;

/// Half a step, for rounding.
pub const HALF_UNIT: i32 = 524_288;

/// The largest error that a pixel carries in a channel: 255 whole steps.
pub const CARRY_LIMIT: i32 = 267_386_880;

/// The largest error of one pixel in a channel at full strength.
pub const ERROR_LIMIT: i32 = 16_711_680;

/// An error in each of the four channels.
#[derive(Clone, Copy, Debug, PartialEq, Eq, Structural)]
pub struct Residue {
    pub r: i32,
    pub g: i32,
    pub b: i32,
    pub a: i32,
}

/// `x`, or the nearer bound where it lies outside them.
pub open spec fn clamped(x: int, low: int, high: int) -> int {
    if x < low {
        low
    } else if x > high {
        high
    } else {
        x
    }
}

/// A channel value moved by the error it carries, rounded to a whole step
/// and kept within 0 and 255.
pub open spec fn shifted(value: u8, carried: i32) -> u8 {
    clamped(value + (carried + HALF_UNIT) / (UNIT as int), 0, 255) as u8
}

/// What a pixel carries after taking `factor` sixteenths of an error, kept
/// within the limit.
pub open spec fn absorbed(carried: i32, error: i32, factor: int) -> i32 {
    clamped(carried + factor * error, -CARRY_LIMIT, CARRY_LIMIT as int) as i32
}

impl Residue {
    /// No error.
    pub open spec fn zero() -> Residue {
        Residue { r: 0, g: 0, b: 0, a: 0 }
    }

    /// Every channel is within the limit of what a pixel carries.
    pub open spec fn bounded(self) -> bool {
        &&& -CARRY_LIMIT <= self.r <= CARRY_LIMIT
        &&& -CARRY_LIMIT <= self.g <= CARRY_LIMIT
        &&& -CARRY_LIMIT <= self.b <= CARRY_LIMIT
        &&& -CARRY_LIMIT <= self.a <= CARRY_LIMIT
    }

    /// Every channel is within the limit of one pixel's error.
    pub open spec fn small(self) -> bool {
        &&& -ERROR_LIMIT <= self.r <= ERROR_LIMIT
        &&& -ERROR_LIMIT <= self.g <= ERROR_LIMIT
        &&& -ERROR_LIMIT <= self.b <= ERROR_LIMIT
        &&& -ERROR_LIMIT <= self.a <= ERROR_LIMIT
    }

    /// The pixel as it is looked up: each channel moved by what it carries.
    pub open spec fn applied(self, p: Pixel) -> Pixel {
        Pixel { r: shifted(p.r, self.r), g: shifted(p.g, self.g), b: shifted(p.b, self.b), a: shifted(p.a, self.a) }
    }

    /// The error of showing `chosen` where `seen` was looked up, scaled by
    /// the strength of the diffusion.
    pub open spec fn between(seen: Pixel, chosen: Pixel, strength: int) -> Residue {
        Residue {
            r: ((seen.r - chosen.r) * strength) as i32,
            g: ((seen.g - chosen.g) * strength) as i32,
            b: ((seen.b - chosen.b) * strength) as i32,
            a: ((seen.a - chosen.a) * strength) as i32,
        }
    }

    /// What is carried after taking `factor` sixteenths of `error`.
    pub open spec fn plus(self, error: Residue, factor: int) -> Residue {
        Residue {
            r: absorbed(self.r, error.r, factor),
            g: absorbed(self.g, error.g, factor),
            b: absorbed(self.b, error.b, factor),
            a: absorbed(self.a, error.a, factor),
        }
    }
}

/// The errors carried after pixel `q`, if there is such a pixel and it is
/// `allowed` to take a share, has taken `factor` sixteenths of `error`.
pub open spec fn spilled(carry: Seq<Residue>, q: int, allowed: bool, error: Residue, factor: int) -> Seq<
    Residue,
> {
    if allowed && 0 <= q < carry.len() {
        carry.update(q, carry[q].plus(error, factor))
    } else {
        carry
    }
}

/// The state of error diffusion: what each pixel carries, the indices
/// chosen so far, and the column of the next pixel.
pub struct Diffusion {
    pub carry: Seq<Residue>,
    pub indices: Seq<u8>,
    pub column: int,
}

impl Diffusion {
    /// The state before the first pixel.
    pub open spec fn start(count: nat) -> Diffusion {
        Diffusion { carry: Seq::new(count, |i: int| Residue::zero()), indices: Seq::empty(), column: 0 }
    }

    /// The state after the next pixel is mapped: it is looked up with the
    /// error it carries, and the error of the chosen entry goes to the
    /// pixels not yet mapped: seven sixteenths to the right, three below to
    /// the left, five below, one below to the right.
    pub open spec fn step(self, pixels: Seq<Pixel>, palette: Seq<Pixel>, width: int, strength: int) -> Diffusion {
        let p = self.indices.len() as int;
        let seen = self.carry[p].applied(pixels[p]);
        let index = nearest_index(palette, seen);
        let error = Residue::between(seen, palette[index], strength);
        let right = self.column + 1 < width;
        let left = self.column > 0;
        let first = spilled(self.carry, p + 1, right, error, 7);
        let second = spilled(first, p + width - 1, left, error, 3);
        let third = spilled(second, p + width, true, error, 5);
        let fourth = spilled(third, p + width + 1, right, error, 1);
        Diffusion {
            carry: fourth,
            indices: self.indices.push(index as u8),
            column: if self.column + 1 == width {
                0
            } else {
                self.column + 1
            },
        }
    }

    /// The state after the first `count` pixels are mapped.
    pub open spec fn after(pixels: Seq<Pixel>, palette: Seq<Pixel>, width: int, strength: int, count: nat) -> Diffusion
        decreases count,
    {
        if count == 0 {
            Diffusion::start(pixels.len())
        } else {
            Diffusion::after(pixels, palette, width, strength, (count - 1) as nat).step(
                pixels,
                palette,
                width,
                strength,
            )
        }
    }
}

/// The index of the palette entry for every pixel: the pixels are mapped
/// row by row, each to the entry nearest to it with the error that it
/// carries, and `strength` 65536ths of its own error go to its neighbors.
pub open spec fn mapped(pixels: Seq<Pixel>, palette: Seq<Pixel>, width: int, strength: int) -> Seq<u8> {
    Diffusion::after(pixels, palette, width, strength, pixels.len()).indices
}

/// Without strength nothing is carried, and each pixel is mapped to the
/// entry nearest to it, whatever was mapped before it.
pub proof fn lemma_no_strength(pixels: Seq<Pixel>, palette: Seq<Pixel>, width: int, count: nat)
    requires
        1 <= palette.len() <= 256,
        count <= pixels.len(),
    ensures
        Diffusion::after(pixels, palette, width, 0, count).carry == Diffusion::start(pixels.len()).carry,
        Diffusion::after(pixels, palette, width, 0, count).indices.len() == count,
        forall|i: int|
            0 <= i < count ==> (#[trigger] Diffusion::after(pixels, palette, width, 0, count).indices[i])
                == nearest_index(palette, pixels[i]),
    decreases count,
{
    if count > 0 {
        let before = Diffusion::after(pixels, palette, width, 0, (count - 1) as nat);
        let now = Diffusion::after(pixels, palette, width, 0, count);
        lemma_no_strength(pixels, palette, width, (count - 1) as nat);
        let p = count - 1;
        let still = Diffusion::start(pixels.len()).carry;
        assert(before.carry[p] == Residue::zero());
        let seen = before.carry[p].applied(pixels[p]);
        assert(seen == pixels[p]);
        lemma_nearest_among(palette, seen, palette.len() as int);
        let index = nearest_index(palette, seen);
        let error = Residue::between(seen, palette[index], 0);
        assert(error == Residue::zero()) by {
            assert((seen.r - palette[index].r) * 0 == 0);
            assert((seen.g - palette[index].g) * 0 == 0);
            assert((seen.b - palette[index].b) * 0 == 0);
            assert((seen.a - palette[index].a) * 0 == 0);
        }
        assert forall|carry: Seq<Residue>, q: int, allowed: bool, factor: int| carry == still implies #[trigger] spilled(
            carry,
            q,
            allowed,
            error,
            factor,
        ) == still by {
            if allowed && 0 <= q < carry.len() {
                assert(factor * 0 == 0);
                assert(carry[q].plus(error, factor) == Residue::zero());
                assert(carry.update(q, Residue::zero()) =~= still);
            }
        }
        assert(now.carry == still);
        assert forall|i: int| 0 <= i < count implies (#[trigger] now.indices[i]) == nearest_index(
            palette,
            pixels[i],
        ) by {
            if i < p {
                assert(now.indices[i] == before.indices[i]);
            }
        }
    }
}

/// Where the palette holds the color of every pixel, nothing is carried
/// either, and each pixel is mapped to an entry of its own color, whatever
/// the strength.
pub proof fn lemma_exact_palette(pixels: Seq<Pixel>, palette: Seq<Pixel>, width: int, strength: int, count: nat)
    requires
        1 <= palette.len() <= 256,
        count <= pixels.len(),
        forall|i: int| 0 <= i < pixels.len() ==> palette.contains(#[trigger] pixels[i]),
    ensures
        Diffusion::after(pixels, palette, width, strength, count).carry == Diffusion::start(pixels.len()).carry,
        Diffusion::after(pixels, palette, width, strength, count).indices.len() == count,
        forall|i: int|
            0 <= i < count ==> palette[(#[trigger] Diffusion::after(
                pixels,
                palette,
                width,
                strength,
                count,
            ).indices[i]) as int] == pixels[i],
    decreases count,
{
    if count > 0 {
        let before = Diffusion::after(pixels, palette, width, strength, (count - 1) as nat);
        let now = Diffusion::after(pixels, palette, width, strength, count);
        lemma_exact_palette(pixels, palette, width, strength, (count - 1) as nat);
        let p = count - 1;
        let still = Diffusion::start(pixels.len()).carry;
        assert(before.carry[p] == Residue::zero());
        let seen = before.carry[p].applied(pixels[p]);
        assert(seen == pixels[p]);
        lemma_nearest_among(palette, seen, palette.len() as int);
        let index = nearest_index(palette, seen);
        assert(palette[index] == seen) by {
            assert(palette.contains(pixels[p]));
            let k = choose|k: int| 0 <= k < palette.len() && palette[k] == seen;
            lemma_distance_zero(palette[k], seen);
            lemma_distance_zero(palette[index], seen);
            assert(distance(palette[index], seen) <= distance(palette[k], seen));
        }
        let error = Residue::between(seen, palette[index], strength);
        assert(error == Residue::zero()) by {
            assert(0 * strength == 0);
        }
        assert forall|carry: Seq<Residue>, q: int, allowed: bool, factor: int| carry == still implies #[trigger] spilled(
            carry,
            q,
            allowed,
            error,
            factor,
        ) == still by {
            if allowed && 0 <= q < carry.len() {
                assert(factor * 0 == 0);
                assert(carry[q].plus(error, factor) == Residue::zero());
                assert(carry.update(q, Residue::zero()) =~= still);
            }
        }
        assert(now.carry == still);
        assert forall|i: int| 0 <= i < count implies palette[(#[trigger] now.indices[i]) as int] == pixels[i] by {
            if i < p {
                assert(now.indices[i] == before.indices[i]);
            }
        }
    }
}

} // verus!
