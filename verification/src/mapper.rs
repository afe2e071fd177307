//! Mapping every pixel of an image to an entry of a palette.

use vstd::prelude::*;
use crate::assemble::indices_in_range;
use crate::color::Pixel;
use crate::diffusion::{
    absorbed, lemma_no_strength, mapped, shifted, spilled, Diffusion, Residue, CARRY_LIMIT, ERROR_LIMIT, HALF_UNIT,
    UNIT,
};
use crate::error::QuantizeError;
use crate::histogram::visible_pixels;
use crate::image::Image;
use crate::level::{decode_level, level_in_range, strength_of};
use crate::palette::{is_nearest, nearest_index, Palette};

verus! {

/// Computes `shifted`.
fn shift_channel(value: u8, carried: i32) -> (moved: u8)
    requires
        -CARRY_LIMIT <= carried <= CARRY_LIMIT,
    ensures
        moved == shifted(value, carried),
{
    let lifted: u32 = (carried + CARRY_LIMIT + HALF_UNIT) as u32;
    let steps: u32 = lifted / (UNIT as u32);
    assert(steps == (carried + HALF_UNIT) / (UNIT as int) + 255) by {
        assert(lifted == (carried + HALF_UNIT) + 255 * UNIT);
    }
    let target: u32 = value as u32 + steps;
    if target < 255 {
        0
    } else if target > 510 {
        255
    } else {
        (target - 255) as u8
    }
}

/// Computes `Residue::applied`.
fn apply(carried: Residue, p: Pixel) -> (seen: Pixel)
    requires
        carried.bounded(),
    ensures
        seen == carried.applied(p),
{
    Pixel {
        r: shift_channel(p.r, carried.r),
        g: shift_channel(p.g, carried.g),
        b: shift_channel(p.b, carried.b),
        a: shift_channel(p.a, carried.a),
    }
}

/// The error of one channel, scaled by the strength.
fn error_channel(seen: u8, chosen: u8, strength: u32) -> (error: i32)
    requires
        strength <= 65536,
    ensures
        error == (seen - chosen) * strength,
        -ERROR_LIMIT <= error <= ERROR_LIMIT,
{
    let gap: i32 = seen as i32 - chosen as i32;
    let scale: i32 = strength as i32;
    assert(-16_711_680 <= gap * scale <= 16_711_680) by (nonlinear_arith)
        requires
            -255 <= gap <= 255,
            0 <= scale <= 65536,
    ;
    gap * scale
}

/// Computes `Residue::between`.
fn error_between(seen: Pixel, chosen: Pixel, strength: u32) -> (error: Residue)
    requires
        strength <= 65536,
    ensures
        error == Residue::between(seen, chosen, strength as int),
        error.small(),
{
    Residue {
        r: error_channel(seen.r, chosen.r, strength),
        g: error_channel(seen.g, chosen.g, strength),
        b: error_channel(seen.b, chosen.b, strength),
        a: error_channel(seen.a, chosen.a, strength),
    }
}

/// Computes `absorbed`.
fn absorb(carried: i32, error: i32, factor: i32) -> (sum: i32)
    requires
        -CARRY_LIMIT <= carried <= CARRY_LIMIT,
        -ERROR_LIMIT <= error <= ERROR_LIMIT,
        1 <= factor <= 7,
    ensures
        sum == absorbed(carried, error, factor as int),
        -CARRY_LIMIT <= sum <= CARRY_LIMIT,
{
    assert(-116_981_760 <= factor * error <= 116_981_760) by (nonlinear_arith)
        requires
            -16_711_680 <= error <= 16_711_680,
            1 <= factor <= 7,
    ;
    let sum: i32 = carried + factor * error;
    if sum < -CARRY_LIMIT {
        -CARRY_LIMIT
    } else if sum > CARRY_LIMIT {
        CARRY_LIMIT
    } else {
        sum
    }
}

/// Computes `Residue::plus`.
fn add_share(carried: Residue, error: Residue, factor: i32) -> (sum: Residue)
    requires
        carried.bounded(),
        error.small(),
        1 <= factor <= 7,
    ensures
        sum == carried.plus(error, factor as int),
        sum.bounded(),
{
    Residue {
        r: absorb(carried.r, error.r, factor),
        g: absorb(carried.g, error.g, factor),
        b: absorb(carried.b, error.b, factor),
        a: absorb(carried.a, error.a, factor),
    }
}

/// Gives pixel `q` its share of an error, if there is such a pixel and it
/// may take one.
fn spill(carry: &mut Vec<Residue>, q: usize, allowed: bool, error: Residue, factor: i32)
    requires
        forall|i: int| 0 <= i < old(carry)@.len() ==> (#[trigger] old(carry)@[i]).bounded(),
        error.small(),
        1 <= factor <= 7,
    ensures
        final(carry)@ == spilled(old(carry)@, q as int, allowed, error, factor as int),
        final(carry)@.len() == old(carry)@.len(),
        forall|i: int| 0 <= i < final(carry)@.len() ==> (#[trigger] final(carry)@[i]).bounded(),
{
    if allowed && q < carry.len() {
        let carried: Residue = carry[q];
        carry.set(q, add_share(carried, error, factor));
    }
}

/// Maps every pixel to the entry nearest to it.
fn map_flat(image: &Image, palette: &Palette) -> (indices: Vec<u8>)
    ensures
        indices@.len() == image@.len(),
        forall|i: int|
            0 <= i < indices@.len() ==> (#[trigger] indices@[i]) == nearest_index(
                palette@,
                visible_pixels(image@)[i],
            ) && is_nearest(palette@, visible_pixels(image@)[i], indices@[i] as int),
{
    let n: usize = image.len();
    let mut indices: Vec<u8> = Vec::with_capacity(n);
    let mut p: usize = 0;
    while p < n
        invariant
            p <= n,
            n == image@.len(),
            indices@.len() == p,
            forall|i: int|
                0 <= i < p ==> (#[trigger] indices@[i]) == nearest_index(palette@, visible_pixels(image@)[i])
                    && is_nearest(palette@, visible_pixels(image@)[i], indices@[i] as int),
        decreases n - p,
    {
        indices.push(palette.nearest(image.pixel(p).to_visible()));
        p = p + 1;
    }
    indices
}

/// Maps the pixels row by row and spreads each pixel's error over its
/// neighbors.
fn map_diffused(image: &Image, palette: &Palette, strength: u32) -> (indices: Vec<u8>)
    requires
        strength <= 65536,
    ensures
        indices@ == mapped(visible_pixels(image@), palette@, image.spec_width() as int, strength as int),
        indices@.len() == image@.len(),
        indices_in_range(indices@, palette@.len()),
{
    let n: usize = image.len();
    let width: usize = image.width();
    let ghost pixels = visible_pixels(image@);
    let mut carry: Vec<Residue> = Vec::with_capacity(n);
    let mut p: usize = 0;
    while p < n
        invariant
            p <= n,
            carry@.len() == p,
            forall|i: int| 0 <= i < p ==> (#[trigger] carry@[i]) == Residue::zero(),
        decreases n - p,
    {
        carry.push(Residue { r: 0, g: 0, b: 0, a: 0 });
        p = p + 1;
    }
    assert(carry@ =~= Diffusion::start(n as nat).carry);
    let mut indices: Vec<u8> = Vec::with_capacity(n);
    let mut column: usize = 0;
    let mut p: usize = 0;
    while p < n
        invariant
            p <= n,
            n == image@.len(),
            n == pixels.len(),
            pixels == visible_pixels(image@),
            n * 4 <= usize::MAX,
            width == image.spec_width(),
            1 <= width <= n,
            column < width,
            strength <= 65536,
            carry@.len() == n,
            forall|i: int| 0 <= i < n ==> (#[trigger] carry@[i]).bounded(),
            indices@.len() == p,
            indices_in_range(indices@, palette@.len()),
            (Diffusion { carry: carry@, indices: indices@, column: column as int }) == Diffusion::after(
                pixels,
                palette@,
                width as int,
                strength as int,
                p as nat,
            ),
        decreases n - p,
    {
        let seen: Pixel = apply(carry[p], image.pixel(p).to_visible());
        let index: u8 = palette.nearest(seen);
        let chosen: Pixel = palette.color(index as usize);
        let error: Residue = error_between(seen, chosen, strength);
        let right: bool = column + 1 < width;
        let left: bool = column > 0;
        spill(&mut carry, p + 1, right, error, 7);
        spill(&mut carry, p + width - 1, left, error, 3);
        spill(&mut carry, p + width, true, error, 5);
        spill(&mut carry, p + width + 1, right, error, 1);
        indices.push(index);
        column = if column + 1 == width {
            0
        } else {
            column + 1
        };
        p = p + 1;
    }
    indices
}

/// Assigns every pixel of the image an entry of the palette.
///
/// `dithering` is the level of error diffusion, as the bit pattern of a
/// single-precision number from 0.0 to 1.0; another pattern is refused. At
/// level 0.0 each pixel gets the entry nearest to its visible color, the
/// first of several that are equally near. Above it the pixels are mapped
/// row by row, from left to right: a pixel is looked up with the error it
/// has received, and its own error, times the level, is passed on to the
/// pixels to its right and below.
pub fn map_pixels(image: &Image, palette: &Palette, dithering: u32) -> (result: Result<Vec<u8>, QuantizeError>)
    ensures
        match result {
            Ok(indices) => {
                &&& level_in_range(dithering)
                &&& indices@ == mapped(
                    visible_pixels(image@),
                    palette@,
                    image.spec_width() as int,
                    strength_of(dithering) as int,
                )
                &&& indices@.len() == image@.len()
                &&& indices_in_range(indices@, palette@.len())
                &&& strength_of(dithering) == 0 ==> forall|i: int|
                    0 <= i < indices@.len() ==> (#[trigger] indices@[i]) == nearest_index(
                        palette@,
                        visible_pixels(image@)[i],
                    ) && is_nearest(palette@, visible_pixels(image@)[i], indices@[i] as int)
            },
            Err(e) => !level_in_range(dithering) && e == QuantizeError::InvalidDitherLevel,
        },
{
    let strength: u32 = match decode_level(dithering) {
        Ok(strength) => strength,
        Err(e) => {
            return Err(e);
        },
    };
    if strength == 0 {
        let indices = map_flat(image, palette);
        let _entries: usize = palette.len();
        proof {
            lemma_no_strength(visible_pixels(image@), palette@, image.spec_width() as int, image@.len());
            assert(indices@ =~= mapped(visible_pixels(image@), palette@, image.spec_width() as int, 0));
        }
        Ok(indices)
    } else {
        Ok(map_diffused(image, palette, strength))
    }
}

} // verus!
