//! The whole way from the bytes of an image to the bytes of its quantized
//! form.

use vstd::prelude::*;
use crate::assemble::{assemble_output, expand, indices_in_range};
use crate::cluster::construct_palette;
use crate::color::{bytes_of, pixels_of, Pixel};
use crate::diffusion::{lemma_exact_palette, mapped};
use crate::error::QuantizeError;
use crate::histogram::{
    build_histogram, distinct_colors, lemma_distinct_colors_cover, occurrences, visible_pixels,
};
use crate::image::{check_shape, shape_matches, Image};
use crate::level::{check_level, lemma_strength_ends, level_in_range, strength_of};
use crate::mapper::map_pixels;
use crate::palette::{color_count_in_range, nearest_index};
use crate::partition::palette_of;

verus! {

/// The count of each of the given colors among the pixels.
pub open spec fn counts_of(pixels: Seq<Pixel>, colors: Seq<Pixel>) -> Seq<u64> {
    Seq::new(colors.len(), |j: int| occurrences(pixels, colors[j]) as u64)
}

/// The colors that are seen in an image of the given bytes, each once, in
/// the order in which they first occur.
pub open spec fn seen_colors(bytes: Seq<u8>) -> Seq<Pixel> {
    distinct_colors(visible_pixels(pixels_of(bytes)))
}

/// The palette that is chosen for an image of the given bytes.
pub open spec fn palette_for(bytes: Seq<u8>, max_colors: int) -> Seq<Pixel> {
    let pixels = visible_pixels(pixels_of(bytes));
    palette_of(seen_colors(bytes), counts_of(pixels, seen_colors(bytes)), max_colors)
}

/// The palette index that is chosen for every pixel of an image.
pub open spec fn indices_for(bytes: Seq<u8>, width: int, max_colors: int, dithering: u32) -> Seq<u8> {
    mapped(visible_pixels(pixels_of(bytes)), palette_for(bytes, max_colors), width, strength_of(dithering) as int)
}

/// The bytes of the quantized image.
pub open spec fn quantized(bytes: Seq<u8>, width: int, max_colors: int, dithering: u32) -> Seq<u8> {
    bytes_of(expand(indices_for(bytes, width, max_colors, dithering), palette_for(bytes, max_colors)))
}

/// Whether a request is in order, and if not, what is wrong with it: the
/// shape is looked at first, then the number of colors, then the level.
pub open spec fn refusal(len: nat, width: nat, height: nat, max_colors: int, dithering: u32) -> Option<
    QuantizeError,
> {
    if !shape_matches(len, width, height) {
        Some(QuantizeError::ShapeMismatch)
    } else if !color_count_in_range(max_colors) {
        Some(QuantizeError::InvalidColorCount)
    } else if !level_in_range(dithering) {
        Some(QuantizeError::InvalidDitherLevel)
    } else {
        None
    }
}

/// Looks at a request before any work is done on it, and says what is
/// wrong with it if anything is.
pub fn check_request(len: usize, width: usize, height: usize, num_colors: u32, dithering: u32) -> (result: Result<
    (),
    QuantizeError,
>)
    ensures
        match result {
            Ok(_) => refusal(len as nat, width as nat, height as nat, num_colors as int, dithering) is None,
            Err(e) => refusal(len as nat, width as nat, height as nat, num_colors as int, dithering) == Some(e),
        },
{
    if !check_shape(len, width, height) {
        Err(QuantizeError::ShapeMismatch)
    } else if num_colors < 1 || num_colors > 256 {
        Err(QuantizeError::InvalidColorCount)
    } else if !check_level(dithering) {
        Err(QuantizeError::InvalidDitherLevel)
    } else {
        Ok(())
    }
}

/// Every pixel of `bytes` is an entry of the palette.
pub open spec fn drawn_from(bytes: Seq<u8>, palette: Seq<Pixel>) -> bool {
    forall|p: int| 0 <= p < bytes.len() / 4 ==> palette.contains(#[trigger] pixels_of(bytes)[p])
}

/// Every pixel of `bytes` is the palette entry nearest to what is seen of
/// the pixel of `source` at its place, whatever the pixels around it are.
pub open spec fn each_nearest(bytes: Seq<u8>, source: Seq<u8>, palette: Seq<Pixel>) -> bool {
    forall|p: int|
        0 <= p < bytes.len() / 4 ==> (#[trigger] pixels_of(bytes)[p]) == palette[nearest_index(
            palette,
            pixels_of(source)[p].visible(),
        )]
}

/// All pixels of `bytes` are the same.
pub open spec fn uniform(bytes: Seq<u8>) -> bool {
    forall|p: int, q: int|
        0 <= p < bytes.len() / 4 && 0 <= q < bytes.len() / 4 ==> (#[trigger] pixels_of(bytes)[p])
            == (#[trigger] pixels_of(bytes)[q])
}

/// Reduces an image to at most `num_colors` colors.
///
/// `image` holds `image_width * image_height` pixels of four bytes each:
/// red, green, blue, alpha. `dithering` is the level of error diffusion, as
/// the bit pattern of a single-precision number from 0.0 to 1.0. The result
/// has the length of `image` and holds, for each pixel, the palette color
/// chosen for it. It is a function of the arguments: the same request gives
/// the same bytes.
///
/// A request is refused before any work is done: with `ShapeMismatch` where
/// a dimension is 0 or the buffer is not `image_width * image_height * 4`
/// bytes long, with `InvalidColorCount` where `num_colors` is not in
/// `1..=256`, with `InvalidDitherLevel` where `dithering` is not in
/// `[0.0, 1.0]`. Every other request succeeds.
///
/// The palette holds `num_colors` colors, or every color seen in the image
/// if those are no more, and none twice. Every pixel of the result is one of
/// them. At level 0.0 it is the one nearest to the pixel it replaces. With
/// one color the result is uniform, and where the palette holds every color
/// seen, the result is the image as it is seen.
pub fn quantize(image: &[u8], image_width: usize, image_height: usize, num_colors: u32, dithering: u32) -> (result:
    Result<Vec<u8>, QuantizeError>)
    ensures
        match result {
            Ok(bytes) => {
                &&& refusal(image@.len(), image_width as nat, image_height as nat, num_colors as int, dithering)
                    is None
                &&& bytes@ == quantized(image@, image_width as int, num_colors as int, dithering)
                &&& bytes@.len() == image@.len()
                &&& palette_for(image@, num_colors as int).len() == if seen_colors(image@).len() <= num_colors {
                    seen_colors(image@).len() as int
                } else {
                    num_colors as int
                }
                &&& palette_for(image@, num_colors as int).no_duplicates()
                &&& drawn_from(bytes@, palette_for(image@, num_colors as int))
                &&& dithering == 0 || strength_of(dithering) == 0 ==> each_nearest(
                    bytes@,
                    image@,
                    palette_for(image@, num_colors as int),
                )
                &&& num_colors == 1 ==> uniform(bytes@)
                &&& seen_colors(image@).len() <= num_colors ==> {
                    &&& palette_for(image@, num_colors as int) == seen_colors(image@)
                    &&& bytes@ == bytes_of(visible_pixels(pixels_of(image@)))
                }
            },
            Err(e) => refusal(image@.len(), image_width as nat, image_height as nat, num_colors as int, dithering)
                == Some(e),
        },
{
    match check_request(image.len(), image_width, image_height, num_colors, dithering) {
        Ok(_) => {},
        Err(e) => {
            return Err(e);
        },
    }
    let picture: Image = match Image::from_rgba(image, image_width, image_height) {
        Ok(picture) => picture,
        Err(e) => {
            return Err(e);
        },
    };
    let histogram = build_histogram(&picture);
    proof {
        lemma_counts(visible_pixels(picture@), histogram.colors(), histogram.counts());
    }
    let palette = match construct_palette(&histogram, num_colors) {
        Ok(palette) => palette,
        Err(e) => {
            return Err(e);
        },
    };
    let indices = match map_pixels(&picture, &palette, dithering) {
        Ok(indices) => indices,
        Err(e) => {
            return Err(e);
        },
    };
    let entries: usize = palette.len();
    let result = assemble_output(indices.as_slice(), &palette);
    proof {
        assert(palette@ == palette_for(image@, num_colors as int));
        lemma_strength_ends();
        lemma_expanded(indices@, palette@);
        if strength_of(dithering) == 0 {
            lemma_expanded_nearest(indices@, palette@, image@);
        }
        if num_colors == 1 {
            lemma_expanded_uniform(indices@, palette@);
        }
        if histogram.colors().len() <= num_colors {
            lemma_expanded_exact(
                visible_pixels(picture@),
                palette@,
                image_width as int,
                strength_of(dithering) as int,
            );
        }
    }
    result
}

/// Counts that are the occurrences of the colors are the counts of the
/// colors.
proof fn lemma_counts(pixels: Seq<Pixel>, colors: Seq<Pixel>, counts: Seq<u64>)
    requires
        counts.len() == colors.len(),
        forall|j: int| 0 <= j < colors.len() ==> counts[j] == occurrences(pixels, #[trigger] colors[j]),
    ensures
        counts == counts_of(pixels, colors),
{
    assert(counts =~= counts_of(pixels, colors));
}

/// The bytes of pixels hold those pixels.
pub proof fn lemma_pixels_of_bytes(pixels: Seq<Pixel>)
    ensures
        pixels_of(bytes_of(pixels)) == pixels,
        bytes_of(pixels).len() == 4 * pixels.len(),
{
    let bytes = bytes_of(pixels);
    assert(bytes.len() / 4 == pixels.len());
    assert forall|p: int| 0 <= p < pixels.len() implies pixels_of(bytes)[p] == pixels[p] by {
        let at = 4 * p;
        assert(bytes[at] == pixels[at / 4].channel(at % 4));
        assert(bytes[at + 1] == pixels[(at + 1) / 4].channel((at + 1) % 4));
        assert(bytes[at + 2] == pixels[(at + 2) / 4].channel((at + 2) % 4));
        assert(bytes[at + 3] == pixels[(at + 3) / 4].channel((at + 3) % 4));
    }
    assert(pixels_of(bytes) =~= pixels);
}

/// What is assembled from indices in range is drawn from the palette.
proof fn lemma_expanded(indices: Seq<u8>, palette: Seq<Pixel>)
    requires
        indices_in_range(indices, palette.len()),
    ensures
        drawn_from(bytes_of(expand(indices, palette)), palette),
{
    let chosen = expand(indices, palette);
    lemma_pixels_of_bytes(chosen);
    assert forall|p: int| 0 <= p < indices.len() implies palette.contains(#[trigger] chosen[p]) by {
        assert(indices[p] < palette.len());
        assert(palette[indices[p] as int] == chosen[p]);
    }
}

/// What is assembled from the indices of the nearest entries holds, for
/// every pixel, the entry nearest to it.
proof fn lemma_expanded_nearest(indices: Seq<u8>, palette: Seq<Pixel>, source: Seq<u8>)
    requires
        indices.len() == source.len() / 4,
        forall|i: int|
            0 <= i < indices.len() ==> (#[trigger] indices[i]) == nearest_index(
                palette,
                visible_pixels(pixels_of(source))[i],
            ),
    ensures
        each_nearest(bytes_of(expand(indices, palette)), source, palette),
{
    let chosen = expand(indices, palette);
    let bytes = bytes_of(chosen);
    lemma_pixels_of_bytes(chosen);
    assert forall|p: int| 0 <= p < bytes.len() / 4 implies (#[trigger] pixels_of(bytes)[p]) == palette[nearest_index(
        palette,
        pixels_of(source)[p].visible(),
    )] by {
        assert(indices[p] == nearest_index(palette, visible_pixels(pixels_of(source))[p]));
        assert(chosen[p] == palette[indices[p] as int]);
    }
}

/// Where the palette is the distinct colors of the pixels, what is mapped
/// and assembled is the pixels themselves.
proof fn lemma_expanded_exact(pixels: Seq<Pixel>, palette: Seq<Pixel>, width: int, strength: int)
    requires
        1 <= palette.len() <= 256,
        palette == distinct_colors(pixels),
    ensures
        expand(mapped(pixels, palette, width, strength), palette) == pixels,
{
    assert forall|i: int| 0 <= i < pixels.len() implies palette.contains(#[trigger] pixels[i]) by {
        lemma_distinct_colors_cover(pixels, i);
    }
    lemma_exact_palette(pixels, palette, width, strength, pixels.len());
    assert(expand(mapped(pixels, palette, width, strength), palette) =~= pixels);
}

/// What is assembled from a palette of one entry is uniform.
proof fn lemma_expanded_uniform(indices: Seq<u8>, palette: Seq<Pixel>)
    requires
        indices_in_range(indices, palette.len()),
        palette.len() == 1,
    ensures
        uniform(bytes_of(expand(indices, palette))),
{
    let chosen = expand(indices, palette);
    let bytes = bytes_of(chosen);
    lemma_pixels_of_bytes(chosen);
    assert forall|p: int, q: int| 0 <= p < bytes.len() / 4 && 0 <= q < bytes.len() / 4 implies (#[trigger] pixels_of(
        bytes,
    )[p]) == (#[trigger] pixels_of(bytes)[q]) by {
        assert(indices[p] < palette.len());
        assert(indices[q] < palette.len());
        assert(chosen[p] == palette[0]);
        assert(chosen[q] == palette[0]);
    }
}

} // verus!
