//! Writing out the colors that the indices of an image stand for.

use vstd::prelude::*;
use crate::color::{bytes_of, Pixel};
use crate::error::QuantizeError;
use crate::palette::Palette;

verus! {

/// Whether every index names an entry of a palette of `len` entries.
pub open spec fn indices_in_range(indices: Seq<u8>, len: nat) -> bool {
    forall|i: int| 0 <= i < indices.len() ==> (#[trigger] indices[i]) < len
}

/// The pixels that the indices stand for.
pub open spec fn expand(indices: Seq<u8>, palette: Seq<Pixel>) -> Seq<Pixel> {
    Seq::new(indices.len(), |i: int| palette[indices[i] as int])
}

/// Writes out, for each index, the four bytes of the palette entry that it
/// names. An index that names no entry is refused.
pub fn assemble_output(indices: &[u8], palette: &Palette) -> (result: Result<Vec<u8>, QuantizeError>)
    ensures
        match result {
            Ok(bytes) => {
                &&& indices_in_range(indices@, palette@.len())
                &&& bytes@ == bytes_of(expand(indices@, palette@))
                &&& bytes@.len() == 4 * indices@.len()
            },
            Err(e) => !indices_in_range(indices@, palette@.len()) && e == QuantizeError::CorruptIndex,
        },
{
    let n: usize = indices.len();
    let entries: usize = palette.len();
    let ghost pixels = expand(indices@, palette@);
    let mut bytes: Vec<u8> = Vec::with_capacity(n);
    let mut i: usize = 0;
    while i < n
        invariant
            i <= n,
            n == indices@.len(),
            entries == palette@.len(),
            pixels == expand(indices@, palette@),
            bytes@.len() == 4 * i,
            forall|j: int| 0 <= j < i ==> (#[trigger] indices@[j]) < entries,
            forall|b: int| 0 <= b < 4 * i ==> bytes@[b] == (#[trigger] bytes_of(pixels)[b]),
        decreases n - i,
    {
        let index: usize = indices[i] as usize;
        if index >= entries {
            return Err(QuantizeError::CorruptIndex);
        }
        let color: Pixel = palette.color(index);
        assert(pixels[i as int] == color);
        bytes.push(color.r);
        bytes.push(color.g);
        bytes.push(color.b);
        bytes.push(color.a);
        i = i + 1;
    }
    assert(bytes@ =~= bytes_of(pixels));
    Ok(bytes)
}

} // verus!
