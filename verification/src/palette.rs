//! Palettes and the search for the entry nearest to a pixel.

use vstd::prelude::*;
use crate::color::{distance, Pixel};
use crate::error::QuantizeError;

verus! {

/// The largest number of entries of a palette, so that one byte names an
/// entry.
pub const MAX_COLORS: usize = 256;

/// Whether a number of colors can be asked for: at least 1, at most 256.
pub open spec fn color_count_in_range(count: int) -> bool {
    1 <= count <= 256
}

/// The entry that `nearest_index` picks among the first `n` entries.
pub open spec fn nearest_among(palette: Seq<Pixel>, p: Pixel, n: int) -> int
    decreases n,
{
    if n <= 1 {
        0
    } else {
        let best = nearest_among(palette, p, n - 1);
        if distance(palette[n - 1], p) < distance(palette[best], p) {
            n - 1
        } else {
            best
        }
    }
}

/// The index of the palette entry nearest to `p`; of several at the same
/// distance, the first.
pub open spec fn nearest_index(palette: Seq<Pixel>, p: Pixel) -> int {
    nearest_among(palette, p, palette.len() as int)
}

/// Entry `j` is nearest to `p`: no entry is nearer, and every entry before
/// it is farther.
pub open spec fn is_nearest(palette: Seq<Pixel>, p: Pixel, j: int) -> bool {
    &&& 0 <= j < palette.len()
    &&& forall|i: int| 0 <= i < palette.len() ==> distance(palette[j], p) <= distance(#[trigger] palette[i], p)
    &&& forall|i: int| 0 <= i < j ==> distance(palette[j], p) < distance(#[trigger] palette[i], p)
}

/// An ordered set of one to 256 colors.
pub struct Palette {
    entries: Vec<Pixel>,
}

impl View for Palette {
    type V = Seq<Pixel>;

    /// The entries in order.
    closed spec fn view(&self) -> Seq<Pixel> {
        self.entries@
    }
}

impl Palette {
    #[verifier::type_invariant]
    spec fn well_formed(self) -> bool {
        1 <= self.entries.len() <= 256
    }

    /// Makes a palette of the given colors, in their order. An empty list
    /// or one of more than 256 colors is refused.
    pub fn from_colors(colors: Vec<Pixel>) -> (result: Result<Palette, QuantizeError>)
        ensures
            match result {
                Ok(palette) => color_count_in_range(colors@.len() as int) && palette@ == colors@,
                Err(e) => !color_count_in_range(colors@.len() as int) && e == QuantizeError::InvalidColorCount,
            },
    {
        if colors.len() < 1 || colors.len() > MAX_COLORS {
            return Err(QuantizeError::InvalidColorCount);
        }
        Ok(Palette { entries: colors })
    }

    /// The number of entries.
    pub fn len(&self) -> (n: usize)
        ensures
            n == self@.len(),
            1 <= n <= 256,
    {
        proof {
            use_type_invariant(self);
        }
        self.entries.len()
    }

    /// The entry at index `j`.
    pub fn color(&self, j: usize) -> (c: Pixel)
        requires
            j < self@.len(),
        ensures
            c == self@[j as int],
    {
        self.entries[j]
    }

    /// Finds the entry nearest to `p` under the perceptual distance. Where
    /// several entries are equally near, the one with the lowest index is
    /// returned.
    pub fn nearest(&self, p: Pixel) -> (j: u8)
        ensures
            j == nearest_index(self@, p),
            is_nearest(self@, p, j as int),
    {
        proof {
            use_type_invariant(self);
            lemma_nearest_among(self@, p, self@.len() as int);
        }
        let n: usize = self.entries.len();
        let mut best: usize = 0;
        let mut best_distance: u32 = self.entries[0].distance_to(&p);
        let mut i: usize = 1;
        while i < n
            invariant
                1 <= i <= n,
                n == self.entries@.len(),
                n <= 256,
                best == nearest_among(self.entries@, p, i as int),
                best < i,
                best_distance == distance(self.entries@[best as int], p),
            decreases n - i,
        {
            let d: u32 = self.entries[i].distance_to(&p);
            if d < best_distance {
                best = i;
                best_distance = d;
            }
            i = i + 1;
        }
        best as u8
    }
}

/// `nearest_among` picks, among the first `n` entries, one that is nearest
/// and before which every entry is farther.
pub proof fn lemma_nearest_among(palette: Seq<Pixel>, p: Pixel, n: int)
    requires
        1 <= n <= palette.len(),
    ensures
        0 <= nearest_among(palette, p, n) < n,
        forall|i: int|
            0 <= i < n ==> distance(palette[nearest_among(palette, p, n)], p) <= distance(#[trigger] palette[i], p),
        forall|i: int|
            0 <= i < nearest_among(palette, p, n) ==> distance(palette[nearest_among(palette, p, n)], p)
                < distance(#[trigger] palette[i], p),
    decreases n,
{
    if n > 1 {
        lemma_nearest_among(palette, p, n - 1);
    }
}

/// At most one entry is nearest to a pixel.
pub proof fn lemma_nearest_is_unique(palette: Seq<Pixel>, p: Pixel, a: int, b: int)
    requires
        is_nearest(palette, p, a),
        is_nearest(palette, p, b),
    ensures
        a == b,
{
    if a < b {
        assert(distance(palette[b], p) < distance(palette[a], p));
        assert(distance(palette[a], p) <= distance(palette[b], p));
    } else if b < a {
        assert(distance(palette[a], p) < distance(palette[b], p));
        assert(distance(palette[b], p) <= distance(palette[a], p));
    }
}

} // verus!
