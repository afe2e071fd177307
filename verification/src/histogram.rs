//! The distinct colors of an image and how often each occurs.

use vstd::prelude::*;
use std::collections::HashMap;
use crate::color::{lemma_packed_is_injective, Pixel};
use crate::image::Image;

verus! {

/// The pixels as they are seen: each one replaced by its visible form.
pub open spec fn visible_pixels(pixels: Seq<Pixel>) -> Seq<Pixel> {
    Seq::new(pixels.len(), |i: int| pixels[i].visible())
}

/// How often `color` occurs in `pixels`.
pub open spec fn occurrences(pixels: Seq<Pixel>, color: Pixel) -> nat
    decreases pixels.len(),
{
    if pixels.len() == 0 {
        0
    } else {
        occurrences(pixels.drop_last(), color) + if pixels.last() == color {
            1nat
        } else {
            0nat
        }
    }
}

/// The colors of `pixels`, each once, in the order in which they first
/// occur.
pub open spec fn distinct_colors(pixels: Seq<Pixel>) -> Seq<Pixel>
    decreases pixels.len(),
{
    if pixels.len() == 0 {
        Seq::empty()
    } else {
        let before = distinct_colors(pixels.drop_last());
        if before.contains(pixels.last()) {
            before
        } else {
            before.push(pixels.last())
        }
    }
}

/// The sum of the counts.
pub open spec fn total(counts: Seq<u64>) -> nat
    decreases counts.len(),
{
    if counts.len() == 0 {
        0
    } else {
        total(counts.drop_last()) + counts.last() as nat
    }
}

/// The distinct visible colors of an image, each with the number of pixels
/// that show it.
pub struct ColorHistogram {
    colors: Vec<Pixel>,
    counts: Vec<u64>,
}

impl ColorHistogram {
    #[verifier::type_invariant]
    spec fn well_formed(self) -> bool {
        &&& self.colors.len() == self.counts.len()
        &&& self.colors.len() >= 1
        &&& self.colors@.no_duplicates()
        &&& forall|j: int| 0 <= j < self.counts.len() ==> self.counts@[j] >= 1
        &&& total(self.counts@) <= usize::MAX
    }

    /// The colors, in the order of their first occurrence.
    pub closed spec fn colors(self) -> Seq<Pixel> {
        self.colors@
    }

    /// The count of each color, in the same order.
    pub closed spec fn counts(self) -> Seq<u64> {
        self.counts@
    }

    /// What every histogram satisfies: at least one color, one count for
    /// each color, no color twice, no count of 0, and a total that a `usize`
    /// holds.
    pub open spec fn valid(self) -> bool {
        &&& self.colors().len() == self.counts().len()
        &&& self.colors().len() >= 1
        &&& self.colors().no_duplicates()
        &&& forall|j: int| 0 <= j < self.counts().len() ==> self.counts()[j] >= 1
        &&& total(self.counts()) <= usize::MAX
    }

    /// The number of distinct colors.
    pub fn len(&self) -> (n: usize)
        ensures
            n == self.colors().len(),
            self.valid(),
    {
        proof {
            use_type_invariant(self);
        }
        self.colors.len()
    }

    /// The color at position `j`.
    pub fn color(&self, j: usize) -> (c: Pixel)
        requires
            j < self.colors().len(),
        ensures
            c == self.colors()[j as int],
    {
        self.colors[j]
    }

    /// The count of the color at position `j`.
    pub fn count(&self, j: usize) -> (n: u64)
        requires
            j < self.colors().len(),
        ensures
            n == self.counts()[j as int],
            n >= 1,
    {
        proof {
            use_type_invariant(self);
        }
        self.counts[j]
    }
}

/// Counts the distinct visible colors of `image`. Pixels with alpha 0 count
/// as one color, whatever their other channels hold. The counts add up to
/// the number of pixels.
pub fn build_histogram(image: &Image) -> (histogram: ColorHistogram)
    ensures
        histogram.valid(),
        histogram.colors() == distinct_colors(visible_pixels(image@)),
        forall|j: int|
            0 <= j < histogram.colors().len() ==> histogram.counts()[j] == occurrences(
                visible_pixels(image@),
                #[trigger] histogram.colors()[j],
            ),
        total(histogram.counts()) == image@.len(),
{
    broadcast use vstd::std_specs::hash::group_hash_axioms;

    let n: usize = image.len();
    let ghost seen = visible_pixels(image@);
    let mut colors: Vec<Pixel> = Vec::new();
    let mut counts: Vec<u64> = Vec::new();
    let mut index: HashMap<u32, usize> = HashMap::new();
    let mut i: usize = 0;
    while i < n
        invariant
            i <= n,
            n == image@.len(),
            seen == visible_pixels(image@),
            colors@ == distinct_colors(seen.take(i as int)),
            counts@.len() == colors@.len(),
            forall|j: int| 0 <= j < counts@.len() ==> counts@[j] >= 1,
            forall|j: int|
                0 <= j < colors@.len() ==> counts@[j] == occurrences(seen.take(i as int), #[trigger] colors@[j]),
            total(counts@) == i,
            forall|j: int|
                0 <= j < colors@.len() ==> index@.contains_key((#[trigger] colors@[j]).packed())
                    && index@[colors@[j].packed()] == j,
            forall|key: u32| #[trigger]
                index@.contains_key(key) ==> index@[key] < colors@.len() && colors@[index@[key] as int].packed()
                    == key,
        decreases n - i,
    {
        let c: Pixel = image.pixel(i).to_visible();
        let key: u32 = c.pack();
        let ghost before = seen.take(i as int);
        let ghost after = seen.take(i + 1);
        proof {
            assert(after.drop_last() =~= before);
            assert(after.last() == c);
        }
        let found: Option<usize> = match index.get(&key) {
            Some(slot) => Some(*slot),
            None => None,
        };
        match found {
            Some(slot) => {
                proof {
                    lemma_packed_is_injective(colors@[slot as int], c);
                    lemma_occurrences_bound(before, c);
                    lemma_total_update(counts@, slot as int, (counts@[slot as int] + 1) as u64);
                    assert(before.len() == i);
                }
                let count: u64 = counts[slot];
                counts.set(slot, count + 1);
                proof {
                    assert forall|j: int| 0 <= j < colors@.len() implies counts@[j] == occurrences(
                        after,
                        #[trigger] colors@[j],
                    ) by {
                        if j != slot && colors@[j] == c {
                            assert(index@[colors@[j].packed()] == j);
                        }
                    }
                }
            },
            None => {
                proof {
                    assert(!colors@.contains(c)) by {
                        if colors@.contains(c) {
                            let j = choose|j: int| 0 <= j < colors@.len() && colors@[j] == c;
                            assert(index@.contains_key(colors@[j].packed()));
                        }
                    }
                    lemma_absent_color(before, c);
                    lemma_total_push(counts@, 1);
                }
                let ghost old_colors = colors@;
                index.insert(key, colors.len());
                colors.push(c);
                counts.push(1);
                proof {
                    assert forall|j: int| 0 <= j < colors@.len() implies counts@[j] == occurrences(
                        after,
                        #[trigger] colors@[j],
                    ) by {
                        if j < old_colors.len() {
                            assert(colors@[j] == old_colors[j]);
                            assert(old_colors.contains(old_colors[j]));
                        }
                    }
                    assert forall|j: int| 0 <= j < colors@.len() implies index@.contains_key(
                        (#[trigger] colors@[j]).packed(),
                    ) && index@[colors@[j].packed()] == j by {
                        if j < old_colors.len() {
                            assert(colors@[j] == old_colors[j]);
                            assert(old_colors.contains(old_colors[j]));
                            if colors@[j].packed() == key {
                                lemma_packed_is_injective(colors@[j], c);
                            }
                        }
                    }
                }
            },
        }
        i = i + 1;
    }
    proof {
        assert(seen.take(n as int) =~= seen);
        assert(colors@.no_duplicates()) by {
            assert forall|a: int, b: int| 0 <= a < colors@.len() && 0 <= b < colors@.len() && a != b implies colors@[a]
                != colors@[b] by {
                assert(index@[colors@[a].packed()] == a);
                assert(index@[colors@[b].packed()] == b);
            }
        }
    }
    ColorHistogram { colors, counts }
}

/// A color occurs at most as often as there are pixels.
proof fn lemma_occurrences_bound(pixels: Seq<Pixel>, color: Pixel)
    ensures
        occurrences(pixels, color) <= pixels.len(),
    decreases pixels.len(),
{
    if pixels.len() > 0 {
        lemma_occurrences_bound(pixels.drop_last(), color);
    }
}

/// A color that is not among the distinct colors does not occur.
proof fn lemma_absent_color(pixels: Seq<Pixel>, color: Pixel)
    requires
        !distinct_colors(pixels).contains(color),
    ensures
        occurrences(pixels, color) == 0,
    decreases pixels.len(),
{
    if pixels.len() > 0 {
        let before = distinct_colors(pixels.drop_last());
        if before.contains(color) {
            let j = choose|j: int| 0 <= j < before.len() && before[j] == color;
            if !before.contains(pixels.last()) {
                assert(before.push(pixels.last())[j] == color);
            }
            assert(false);
        }
        if pixels.last() == color {
            assert(before.push(color)[before.len() as int] == color);
            assert(false);
        }
        lemma_absent_color(pixels.drop_last(), color);
    }
}

/// Every pixel's color is among the distinct colors.
pub proof fn lemma_distinct_colors_cover(pixels: Seq<Pixel>, i: int)
    requires
        0 <= i < pixels.len(),
    ensures
        distinct_colors(pixels).contains(pixels[i]),
    decreases pixels.len(),
{
    let before = distinct_colors(pixels.drop_last());
    if i < pixels.len() - 1 {
        lemma_distinct_colors_cover(pixels.drop_last(), i);
        let j = choose|j: int| 0 <= j < before.len() && before[j] == pixels[i];
        if !before.contains(pixels.last()) {
            assert(before.push(pixels.last())[j] == pixels[i]);
        }
    } else {
        if !before.contains(pixels.last()) {
            assert(before.push(pixels.last())[before.len() as int] == pixels[i]);
        }
    }
}

proof fn lemma_total_push(counts: Seq<u64>, value: u64)
    ensures
        total(counts.push(value)) == total(counts) + value,
{
    assert(counts.push(value).drop_last() =~= counts);
}

proof fn lemma_total_update(counts: Seq<u64>, j: int, value: u64)
    requires
        0 <= j < counts.len(),
    ensures
        total(counts.update(j, value)) == total(counts) - counts[j] + value,
    decreases counts.len(),
{
    let updated = counts.update(j, value);
    if j == counts.len() - 1 {
        assert(updated.drop_last() =~= counts.drop_last());
    } else {
        lemma_total_update(counts.drop_last(), j, value);
        assert(updated.drop_last() =~= counts.drop_last().update(j, value));
    }
}

} // verus!
