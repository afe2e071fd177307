//! Choosing a palette: the colors of a histogram are cut into clusters and
//! every cluster gives its mean color.

use vstd::prelude::*;
use crate::color::{square_of_difference, Pixel};
use crate::error::QuantizeError;
use crate::histogram::ColorHistogram;
use crate::invariants::{lemma_palette_distinct, lemma_sums_bounded};
use crate::palette::{color_count_in_range, Palette};
use crate::partition::{
    channel_terms, cluster_palette, cluster_sum, floor_mean, lemma_cluster_sum_within, lemma_sum_of_bounded,
    lemma_sum_of_grows, moved, palette_of, pick_among, rounded_mean, sum_of, weight_terms, widest, ClusterStats,
    Partition, VARIANCE_SCALE,
};

verus! {

/// The partition of a histogram's colors under an assignment.
spec fn partition_of(histogram: ColorHistogram, assign: Seq<u8>, clusters: int) -> Partition {
    Partition { colors: histogram.colors(), counts: histogram.counts(), assign, clusters }
}

/// Adds up the terms cluster by cluster.
fn accumulate(terms: &Vec<u128>, assign: &Vec<u8>, clusters: usize) -> (sums: Vec<u128>)
    requires
        terms@.len() == assign@.len(),
        sum_of(terms@, terms@.len() as int) <= u128::MAX,
    ensures
        sums@.len() == clusters,
        forall|c: int|
            0 <= c < clusters ==> (#[trigger] sums@[c]) == cluster_sum(terms@, assign@, c, terms@.len() as int),
{
    let n: usize = terms.len();
    let mut sums: Vec<u128> = Vec::new();
    let mut c: usize = 0;
    while c < clusters
        invariant
            c <= clusters,
            sums@.len() == c,
            forall|j: int| 0 <= j < c ==> (#[trigger] sums@[j]) == 0,
        decreases clusters - c,
    {
        sums.push(0);
        c = c + 1;
    }
    let mut i: usize = 0;
    while i < n
        invariant
            i <= n,
            n == terms@.len(),
            n == assign@.len(),
            sums@.len() == clusters,
            sum_of(terms@, n as int) <= u128::MAX,
            forall|c: int| 0 <= c < clusters ==> (#[trigger] sums@[c]) == cluster_sum(terms@, assign@, c, i as int),
        decreases n - i,
    {
        let slot: usize = assign[i] as usize;
        if slot < clusters {
            proof {
                lemma_cluster_sum_within(terms@, assign@, slot as int, i + 1);
                lemma_sum_of_grows(terms@, i + 1, n as int);
            }
            let sum: u128 = sums[slot];
            sums.set(slot, sum + terms[i]);
        }
        i = i + 1;
    }
    sums
}


/// Computes `rounded_mean`.
fn rounded_mean_of(sum: u128, weight: u128) -> (mean: u8)
    requires
        sum <= 255 * weight,
        weight <= u64::MAX,
    ensures
        mean == rounded_mean(sum as int, weight as int),
{
    if weight == 0 {
        0
    } else {
        let mean: u128 = (2 * sum + weight) / (2 * weight);
        assert(mean <= 255) by (nonlinear_arith)
            requires
                mean == (2 * sum + weight) / (2 * weight),
                sum <= 255 * weight,
                weight > 0,
        ;
        mean as u8
    }
}

/// Computes `floor_mean`.
fn floor_mean_of(sum: u128, weight: u128) -> (mean: u8)
    requires
        sum <= 255 * weight,
    ensures
        mean == floor_mean(sum as int, weight as int),
{
    if weight == 0 {
        0
    } else {
        let mean: u128 = sum / weight;
        assert(mean <= 255) by (nonlinear_arith)
            requires
                mean == sum / weight,
                sum <= 255 * weight,
                weight > 0,
        ;
        mean as u8
    }
}

/// Computes `widest`.
fn widest_of(red: u128, green: u128, blue: u128, alpha: u128) -> (axis: u8)
    ensures
        axis == widest(red as int, green as int, blue as int, alpha as int),
        axis < 4,
{
    let mut axis: u8 = 0;
    let mut spread: u128 = red;
    if green > spread {
        axis = 1;
        spread = green;
    }
    if blue > spread {
        axis = 2;
        spread = blue;
    }
    if alpha > spread {
        axis = 3;
    }
    axis
}

/// The count of each color, as terms to add up.
fn weight_terms_of(histogram: &ColorHistogram) -> (terms: Vec<u128>)
    ensures
        terms@ == weight_terms(histogram.counts()),
        sum_of(terms@, terms@.len() as int) <= usize::MAX,
{
    let m: usize = histogram.len();
    let mut terms: Vec<u128> = Vec::with_capacity(m);
    let mut i: usize = 0;
    while i < m
        invariant
            i <= m,
            m == histogram.colors().len(),
            histogram.valid(),
            terms@.len() == i,
            forall|j: int| 0 <= j < i ==> (#[trigger] terms@[j]) == histogram.counts()[j],
        decreases m - i,
    {
        terms.push(histogram.count(i) as u128);
        i = i + 1;
    }
    proof {
        assert(terms@ =~= weight_terms(histogram.counts()));
        assert forall|j: int| 0 <= j < m implies (#[trigger] terms@[j]) <= 1 * histogram.counts()[j] by {}
        lemma_sum_of_bounded(terms@, histogram.counts(), 1, m as int);
        assert(histogram.counts().take(m as int) =~= histogram.counts());
    }
    terms
}

/// The count of each color times its value in channel `ch`.
fn channel_terms_of(histogram: &ColorHistogram, ch: usize) -> (terms: Vec<u128>)
    requires
        ch < 4,
    ensures
        terms@ == channel_terms(histogram.colors(), histogram.counts(), ch as int),
        sum_of(terms@, terms@.len() as int) <= 255 * usize::MAX,
{
    let m: usize = histogram.len();
    let mut terms: Vec<u128> = Vec::with_capacity(m);
    let mut i: usize = 0;
    while i < m
        invariant
            i <= m,
            ch < 4,
            m == histogram.colors().len(),
            histogram.valid(),
            terms@.len() == i,
            forall|j: int|
                0 <= j < i ==> (#[trigger] terms@[j]) == histogram.counts()[j] * histogram.colors()[j].channel(
                    ch as int,
                ),
            forall|j: int| 0 <= j < i ==> (#[trigger] terms@[j]) <= 255 * histogram.counts()[j],
        decreases m - i,
    {
        let count: u128 = histogram.count(i) as u128;
        let value: u128 = histogram.color(i).get(ch) as u128;
        assert(count * value <= 255 * count) by (nonlinear_arith)
            requires
                value <= 255,
                count >= 0,
        ;
        terms.push(count * value);
        i = i + 1;
    }
    proof {
        assert(terms@ =~= channel_terms(histogram.colors(), histogram.counts(), ch as int));
        lemma_sum_of_bounded(terms@, histogram.counts(), 255, m as int);
        assert(histogram.counts().take(m as int) =~= histogram.counts());
    }
    terms
}

/// The count of each color times its squared deviation from the center of
/// its cluster in channel `ch`.
fn deviation_terms_of(histogram: &ColorHistogram, assign: &Vec<u8>, centers: &Vec<Pixel>, ch: usize) -> (terms:
    Vec<u128>)
    requires
        ch < 4,
        partition_of(*histogram, assign@, centers@.len() as int).valid(),
        forall|c: int|
            0 <= c < centers@.len() ==> (#[trigger] centers@[c]) == partition_of(
                *histogram,
                assign@,
                centers@.len() as int,
            ).center(c),
    ensures
        terms@ == partition_of(*histogram, assign@, centers@.len() as int).deviation_terms(ch as int),
        sum_of(terms@, terms@.len() as int) <= 65025 * usize::MAX,
        forall|j: int| 0 <= j < terms@.len() ==> (#[trigger] terms@[j]) <= 65025 * histogram.counts()[j],
{
    let m: usize = histogram.len();
    let ghost part = partition_of(*histogram, assign@, centers@.len() as int);
    let mut terms: Vec<u128> = Vec::with_capacity(m);
    let mut i: usize = 0;
    while i < m
        invariant
            i <= m,
            ch < 4,
            m == histogram.colors().len(),
            histogram.valid(),
            part == partition_of(*histogram, assign@, centers@.len() as int),
            part.valid(),
            forall|c: int| 0 <= c < centers@.len() ==> (#[trigger] centers@[c]) == part.center(c),
            terms@.len() == i,
            forall|j: int| 0 <= j < i ==> (#[trigger] terms@[j]) == part.deviation_terms(ch as int)[j],
            forall|j: int| 0 <= j < i ==> (#[trigger] terms@[j]) <= 65025 * histogram.counts()[j],
        decreases m - i,
    {
        let count: u128 = histogram.count(i) as u128;
        let slot: usize = assign[i] as usize;
        assert(part.assign[i as int] < part.clusters);
        let center: Pixel = centers[slot];
        let deviation: u128 = square_of_difference(histogram.color(i).get(ch), center.get(ch)) as u128;
        assert(count * deviation <= 65025 * count) by (nonlinear_arith)
            requires
                deviation <= 65025,
                count >= 0,
        ;
        terms.push(count * deviation);
        i = i + 1;
    }
    proof {
        assert(terms@ =~= part.deviation_terms(ch as int));
        lemma_sum_of_bounded(terms@, histogram.counts(), 65025, m as int);
        assert(histogram.counts().take(m as int) =~= histogram.counts());
    }
    terms
}

/// The terms of a histogram that stay the same however its colors are
/// assigned: the counts, and the counts times each channel.
struct Moments {
    weights: Vec<u128>,
    reds: Vec<u128>,
    greens: Vec<u128>,
    blues: Vec<u128>,
    alphas: Vec<u128>,
}

impl Moments {
    /// These are the terms of `histogram`.
    spec fn of(self, histogram: ColorHistogram) -> bool {
        let colors = histogram.colors();
        let counts = histogram.counts();
        let n = counts.len() as int;
        &&& self.weights@ == weight_terms(counts)
        &&& self.reds@ == channel_terms(colors, counts, 0)
        &&& self.greens@ == channel_terms(colors, counts, 1)
        &&& self.blues@ == channel_terms(colors, counts, 2)
        &&& self.alphas@ == channel_terms(colors, counts, 3)
        &&& sum_of(self.weights@, n) <= usize::MAX
        &&& sum_of(self.reds@, n) <= 255 * usize::MAX
        &&& sum_of(self.greens@, n) <= 255 * usize::MAX
        &&& sum_of(self.blues@, n) <= 255 * usize::MAX
        &&& sum_of(self.alphas@, n) <= 255 * usize::MAX
    }

    fn new(histogram: &ColorHistogram) -> (moments: Moments)
        ensures
            moments.of(*histogram),
    {
        Moments {
            weights: weight_terms_of(histogram),
            reds: channel_terms_of(histogram, 0),
            greens: channel_terms_of(histogram, 1),
            blues: channel_terms_of(histogram, 2),
            alphas: channel_terms_of(histogram, 3),
        }
    }
}

/// Measures every cluster of the partition that `assign` makes of the
/// histogram's colors.
fn measure(histogram: &ColorHistogram, moments: &Moments, assign: &Vec<u8>, clusters: usize) -> (stats: Vec<
    ClusterStats,
>)
    requires
        moments.of(*histogram),
        partition_of(*histogram, assign@, clusters as int).valid(),
    ensures
        stats@ == partition_of(*histogram, assign@, clusters as int).stats(),
{
    let ghost part = partition_of(*histogram, assign@, clusters as int);
    let ghost n = part.counts.len() as int;
    let weights = accumulate(&moments.weights, assign, clusters);
    let reds = accumulate(&moments.reds, assign, clusters);
    let greens = accumulate(&moments.greens, assign, clusters);
    let blues = accumulate(&moments.blues, assign, clusters);
    let alphas = accumulate(&moments.alphas, assign, clusters);
    let mut centers: Vec<Pixel> = Vec::with_capacity(clusters);
    let mut c: usize = 0;
    while c < clusters
        invariant
            c <= clusters,
            part == partition_of(*histogram, assign@, clusters as int),
            part.valid(),
            weights@.len() == clusters,
            reds@.len() == clusters,
            greens@.len() == clusters,
            blues@.len() == clusters,
            alphas@.len() == clusters,
            forall|j: int| 0 <= j < clusters ==> (#[trigger] weights@[j]) == part.weight(j),
            forall|j: int| 0 <= j < clusters ==> (#[trigger] reds@[j]) == part.channel_sum(j, 0),
            forall|j: int| 0 <= j < clusters ==> (#[trigger] greens@[j]) == part.channel_sum(j, 1),
            forall|j: int| 0 <= j < clusters ==> (#[trigger] blues@[j]) == part.channel_sum(j, 2),
            forall|j: int| 0 <= j < clusters ==> (#[trigger] alphas@[j]) == part.channel_sum(j, 3),
            centers@.len() == c,
            forall|j: int| 0 <= j < c ==> (#[trigger] centers@[j]) == part.center(j),
        decreases clusters - c,
    {
        proof {
            lemma_sums_bounded(part, c as int, 0);
            lemma_sums_bounded(part, c as int, 1);
            lemma_sums_bounded(part, c as int, 2);
            lemma_sums_bounded(part, c as int, 3);
        }
        let weight: u128 = weights[c];
        let center = Pixel {
            r: rounded_mean_of(reds[c], weight),
            g: rounded_mean_of(greens[c], weight),
            b: rounded_mean_of(blues[c], weight),
            a: rounded_mean_of(alphas[c], weight),
        };
        centers.push(center);
        c = c + 1;
    }
    let red_terms = deviation_terms_of(histogram, assign, &centers, 0);
    let green_terms = deviation_terms_of(histogram, assign, &centers, 1);
    let blue_terms = deviation_terms_of(histogram, assign, &centers, 2);
    let alpha_terms = deviation_terms_of(histogram, assign, &centers, 3);
    let red_deviations = accumulate(&red_terms, assign, clusters);
    let green_deviations = accumulate(&green_terms, assign, clusters);
    let blue_deviations = accumulate(&blue_terms, assign, clusters);
    let alpha_deviations = accumulate(&alpha_terms, assign, clusters);
    let mut stats: Vec<ClusterStats> = Vec::with_capacity(clusters);
    let mut c: usize = 0;
    while c < clusters
        invariant
            c <= clusters,
            part == partition_of(*histogram, assign@, clusters as int),
            part.valid(),
            n == part.counts.len(),
            weights@.len() == clusters,
            reds@.len() == clusters,
            greens@.len() == clusters,
            blues@.len() == clusters,
            alphas@.len() == clusters,
            centers@.len() == clusters,
            red_deviations@.len() == clusters,
            green_deviations@.len() == clusters,
            blue_deviations@.len() == clusters,
            alpha_deviations@.len() == clusters,
            forall|j: int| 0 <= j < clusters ==> (#[trigger] weights@[j]) == part.weight(j),
            forall|j: int| 0 <= j < clusters ==> (#[trigger] reds@[j]) == part.channel_sum(j, 0),
            forall|j: int| 0 <= j < clusters ==> (#[trigger] greens@[j]) == part.channel_sum(j, 1),
            forall|j: int| 0 <= j < clusters ==> (#[trigger] blues@[j]) == part.channel_sum(j, 2),
            forall|j: int| 0 <= j < clusters ==> (#[trigger] alphas@[j]) == part.channel_sum(j, 3),
            forall|j: int| 0 <= j < clusters ==> (#[trigger] centers@[j]) == part.center(j),
            red_terms@ == part.deviation_terms(0),
            green_terms@ == part.deviation_terms(1),
            blue_terms@ == part.deviation_terms(2),
            alpha_terms@ == part.deviation_terms(3),
            sum_of(red_terms@, n) <= 65025 * usize::MAX,
            sum_of(green_terms@, n) <= 65025 * usize::MAX,
            sum_of(blue_terms@, n) <= 65025 * usize::MAX,
            sum_of(alpha_terms@, n) <= 65025 * usize::MAX,
            forall|j: int|
                0 <= j < clusters ==> (#[trigger] red_deviations@[j]) == cluster_sum(red_terms@, assign@, j, n),
            forall|j: int|
                0 <= j < clusters ==> (#[trigger] green_deviations@[j]) == cluster_sum(green_terms@, assign@, j, n),
            forall|j: int|
                0 <= j < clusters ==> (#[trigger] blue_deviations@[j]) == cluster_sum(blue_terms@, assign@, j, n),
            forall|j: int|
                0 <= j < clusters ==> (#[trigger] alpha_deviations@[j]) == cluster_sum(alpha_terms@, assign@, j, n),
            stats@.len() == c,
            forall|j: int| 0 <= j < c ==> (#[trigger] stats@[j]) == part.stats_of(j),
        decreases clusters - c,
    {
        proof {
            lemma_sums_bounded(part, c as int, 0);
            lemma_sums_bounded(part, c as int, 1);
            lemma_sums_bounded(part, c as int, 2);
            lemma_sums_bounded(part, c as int, 3);
            lemma_cluster_sum_within(red_terms@, assign@, c as int, n);
            lemma_cluster_sum_within(green_terms@, assign@, c as int, n);
            lemma_cluster_sum_within(blue_terms@, assign@, c as int, n);
            lemma_cluster_sum_within(alpha_terms@, assign@, c as int, n);
        }
        let weight: u128 = weights[c];
        let red: u128 = 3 * red_deviations[c];
        let green: u128 = 6 * green_deviations[c];
        let blue: u128 = blue_deviations[c];
        let alpha: u128 = 10 * alpha_deviations[c];
        assert(red == part.spread(c as int, 0));
        assert(green == part.spread(c as int, 1));
        assert(blue == part.spread(c as int, 2));
        assert(alpha == part.spread(c as int, 3));
        let axis: u8 = widest_of(red, green, blue, alpha);
        let spread: u128 = if axis == 0 {
            red
        } else if axis == 1 {
            green
        } else if axis == 2 {
            blue
        } else {
            alpha
        };
        let sum: u128 = if axis == 0 {
            reds[c]
        } else if axis == 1 {
            greens[c]
        } else if axis == 2 {
            blues[c]
        } else {
            alphas[c]
        };
        let cut: u8 = floor_mean_of(sum, weight);
        let variance: u128 = if weight == 0 {
            0
        } else {
            spread * VARIANCE_SCALE / weight
        };
        stats.push(ClusterStats { weight, center: centers[c], axis, cut, spread, variance });
        assert(stats@[c as int] == part.stats_of(c as int));
        c = c + 1;
    }
    assert(stats@ =~= part.stats());
    stats
}

/// Picks the cluster to cut: `None` if no cluster varies.
fn choose_cluster(stats: &Vec<ClusterStats>) -> (pick: Option<usize>)
    ensures
        match pick {
            Some(c) => c < stats@.len() && c == pick_among(stats@, stats@.len() as int),
            None => pick_among(stats@, stats@.len() as int) < 0,
        },
{
    let n: usize = stats.len();
    let mut pick: Option<usize> = None;
    let mut i: usize = 0;
    while i < n
        invariant
            i <= n,
            n == stats@.len(),
            match pick {
                Some(c) => c < i && c == pick_among(stats@, i as int),
                None => pick_among(stats@, i as int) < 0,
            },
        decreases n - i,
    {
        let candidate: ClusterStats = stats[i];
        if candidate.spread != 0 {
            pick = match pick {
                None => Some(i),
                Some(c) => {
                    let held: ClusterStats = stats[c];
                    if candidate.variance > held.variance || (candidate.variance == held.variance
                        && candidate.weight > held.weight) {
                        Some(i)
                    } else {
                        Some(c)
                    }
                },
            };
        }
        i = i + 1;
    }
    pick
}

/// Moves the colors of cluster `c` that lie above `cut` in channel `axis`
/// to cluster `fresh`.
fn split_cluster(histogram: &ColorHistogram, assign: &Vec<u8>, c: u8, axis: u8, cut: u8, fresh: u8) -> (after:
    Vec<u8>)
    requires
        assign@.len() == histogram.colors().len(),
        axis < 4,
    ensures
        after@ == moved(histogram.colors(), assign@, c, axis, cut, fresh),
{
    let m: usize = assign.len();
    let mut after: Vec<u8> = Vec::with_capacity(m);
    let mut i: usize = 0;
    while i < m
        invariant
            i <= m,
            axis < 4,
            m == assign@.len(),
            m == histogram.colors().len(),
            after@.len() == i,
            forall|j: int|
                0 <= j < i ==> (#[trigger] after@[j]) == moved(histogram.colors(), assign@, c, axis, cut, fresh)[j],
        decreases m - i,
    {
        let slot: u8 = assign[i];
        if slot == c && histogram.color(i).get(axis as usize) > cut {
            after.push(fresh);
        } else {
            after.push(slot);
        }
        i = i + 1;
    }
    assert(after@ =~= moved(histogram.colors(), assign@, c, axis, cut, fresh));
    after
}

/// Cuts the colors of the histogram into at most `target` clusters and
/// returns their centers.
fn cluster_colors(histogram: &ColorHistogram, target: usize) -> (centers: Vec<Pixel>)
    requires
        1 <= target <= 256,
    ensures
        centers@ == cluster_palette(histogram.colors(), histogram.counts(), target as int),
        1 <= centers@.len() <= target,
{
    let m: usize = histogram.len();
    let moments = Moments::new(histogram);
    let mut assign: Vec<u8> = Vec::with_capacity(m);
    let mut i: usize = 0;
    while i < m
        invariant
            i <= m,
            assign@.len() == i,
            forall|j: int| 0 <= j < i ==> (#[trigger] assign@[j]) == 0,
        decreases m - i,
    {
        assign.push(0);
        i = i + 1;
    }
    let ghost start = Partition::single(histogram.colors(), histogram.counts());
    assert(assign@ =~= start.assign);
    let mut clusters: usize = 1;
    let mut open: bool = true;
    while open && clusters < target
        invariant
            1 <= clusters <= target <= 256,
            m == histogram.colors().len(),
            histogram.valid(),
            moments.of(*histogram),
            partition_of(*histogram, assign@, clusters as int).valid(),
            partition_of(*histogram, assign@, clusters as int).refined(target as int) == start.refined(target as int),
            !open ==> partition_of(*histogram, assign@, clusters as int).refined(target as int) == partition_of(
                *histogram,
                assign@,
                clusters as int,
            ),
        decreases target - clusters + (if open { 1int } else { 0int }),
    {
        let ghost part = partition_of(*histogram, assign@, clusters as int);
        let stats = measure(histogram, &moments, &assign, clusters);
        match choose_cluster(&stats) {
            None => {
                open = false;
            },
            Some(c) => {
                let chosen: ClusterStats = stats[c];
                assert(chosen == part.stats_of(c as int));
                proof {
                    lemma_axis_in_range(part, c as int);
                }
                assign = split_cluster(histogram, &assign, c as u8, chosen.axis, chosen.cut, clusters as u8);
                clusters = clusters + 1;
                assert(partition_of(*histogram, assign@, clusters as int) == part.split(c as int));
            },
        }
    }
    let ghost part = partition_of(*histogram, assign@, clusters as int);
    assert(part.refined(target as int) == part);
    let stats = measure(histogram, &moments, &assign, clusters);
    let mut centers: Vec<Pixel> = Vec::with_capacity(clusters);
    let mut c: usize = 0;
    while c < clusters
        invariant
            c <= clusters,
            stats@ == part.stats(),
            part.clusters == clusters,
            centers@.len() == c,
            forall|j: int| 0 <= j < c ==> (#[trigger] centers@[j]) == part.center(j),
        decreases clusters - c,
    {
        let measured: ClusterStats = stats[c];
        assert(measured == part.stats_of(c as int));
        centers.push(measured.center);
        c = c + 1;
    }
    assert(centers@ =~= part.centers());
    centers
}

/// The axis of a cluster is one of the four channels.
proof fn lemma_axis_in_range(part: Partition, c: int)
    ensures
        0 <= part.axis(c) < 4,
        part.stats_of(c).axis == part.axis(c),
{
}

/// Chooses the palette for a histogram: at most `max_colors` colors that
/// stand for all of its colors, none of them twice.
///
/// Where the histogram has no more than `max_colors` colors, the palette is
/// those colors, in their order. Otherwise it has exactly `max_colors`
/// entries: the colors start as one cluster, and the cluster whose pixels
/// vary most along one channel is cut in two at its mean on that channel,
/// until there are `max_colors` clusters. Between clusters of the same
/// variance the one of more pixels is cut, and between those the first.
/// Every cluster gives one entry, the mean color of its pixels. A
/// `max_colors` outside `1..=256` is refused.
pub fn construct_palette(histogram: &ColorHistogram, max_colors: u32) -> (result: Result<Palette, QuantizeError>)
    ensures
        match result {
            Ok(palette) => {
                &&& color_count_in_range(max_colors as int)
                &&& palette@ == palette_of(histogram.colors(), histogram.counts(), max_colors as int)
                &&& histogram.colors().len() <= max_colors ==> palette@ == histogram.colors()
                &&& histogram.colors().len() > max_colors ==> palette@.len() == max_colors
                &&& palette@.no_duplicates()
            },
            Err(e) => !color_count_in_range(max_colors as int) && e == QuantizeError::InvalidColorCount,
        },
{
    if max_colors < 1 || max_colors > 256 {
        return Err(QuantizeError::InvalidColorCount);
    }
    let target: usize = max_colors as usize;
    let m: usize = histogram.len();
    proof {
        lemma_palette_distinct(histogram.colors(), histogram.counts(), max_colors as int);
    }
    if m <= target {
        let mut entries: Vec<Pixel> = Vec::with_capacity(m);
        let mut i: usize = 0;
        while i < m
            invariant
                i <= m,
                m == histogram.colors().len(),
                entries@.len() == i,
                forall|j: int| 0 <= j < i ==> (#[trigger] entries@[j]) == histogram.colors()[j],
            decreases m - i,
        {
            entries.push(histogram.color(i));
            i = i + 1;
        }
        assert(entries@ =~= histogram.colors());
        Palette::from_colors(entries)
    } else {
        Palette::from_colors(cluster_colors(histogram, target))
    }
}

} // verus!
