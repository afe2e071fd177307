//! Clusters of colors: what is measured of them and how they are cut.

use vstd::prelude::*;
use crate::color::{channel_weight, squared_difference, Pixel};
use crate::histogram::total;

verus! {

/// The sum of the first `n` terms.
pub open spec fn sum_of(terms: Seq<u128>, n: int) -> int
    decreases n,
{
    if n <= 0 {
        0
    } else {
        sum_of(terms, n - 1) + terms[n - 1]
    }
}

/// The sum of those of the first `n` terms whose color is assigned to
/// cluster `c`.
pub open spec fn cluster_sum(terms: Seq<u128>, assign: Seq<u8>, c: int, n: int) -> int
    decreases n,
{
    if n <= 0 {
        0
    } else {
        cluster_sum(terms, assign, c, n - 1) + if assign[n - 1] == c {
            terms[n - 1] as int
        } else {
            0
        }
    }
}

/// The sum over a cluster is part of the sum over all.
pub(crate) proof fn lemma_cluster_sum_within(terms: Seq<u128>, assign: Seq<u8>, c: int, n: int)
    ensures
        0 <= cluster_sum(terms, assign, c, n) <= sum_of(terms, n),
    decreases n,
{
    if n > 0 {
        lemma_cluster_sum_within(terms, assign, c, n - 1);
    }
}

/// The sum of fewer terms is the smaller.
pub(crate) proof fn lemma_sum_of_grows(terms: Seq<u128>, i: int, n: int)
    requires
        i <= n,
    ensures
        sum_of(terms, i) <= sum_of(terms, n),
    decreases n - i,
{
    if i < n {
        lemma_sum_of_grows(terms, i, n - 1);
    } else {
        lemma_cluster_sum_within(terms, Seq::empty(), 0, i);
    }
}

/// Terms that are each at most `factor` times a count add up to at most
/// `factor` times the total of the counts.
pub(crate) proof fn lemma_sum_of_bounded(terms: Seq<u128>, counts: Seq<u64>, factor: int, n: int)
    requires
        0 <= n <= counts.len(),
        0 <= factor,
        forall|i: int| 0 <= i < n ==> (#[trigger] terms[i]) <= factor * counts[i],
    ensures
        sum_of(terms, n) <= factor * total(counts.take(n)),
    decreases n,
{
    if n > 0 {
        lemma_sum_of_bounded(terms, counts, factor, n - 1);
        assert(counts.take(n).drop_last() =~= counts.take(n - 1));
        assert(counts.take(n).last() == counts[n - 1]);
        let before = total(counts.take(n - 1)) as int;
        let last = counts[n - 1] as int;
        assert(factor * (before + last) == factor * before + factor * last) by (nonlinear_arith);
    } else {
        assert(factor * 0 == 0);
    }
}

/// Terms that are each at most `factor` times a unit add up, over a
/// cluster, to at most `factor` times the sum of the units.
pub(crate) proof fn lemma_cluster_sum_scaled(
    terms: Seq<u128>,
    units: Seq<u128>,
    factor: int,
    assign: Seq<u8>,
    c: int,
    n: int,
)
    requires
        0 <= factor,
        forall|i: int| 0 <= i < n ==> (#[trigger] terms[i]) <= factor * units[i],
    ensures
        cluster_sum(terms, assign, c, n) <= factor * cluster_sum(units, assign, c, n),
    decreases n,
{
    if n > 0 {
        lemma_cluster_sum_scaled(terms, units, factor, assign, c, n - 1);
        let before = cluster_sum(units, assign, c, n - 1);
        let last = units[n - 1] as int;
        assert(factor * (before + last) == factor * before + factor * last) by (nonlinear_arith);
        assert(terms[n - 1] <= factor * units[n - 1]);
    } else {
        assert(factor * 0 == 0);
    }
}

/// The scale of a cluster's variance: it is kept in 65536ths.
pub const VARIANCE_SCALE: u128 = 65536;

/// A mean rounded to the nearest whole number, halves upward; 0 for an
/// empty cluster.
pub open spec fn rounded_mean(sum: int, weight: int) -> int {
    if weight <= 0 {
        0
    } else {
        (2 * sum + weight) / (2 * weight)
    }
}

/// A mean rounded down; 0 for an empty cluster.
pub open spec fn floor_mean(sum: int, weight: int) -> int {
    if weight <= 0 {
        0
    } else {
        sum / weight
    }
}

/// The channel with the largest spread; of several, the first.
pub open spec fn widest(red: int, green: int, blue: int, alpha: int) -> int {
    let first = if green > red {
        1
    } else {
        0int
    };
    let first_spread = if green > red {
        green
    } else {
        red
    };
    let second = if blue > first_spread {
        2
    } else {
        first
    };
    let second_spread = if blue > first_spread {
        blue
    } else {
        first_spread
    };
    if alpha > second_spread {
        3
    } else {
        second
    }
}

/// For each color its count.
pub open spec fn weight_terms(counts: Seq<u64>) -> Seq<u128> {
    Seq::new(counts.len(), |i: int| counts[i] as u128)
}

/// For each color its count times its value in channel `ch`.
pub open spec fn channel_terms(colors: Seq<Pixel>, counts: Seq<u64>, ch: int) -> Seq<u128> {
    Seq::new(counts.len(), |i: int| (counts[i] * colors[i].channel(ch)) as u128)
}

/// What is measured of one cluster.
#[derive(Clone, Copy, Debug, PartialEq, Eq, Structural)]
pub struct ClusterStats {
    /// The number of pixels whose color is in the cluster.
    pub weight: u128,
    /// The color that stands for the cluster.
    pub center: Pixel,
    /// The channel along which the cluster varies most.
    pub axis: u8,
    /// Where the cluster is cut along that channel.
    pub cut: u8,
    /// The weighted sum of squared deviations along that channel.
    pub spread: u128,
    /// The spread per pixel, in 65536ths.
    pub variance: u128,
}

/// The colors of a histogram, each assigned to one of `clusters` clusters.
pub struct Partition {
    /// The distinct colors.
    pub colors: Seq<Pixel>,
    /// For each color the number of pixels that show it.
    pub counts: Seq<u64>,
    /// For each color the number of its cluster.
    pub assign: Seq<u8>,
    /// The number of clusters.
    pub clusters: int,
}

impl Partition {
    /// Every color has a count and a cluster, and the counts add up to what
    /// a `usize` holds.
    pub open spec fn valid(self) -> bool {
        &&& self.colors.len() == self.counts.len()
        &&& self.assign.len() == self.counts.len()
        &&& 1 <= self.clusters <= 256
        &&& forall|i: int| 0 <= i < self.assign.len() ==> (#[trigger] self.assign[i]) < self.clusters
        &&& total(self.counts) <= usize::MAX
    }

    /// The partition that holds all colors in one cluster.
    pub open spec fn single(colors: Seq<Pixel>, counts: Seq<u64>) -> Partition {
        Partition { colors, counts, assign: Seq::new(counts.len(), |i: int| 0u8), clusters: 1 }
    }

    /// For each color its count times the square of what its value in
    /// channel `ch` is away from the center of its cluster.
    pub open spec fn deviation_terms(self, ch: int) -> Seq<u128> {
        Seq::new(
            self.counts.len(),
            |i: int|
                (self.counts[i] * squared_difference(
                    self.colors[i].channel(ch) as int,
                    self.center(self.assign[i] as int).channel(ch) as int,
                )) as u128,
        )
    }

    /// The number of pixels in cluster `c`.
    pub open spec fn weight(self, c: int) -> int {
        cluster_sum(weight_terms(self.counts), self.assign, c, self.counts.len() as int)
    }

    /// The sum of channel `ch` over the pixels in cluster `c`.
    pub open spec fn channel_sum(self, c: int, ch: int) -> int {
        cluster_sum(channel_terms(self.colors, self.counts, ch), self.assign, c, self.counts.len() as int)
    }

    /// The color that stands for cluster `c`: in each channel the mean of
    /// its pixels, rounded.
    pub open spec fn center(self, c: int) -> Pixel {
        Pixel {
            r: rounded_mean(self.channel_sum(c, 0), self.weight(c)) as u8,
            g: rounded_mean(self.channel_sum(c, 1), self.weight(c)) as u8,
            b: rounded_mean(self.channel_sum(c, 2), self.weight(c)) as u8,
            a: rounded_mean(self.channel_sum(c, 3), self.weight(c)) as u8,
        }
    }

    /// The centers of all clusters.
    pub open spec fn centers(self) -> Seq<Pixel> {
        Seq::new(self.clusters as nat, |c: int| self.center(c))
    }

    /// How far the pixels of cluster `c` lie from its center along channel
    /// `ch`: the sum of their squared deviations, weighted as the channel
    /// is seen.
    pub open spec fn spread(self, c: int, ch: int) -> int {
        channel_weight(ch) * cluster_sum(self.deviation_terms(ch), self.assign, c, self.counts.len() as int)
    }

    /// The channel along which cluster `c` varies most.
    pub open spec fn axis(self, c: int) -> int {
        widest(self.spread(c, 0), self.spread(c, 1), self.spread(c, 2), self.spread(c, 3))
    }

    /// What is measured of cluster `c`.
    pub open spec fn stats_of(self, c: int) -> ClusterStats {
        let axis = self.axis(c);
        let weight = self.weight(c);
        let spread = self.spread(c, axis);
        ClusterStats {
            weight: weight as u128,
            center: self.center(c),
            axis: axis as u8,
            cut: floor_mean(self.channel_sum(c, axis), weight) as u8,
            spread: spread as u128,
            variance: if weight <= 0 {
                0
            } else {
                (spread * VARIANCE_SCALE / weight) as u128
            },
        }
    }

    /// What is measured of every cluster.
    pub open spec fn stats(self) -> Seq<ClusterStats> {
        Seq::new(self.clusters as nat, |c: int| self.stats_of(c))
    }

    /// The partition after cluster `c` is cut in two: its colors above the
    /// cut along its axis move to a new cluster.
    pub open spec fn split(self, c: int) -> Partition {
        let stats = self.stats_of(c);
        Partition {
            colors: self.colors,
            counts: self.counts,
            assign: moved(self.colors, self.assign, c as u8, stats.axis, stats.cut, self.clusters as u8),
            clusters: self.clusters + 1,
        }
    }

    /// The partition after cutting until there are `target` clusters or no
    /// cluster that can be cut.
    pub open spec fn refined(self, target: int) -> Partition
        decreases target - self.clusters,
    {
        if self.clusters >= target {
            self
        } else {
            let c = pick_among(self.stats(), self.clusters);
            if c < 0 {
                self
            } else {
                self.split(c).refined(target)
            }
        }
    }
}

/// The assignment after the colors of cluster `c` whose value in channel
/// `axis` is above `cut` have moved to cluster `fresh`.
pub open spec fn moved(colors: Seq<Pixel>, assign: Seq<u8>, c: u8, axis: u8, cut: u8, fresh: u8) -> Seq<u8> {
    Seq::new(
        assign.len(),
        |i: int|
            if assign[i] == c && colors[i].channel(axis as int) > cut {
                fresh
            } else {
                assign[i]
            },
    )
}

/// Whether a cluster is to be cut before another: it has the greater
/// variance, or the same variance and the greater weight.
pub open spec fn preferred(a: ClusterStats, b: ClusterStats) -> bool {
    a.variance > b.variance || (a.variance == b.variance && a.weight > b.weight)
}

/// The cluster to cut among the first `n`: of those that vary at all, the
/// one preferred to all others, and of several the first. -1 if none
/// varies.
pub open spec fn pick_among(stats: Seq<ClusterStats>, n: int) -> int
    decreases n,
{
    if n <= 0 {
        -1
    } else {
        let before = pick_among(stats, n - 1);
        if stats[n - 1].spread == 0 {
            before
        } else if before < 0 || preferred(stats[n - 1], stats[before]) {
            n - 1
        } else {
            before
        }
    }
}

/// The palette that clustering gives: the centers of the clusters into
/// which the colors are cut, at most `target` of them.
pub open spec fn cluster_palette(colors: Seq<Pixel>, counts: Seq<u64>, target: int) -> Seq<Pixel> {
    Partition::single(colors, counts).refined(target).centers()
}

/// The palette for a histogram: its colors themselves where they are few
/// enough, and the centers of the clusters otherwise.
pub open spec fn palette_of(colors: Seq<Pixel>, counts: Seq<u64>, max_colors: int) -> Seq<Pixel> {
    if colors.len() <= max_colors {
        colors
    } else {
        cluster_palette(colors, counts, max_colors)
    }
}

} // verus!
