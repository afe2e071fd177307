//! What holds of the clusters however often they are cut: none is empty and
//! no two share a center.

use vstd::prelude::*;
use crate::color::{channel_weight, squared_difference, Pixel};
use crate::histogram::total;
use crate::partition::{
    channel_terms, cluster_sum, floor_mean, lemma_cluster_sum_scaled, lemma_cluster_sum_within,
    lemma_sum_of_bounded, palette_of, pick_among, rounded_mean, weight_terms, ClusterStats, Partition,
};

verus! {

/// A term of a cluster is part of the cluster's sum.
proof fn lemma_member_within(terms: Seq<u128>, assign: Seq<u8>, c: int, i: int, n: int)
    requires
        0 <= i < n,
        assign[i] == c,
    ensures
        terms[i] <= cluster_sum(terms, assign, c, n),
    decreases n,
{
    if i < n - 1 {
        lemma_member_within(terms, assign, c, i, n - 1);
    } else {
        lemma_cluster_sum_within(terms, assign, c, n - 1);
    }
}

/// A cluster whose sum is positive has a positive term.
proof fn lemma_positive_member(terms: Seq<u128>, assign: Seq<u8>, c: int, n: int) -> (i: int)
    requires
        cluster_sum(terms, assign, c, n) > 0,
    ensures
        0 <= i < n,
        assign[i] == c,
        terms[i] > 0,
    decreases n,
{
    if n <= 0 {
        0
    } else if assign[n - 1] == c && terms[n - 1] > 0 {
        n - 1
    } else {
        lemma_positive_member(terms, assign, c, n - 1)
    }
}

/// The quotient of a division lies within one divisor of the dividend.
proof fn lemma_floor_mean(sum: int, weight: int)
    requires
        0 <= sum,
        0 < weight,
    ensures
        floor_mean(sum, weight) * weight <= sum < (floor_mean(sum, weight) + 1) * weight,
{
    vstd::arithmetic::div_mod::lemma_fundamental_div_mod(sum, weight);
    vstd::arithmetic::div_mod::lemma_mod_bound(sum, weight);
    let q = sum / weight;
    assert(weight * q == q * weight) by (nonlinear_arith);
    assert((q + 1) * weight == q * weight + weight) by (nonlinear_arith);
}

/// A sum of at most `bound` per unit of weight has a rounded mean of at
/// most `bound`, and one of at least `bound` per unit has a rounded mean of
/// at least `bound`.
proof fn lemma_rounded_mean(sum: int, weight: int, bound: int)
    requires
        0 <= sum,
        0 < weight,
        0 <= bound,
    ensures
        sum <= bound * weight ==> rounded_mean(sum, weight) <= bound,
        sum >= bound * weight ==> rounded_mean(sum, weight) >= bound,
{
    let dividend = 2 * sum + weight;
    let divisor = 2 * weight;
    lemma_floor_mean(dividend, divisor);
    let q = dividend / divisor;
    assert(q == rounded_mean(sum, weight));
    if sum <= bound * weight {
        assert(q <= bound) by (nonlinear_arith)
            requires
                q * divisor <= dividend,
                dividend == 2 * sum + weight,
                divisor == 2 * weight,
                sum <= bound * weight,
                0 < weight,
        ;
    }
    if sum >= bound * weight {
        assert(q >= bound) by (nonlinear_arith)
            requires
                dividend < (q + 1) * divisor,
                dividend == 2 * sum + weight,
                divisor == 2 * weight,
                sum >= bound * weight,
                0 < weight,
        ;
    }
}

impl Partition {
    /// Color `i` is in cluster `c`.
    pub open spec fn holds(self, c: int, i: int) -> bool {
        0 <= i < self.assign.len() && self.assign[i] == c
    }

    /// Cluster `c` holds a color.
    pub open spec fn inhabited(self, c: int) -> bool {
        exists|i: int| self.holds(c, i)
    }

    /// Every cluster holds a color.
    pub open spec fn populated(self) -> bool {
        forall|c: int| 0 <= c < self.clusters ==> #[trigger] self.inhabited(c)
    }

    /// Every color has been counted at least once.
    pub open spec fn counted(self) -> bool {
        forall|i: int| 0 <= i < self.counts.len() ==> (#[trigger] self.counts[i]) >= 1
    }

    /// No color of cluster `c` is above `bound` in channel `ch`.
    pub open spec fn below(self, c: int, ch: int, bound: int) -> bool {
        forall|i: int| #[trigger] self.holds(c, i) ==> self.colors[i].channel(ch) <= bound
    }

    /// Every color of cluster `c` is above `bound` in channel `ch`.
    pub open spec fn above(self, c: int, ch: int, bound: int) -> bool {
        forall|i: int| #[trigger] self.holds(c, i) ==> self.colors[i].channel(ch) > bound
    }

    /// In channel `ch` one of the clusters `a` and `b` lies above `bound`
    /// and the other does not.
    pub open spec fn cut_between(self, a: int, b: int, ch: int, bound: int) -> bool {
        &&& 0 <= ch < 4
        &&& 0 <= bound < 255
        &&& (self.below(a, ch, bound) && self.above(b, ch, bound)) || (self.below(b, ch, bound) && self.above(
            a,
            ch,
            bound,
        ))
    }

    /// Some value of some channel lies between the clusters `a` and `b`.
    pub open spec fn apart(self, a: int, b: int) -> bool {
        exists|ch: int, bound: int| self.cut_between(a, b, ch, bound)
    }

    /// A value of a channel lies between any two clusters.
    pub open spec fn separated(self) -> bool {
        forall|a: int, b: int| 0 <= a < b < self.clusters ==> #[trigger] self.apart(a, b)
    }

    /// What cutting keeps: every cluster holds a color and any two lie
    /// apart.
    pub open spec fn sound(self) -> bool {
        &&& self.valid()
        &&& self.counted()
        &&& self.populated()
        &&& self.separated()
    }
}

/// The sum of a channel over a cluster whose colors are at most `bound` in
/// it is at most `bound` times the weight, less what color `j` of the
/// cluster lacks of `bound`.
proof fn lemma_sum_at_most(part: Partition, c: int, ch: int, bound: int, j: int, n: int)
    requires
        part.colors.len() == part.counts.len(),
        part.assign.len() == part.counts.len(),
        0 <= n <= part.counts.len(),
        0 <= bound,
        forall|i: int| 0 <= i < n && part.assign[i] == c ==> (#[trigger] part.colors[i]).channel(ch) <= bound,
    ensures
        cluster_sum(channel_terms(part.colors, part.counts, ch), part.assign, c, n) + (if 0 <= j < n
            && part.assign[j] == c {
            (bound - part.colors[j].channel(ch)) * part.counts[j]
        } else {
            0
        }) <= bound * cluster_sum(weight_terms(part.counts), part.assign, c, n),
    decreases n,
{
    if n > 0 {
        lemma_sum_at_most(part, c, ch, bound, j, n - 1);
        let weight = part.counts[n - 1] as int;
        let value = part.colors[n - 1].channel(ch) as int;
        let before = cluster_sum(weight_terms(part.counts), part.assign, c, n - 1);
        assert(0 <= weight * value <= 255 * weight) by (nonlinear_arith)
            requires
                0 <= value <= 255,
                0 <= weight,
        ;
        assert(channel_terms(part.colors, part.counts, ch)[n - 1] == weight * value);
        assert(weight_terms(part.counts)[n - 1] == weight);
        if part.assign[n - 1] == c {
            assert(bound * (before + weight) == bound * before + bound * weight) by (nonlinear_arith);
            assert((bound - value) * weight + weight * value == bound * weight) by (nonlinear_arith);
            assert((bound - value) * weight >= 0) by (nonlinear_arith)
                requires
                    value <= bound,
                    0 <= weight,
            ;
        }
    } else {
        assert(bound * 0 == 0);
    }
}

/// The sum of a channel over a cluster whose colors are at least `bound` in
/// it is at least `bound` times the weight.
proof fn lemma_sum_at_least(part: Partition, c: int, ch: int, bound: int, n: int)
    requires
        part.colors.len() == part.counts.len(),
        part.assign.len() == part.counts.len(),
        0 <= n <= part.counts.len(),
        0 <= bound,
        forall|i: int| 0 <= i < n && part.assign[i] == c ==> (#[trigger] part.colors[i]).channel(ch) >= bound,
    ensures
        cluster_sum(channel_terms(part.colors, part.counts, ch), part.assign, c, n) >= bound * cluster_sum(
            weight_terms(part.counts),
            part.assign,
            c,
            n,
        ),
    decreases n,
{
    if n > 0 {
        lemma_sum_at_least(part, c, ch, bound, n - 1);
        let weight = part.counts[n - 1] as int;
        let value = part.colors[n - 1].channel(ch) as int;
        let before = cluster_sum(weight_terms(part.counts), part.assign, c, n - 1);
        assert(0 <= weight * value <= 255 * weight) by (nonlinear_arith)
            requires
                0 <= value <= 255,
                0 <= weight,
        ;
        assert(channel_terms(part.colors, part.counts, ch)[n - 1] == weight * value);
        assert(weight_terms(part.counts)[n - 1] == weight);
        if part.assign[n - 1] == c {
            assert(bound * (before + weight) == bound * before + bound * weight) by (nonlinear_arith);
            assert(weight * value >= bound * weight) by (nonlinear_arith)
                requires
                    value >= bound,
                    0 <= weight,
            ;
        }
    } else {
        assert(bound * 0 == 0);
    }
}

/// The sum of a channel over a cluster is at most 255 times its weight, and
/// the weight is at most the number of pixels.
pub(crate) proof fn lemma_sums_bounded(part: Partition, c: int, ch: int)
    requires
        part.valid(),
    ensures
        0 <= part.weight(c) <= usize::MAX,
        0 <= part.channel_sum(c, ch) <= 255 * part.weight(c),
{
    let n = part.counts.len() as int;
    let weights = weight_terms(part.counts);
    let sums = channel_terms(part.colors, part.counts, ch);
    assert forall|i: int| 0 <= i < n implies (#[trigger] weights[i]) <= 1 * part.counts[i] by {}
    lemma_sum_of_bounded(weights, part.counts, 1, n);
    assert(part.counts.take(n) =~= part.counts);
    lemma_cluster_sum_within(weights, part.assign, c, n);
    lemma_cluster_sum_within(sums, part.assign, c, n);
    assert forall|i: int| 0 <= i < n implies (#[trigger] sums[i]) <= 255 * weights[i] by {
        let count = part.counts[i] as int;
        let value = part.colors[i].channel(ch) as int;
        assert(0 <= count * value <= 255 * count) by (nonlinear_arith)
            requires
                0 <= value <= 255,
                0 <= count,
        ;
    }
    lemma_cluster_sum_scaled(sums, weights, 255, part.assign, c, n);
}

/// The squared deviations of a channel over a cluster add up to at most
/// 65025 times the number of pixels.
proof fn lemma_deviations_bounded(part: Partition, c: int, ch: int)
    requires
        part.valid(),
    ensures
        0 <= cluster_sum(part.deviation_terms(ch), part.assign, c, part.counts.len() as int) <= 65025
            * usize::MAX,
        forall|i: int|
            0 <= i < part.counts.len() ==> (#[trigger] part.deviation_terms(ch)[i]) == part.counts[i]
                * squared_difference(
                part.colors[i].channel(ch) as int,
                part.center(part.assign[i] as int).channel(ch) as int,
            ),
{
    let n = part.counts.len() as int;
    let terms = part.deviation_terms(ch);
    assert forall|i: int| 0 <= i < n implies (#[trigger] terms[i]) <= 65025 * part.counts[i] && terms[i]
        == part.counts[i] * squared_difference(
        part.colors[i].channel(ch) as int,
        part.center(part.assign[i] as int).channel(ch) as int,
    ) by {
        let count = part.counts[i] as int;
        let value = part.colors[i].channel(ch) as int;
        let middle = part.center(part.assign[i] as int).channel(ch) as int;
        assert(0 <= (value - middle) * (value - middle) <= 65025) by (nonlinear_arith)
            requires
                0 <= value <= 255,
                0 <= middle <= 255,
        ;
        let deviation = squared_difference(value, middle);
        assert(0 <= count * deviation <= 65025 * count) by (nonlinear_arith)
            requires
                0 <= deviation <= 65025,
                0 <= count,
        ;
    }
    lemma_sum_of_bounded(terms, part.counts, 65025, n);
    assert(part.counts.take(n) =~= part.counts);
    lemma_cluster_sum_within(terms, part.assign, c, n);
    assert(65025 * total(part.counts) <= 65025 * usize::MAX);
}

/// What is recorded of a cluster that holds a color is what the partition
/// defines, without loss.
proof fn lemma_stats_of(part: Partition, c: int)
    requires
        part.valid(),
        part.counted(),
        part.inhabited(c),
    ensures
        1 <= part.weight(c) <= usize::MAX,
        0 <= part.axis(c) < 4,
        part.stats_of(c).weight == part.weight(c),
        part.stats_of(c).axis == part.axis(c),
        part.stats_of(c).cut == floor_mean(part.channel_sum(c, part.axis(c)), part.weight(c)),
        part.stats_of(c).spread == part.spread(c, part.axis(c)),
        0 <= part.spread(c, part.axis(c)),
        forall|ch: int|
            0 <= ch < 4 ==> 0 <= #[trigger] part.channel_sum(c, ch) <= 255 * part.weight(c) && part.center(
                c,
            ).channel(ch) == rounded_mean(part.channel_sum(c, ch), part.weight(c)),
{
    let n = part.counts.len() as int;
    let i = choose|i: int| part.holds(c, i);
    lemma_member_within(weight_terms(part.counts), part.assign, c, i, n);
    assert(part.counts[i] >= 1);
    lemma_sums_bounded(part, c, 0);
    lemma_sums_bounded(part, c, 1);
    lemma_sums_bounded(part, c, 2);
    lemma_sums_bounded(part, c, 3);
    let weight = part.weight(c);
    assert forall|ch: int| 0 <= ch < 4 implies 0 <= #[trigger] part.channel_sum(c, ch) <= 255 * weight
        && part.center(c).channel(ch) == rounded_mean(part.channel_sum(c, ch), weight) by {
        lemma_rounded_mean(part.channel_sum(c, ch), weight, 255);
        lemma_rounded_mean(part.channel_sum(c, ch), weight, 0);
    }
    lemma_deviations_bounded(part, c, 0);
    lemma_deviations_bounded(part, c, 1);
    lemma_deviations_bounded(part, c, 2);
    lemma_deviations_bounded(part, c, 3);
    let axis = part.axis(c);
    let sum = part.channel_sum(c, axis);
    lemma_floor_mean(sum, weight);
    assert(floor_mean(sum, weight) <= 255) by (nonlinear_arith)
        requires
            floor_mean(sum, weight) * weight <= sum,
            sum <= 255 * weight,
            0 < weight,
    ;
    assert(floor_mean(sum, weight) >= 0) by (nonlinear_arith)
        requires
            sum < (floor_mean(sum, weight) + 1) * weight,
            0 <= sum,
            0 < weight,
    ;
}

/// A cluster that varies along its axis has a color on either side of its
/// cut: the first returned is not above the cut, the second is.
pub proof fn lemma_cut_divides(part: Partition, c: int) -> (sides: (int, int))
    requires
        part.valid(),
        part.counted(),
        part.inhabited(c),
        part.spread(c, part.axis(c)) > 0,
    ensures
        part.holds(c, sides.0),
        part.colors[sides.0].channel(part.axis(c)) <= floor_mean(
            part.channel_sum(c, part.axis(c)),
            part.weight(c),
        ),
        part.holds(c, sides.1),
        part.colors[sides.1].channel(part.axis(c)) > floor_mean(
            part.channel_sum(c, part.axis(c)),
            part.weight(c),
        ),
{
    let n = part.counts.len() as int;
    let axis = part.axis(c);
    let weight = part.weight(c);
    let sum = part.channel_sum(c, axis);
    let cut = floor_mean(sum, weight);
    lemma_stats_of(part, c);
    lemma_floor_mean(sum, weight);
    assert(0 <= cut) by (nonlinear_arith)
        requires
            sum < (cut + 1) * weight,
            0 <= sum,
            0 < weight,
    ;
    if forall|i: int| part.holds(c, i) ==> part.colors[i].channel(axis) > cut {
        assert forall|i: int| 0 <= i < n && part.assign[i] == c implies (#[trigger] part.colors[i]).channel(axis)
            >= cut + 1 by {
            assert(part.holds(c, i));
        }
        lemma_sum_at_least(part, c, axis, cut + 1, n);
        assert(false);
    }
    let low = choose|i: int| part.holds(c, i) && part.colors[i].channel(axis) <= cut;
    if forall|i: int| part.holds(c, i) ==> part.colors[i].channel(axis) <= cut {
        let terms = part.deviation_terms(axis);
        let deviations = cluster_sum(terms, part.assign, c, n);
        lemma_deviations_bounded(part, c, axis);
        assert(deviations > 0) by (nonlinear_arith)
            requires
                channel_weight(axis) * deviations > 0,
                channel_weight(axis) > 0,
        ;
        let odd = lemma_positive_member(terms, part.assign, c, n);
        assert(part.holds(c, odd));
        let value = part.colors[odd].channel(axis) as int;
        let count = part.counts[odd] as int;
        assert forall|i: int| 0 <= i < n && part.assign[i] == c implies (#[trigger] part.colors[i]).channel(axis)
            <= cut by {
            assert(part.holds(c, i));
        }
        lemma_sum_at_most(part, c, axis, cut, odd, n);
        assert(value == cut) by (nonlinear_arith)
            requires
                sum + (cut - value) * count <= cut * weight,
                cut * weight <= sum,
                value <= cut,
                count >= 1,
        ;
        lemma_rounded_mean(sum, weight, cut);
        assert(part.center(c).channel(axis) == cut);
        assert(squared_difference(cut, cut) == 0) by (nonlinear_arith);
        assert(terms[odd] == count * squared_difference(value, part.center(c).channel(axis) as int));
        assert(count * 0 == 0);
        assert(false);
    }
    let high = choose|i: int| part.holds(c, i) && part.colors[i].channel(axis) > cut;
    (low, high)
}

/// Cutting a cluster that varies keeps the partition sound.
pub proof fn lemma_split_sound(part: Partition, c: int)
    requires
        part.sound(),
        0 <= c < part.clusters,
        part.clusters < 256,
        part.stats_of(c).spread != 0,
    ensures
        part.split(c).sound(),
        part.split(c).clusters == part.clusters + 1,
{
    let after = part.split(c);
    let fresh = part.clusters;
    let axis = part.axis(c);
    let cut = floor_mean(part.channel_sum(c, axis), part.weight(c));
    assert(part.inhabited(c));
    lemma_stats_of(part, c);
    let sides = lemma_cut_divides(part, c);
    let low = sides.0;
    let high = sides.1;
    assert(0 <= cut < 255);
    assert forall|d: int, i: int| #[trigger] after.holds(d, i) && d != fresh implies part.holds(d, i) by {}
    assert forall|d: int, i: int| #[trigger] part.holds(d, i) && d != c implies after.holds(d, i) by {
        assert(part.assign[i] < part.clusters);
    }
    assert forall|i: int| #[trigger] after.holds(fresh, i) implies part.holds(c, i) && part.colors[i].channel(axis)
        > cut by {
        assert(part.assign[i] < part.clusters);
    }
    assert forall|i: int| #[trigger] after.holds(c, i) implies part.holds(c, i) && part.colors[i].channel(axis)
        <= cut by {}
    assert(after.valid()) by {
        assert forall|i: int| 0 <= i < after.assign.len() implies (#[trigger] after.assign[i]) < after.clusters by {
            assert(part.assign[i] < part.clusters);
        }
    }
    assert(after.populated()) by {
        assert forall|d: int| 0 <= d < after.clusters implies #[trigger] after.inhabited(d) by {
            if d == fresh {
                assert(after.holds(fresh, high));
            } else if d == c {
                assert(after.holds(c, low));
            } else {
                assert(part.inhabited(d));
                let i = choose|i: int| part.holds(d, i);
                assert(after.holds(d, i));
            }
        }
    }
    assert(after.separated()) by {
        assert forall|a: int, b: int| 0 <= a < b < after.clusters implies #[trigger] after.apart(a, b) by {
            if b == fresh && a == c {
                assert(after.below(c, axis, cut));
                assert(after.above(fresh, axis, cut));
                assert(after.cut_between(a, b, axis, cut));
            } else {
                let from = if b == fresh {
                    c
                } else {
                    b
                };
                let first = if a < from {
                    a
                } else {
                    from
                };
                let second = if a < from {
                    from
                } else {
                    a
                };
                assert(part.apart(first, second));
                let (ch, bound) = choose|ch: int, bound: int| part.cut_between(first, second, ch, bound);
                assert(part.cut_between(first, second, ch, bound));
                if part.below(a, ch, bound) && part.above(from, ch, bound) {
                    assert(after.below(a, ch, bound));
                    assert(after.above(b, ch, bound));
                } else {
                    assert(part.below(from, ch, bound) && part.above(a, ch, bound));
                    assert(after.below(b, ch, bound));
                    assert(after.above(a, ch, bound));
                }
                assert(after.cut_between(a, b, ch, bound));
            }
        }
    }
}

/// The cluster that is picked is one of those asked about, and it varies.
proof fn lemma_pick_among(stats: Seq<ClusterStats>, n: int)
    ensures
        -1 <= pick_among(stats, n) < n || (n <= 0 && pick_among(stats, n) == -1),
        pick_among(stats, n) >= 0 ==> stats[pick_among(stats, n)].spread != 0,
    decreases n,
{
    if n > 0 {
        lemma_pick_among(stats, n - 1);
    }
}

/// Cutting a sound partition as far as asked leaves it sound, with no more
/// clusters than asked for.
pub proof fn lemma_refined_sound(part: Partition, target: int)
    requires
        part.sound(),
        part.clusters <= target <= 256,
    ensures
        part.refined(target).sound(),
        part.clusters <= part.refined(target).clusters <= target,
        part.refined(target).colors == part.colors,
        part.refined(target).counts == part.counts,
    decreases target - part.clusters,
{
    if part.clusters < target {
        lemma_pick_among(part.stats(), part.clusters);
        let c = pick_among(part.stats(), part.clusters);
        if c >= 0 {
            assert(part.stats()[c] == part.stats_of(c));
            lemma_split_sound(part, c);
            lemma_refined_sound(part.split(c), target);
        }
    }
}

/// No two clusters of a sound partition have the same center.
pub proof fn lemma_centers_distinct(part: Partition)
    requires
        part.sound(),
    ensures
        part.centers().no_duplicates(),
        part.centers().len() == part.clusters,
{
    let n = part.counts.len() as int;
    let centers = part.centers();
    assert forall|a: int, b: int| 0 <= a < centers.len() && 0 <= b < centers.len() && a != b implies centers[a]
        != centers[b] by {
        let first = if a < b {
            a
        } else {
            b
        };
        let second = if a < b {
            b
        } else {
            a
        };
        assert(part.apart(first, second));
        let (ch, bound) = choose|ch: int, bound: int| part.cut_between(first, second, ch, bound);
        assert(part.cut_between(first, second, ch, bound));
        let under = if part.below(first, ch, bound) && part.above(second, ch, bound) {
            first
        } else {
            second
        };
        let over = if under == first {
            second
        } else {
            first
        };
        assert(part.below(under, ch, bound) && part.above(over, ch, bound));
        assert(part.inhabited(under));
        assert(part.inhabited(over));
        lemma_stats_of(part, under);
        lemma_stats_of(part, over);
        assert forall|i: int| 0 <= i < n && part.assign[i] == under implies (#[trigger] part.colors[i]).channel(ch)
            <= bound by {
            assert(part.holds(under, i));
        }
        assert forall|i: int| 0 <= i < n && part.assign[i] == over implies (#[trigger] part.colors[i]).channel(ch)
            >= bound + 1 by {
            assert(part.holds(over, i));
        }
        lemma_sum_at_most(part, under, ch, bound, -1, n);
        lemma_sum_at_least(part, over, ch, bound + 1, n);
        lemma_rounded_mean(part.channel_sum(under, ch), part.weight(under), bound);
        lemma_rounded_mean(part.channel_sum(over, ch), part.weight(over), bound + 1);
        assert(part.center(under).channel(ch) <= bound);
        assert(part.center(over).channel(ch) >= bound + 1);
    }
}

/// The cluster numbers below `k`.
spec fn numbers_below(k: int) -> Set<u8> {
    Set::new(|x: u8| (x as int) < k)
}

/// There are at most `k` cluster numbers below `k`.
proof fn lemma_numbers_below(k: int)
    requires
        0 <= k <= 256,
    ensures
        numbers_below(k).finite(),
        numbers_below(k).len() <= k,
    decreases k,
{
    if k == 0 {
        assert(numbers_below(0) =~= Set::<u8>::empty());
    } else {
        lemma_numbers_below(k - 1);
        assert(numbers_below(k) =~= numbers_below(k - 1).insert((k - 1) as u8));
    }
}

/// Where there are more colors than clusters, some cluster holds two
/// colors.
proof fn lemma_crowded(part: Partition) -> (pair: (int, int))
    requires
        part.valid(),
        part.clusters < part.colors.len(),
    ensures
        pair.0 != pair.1,
        part.holds(part.assign[pair.0] as int, pair.0),
        part.holds(part.assign[pair.0] as int, pair.1),
{
    if part.assign.no_duplicates() {
        part.assign.unique_seq_to_set();
        lemma_numbers_below(part.clusters);
        assert(part.assign.to_set().subset_of(numbers_below(part.clusters))) by {
            assert forall|x: u8| part.assign.to_set().contains(x) implies numbers_below(part.clusters).contains(
                x,
            ) by {
                let i = choose|i: int| 0 <= i < part.assign.len() && part.assign[i] == x;
                assert(part.assign[i] < part.clusters);
            }
        }
        vstd::set_lib::lemma_len_subset(part.assign.to_set(), numbers_below(part.clusters));
        assert(false);
    }
    choose|i: int, j: int|
        0 <= i < part.assign.len() && 0 <= j < part.assign.len() && i != j && part.assign[i] == part.assign[j]
}

/// A cluster that holds two colors varies.
proof fn lemma_varied(part: Partition, c: int, i: int, j: int)
    requires
        part.valid(),
        part.counted(),
        part.holds(c, i),
        part.holds(c, j),
        part.colors[i] != part.colors[j],
    ensures
        part.stats_of(c).spread != 0,
{
    let n = part.counts.len() as int;
    assert(part.inhabited(c));
    lemma_stats_of(part, c);
    let first = part.colors[i];
    let second = part.colors[j];
    let ch: int = if first.r != second.r {
        0
    } else if first.g != second.g {
        1
    } else if first.b != second.b {
        2
    } else {
        3
    };
    assert(first.channel(ch) != second.channel(ch));
    let middle = part.center(c).channel(ch) as int;
    let odd = if first.channel(ch) != middle {
        i
    } else {
        j
    };
    let value = part.colors[odd].channel(ch) as int;
    let count = part.counts[odd] as int;
    let terms = part.deviation_terms(ch);
    lemma_deviations_bounded(part, c, ch);
    assert(terms[odd] == count * squared_difference(value, middle));
    assert(count * squared_difference(value, middle) > 0) by (nonlinear_arith)
        requires
            count >= 1,
            value != middle,
            squared_difference(value, middle) == (value - middle) * (value - middle),
    ;
    lemma_member_within(terms, part.assign, c, odd, n);
    assert(part.spread(c, ch) > 0) by (nonlinear_arith)
        requires
            part.spread(c, ch) == channel_weight(ch) * cluster_sum(terms, part.assign, c, n),
            channel_weight(ch) >= 1,
            cluster_sum(terms, part.assign, c, n) > 0,
    ;
    assert(part.spread(c, part.axis(c)) >= part.spread(c, ch));
}

/// Where some cluster varies, one is picked.
proof fn lemma_pick_finds(stats: Seq<ClusterStats>, n: int, c: int)
    requires
        0 <= c < n,
        stats[c].spread != 0,
    ensures
        pick_among(stats, n) >= 0,
    decreases n,
{
    if c < n - 1 {
        lemma_pick_finds(stats, n - 1, c);
    }
    lemma_pick_among(stats, n - 1);
}

/// Where the colors are no fewer than the clusters asked for, cutting
/// reaches that number.
pub proof fn lemma_refined_full(part: Partition, target: int)
    requires
        part.sound(),
        part.colors.no_duplicates(),
        part.clusters <= target <= 256,
        target <= part.colors.len(),
    ensures
        part.refined(target).clusters == target,
    decreases target - part.clusters,
{
    if part.clusters < target {
        let pair = lemma_crowded(part);
        let c = part.assign[pair.0] as int;
        lemma_varied(part, c, pair.0, pair.1);
        assert(part.stats()[c] == part.stats_of(c));
        lemma_pick_finds(part.stats(), part.clusters, c);
        lemma_pick_among(part.stats(), part.clusters);
        let picked = pick_among(part.stats(), part.clusters);
        assert(part.stats()[picked] == part.stats_of(picked));
        lemma_split_sound(part, picked);
        lemma_refined_full(part.split(picked), target);
    }
}

/// The palette of a histogram holds as many colors as asked for, or all
/// colors of the histogram if those are fewer, and no color twice.
pub proof fn lemma_palette_distinct(colors: Seq<Pixel>, counts: Seq<u64>, max_colors: int)
    requires
        colors.len() == counts.len(),
        colors.len() >= 1,
        colors.no_duplicates(),
        forall|i: int| 0 <= i < counts.len() ==> (#[trigger] counts[i]) >= 1,
        total(counts) <= usize::MAX,
        1 <= max_colors <= 256,
    ensures
        palette_of(colors, counts, max_colors).no_duplicates(),
        palette_of(colors, counts, max_colors).len() == if colors.len() <= max_colors {
            colors.len() as int
        } else {
            max_colors
        },
{
    if colors.len() > max_colors {
        let start = Partition::single(colors, counts);
        assert(start.inhabited(0)) by {
            assert(start.holds(0, 0));
        }
        assert(start.sound());
        lemma_refined_sound(start, max_colors);
        lemma_refined_full(start, max_colors);
        lemma_centers_distinct(start.refined(max_colors));
    }
}

} // verus!
