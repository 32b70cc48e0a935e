//! The nearest-assignment tally: every county is assigned to the nearest
//! of a small fixed set of anchor locations (ties to the first anchor in
//! input order) and its population is added to that anchor's sum.
//!
//! As everywhere in this crate, distances arrive as the bit patterns of
//! non-negative IEEE-754 doubles and are compared as unsigned integers; the
//! caller computes the county-to-anchor distance table outside and hands it
//! in, row per county.

use vstd::prelude::*;

use crate::county::CountyData;

verus! {

/// The position of the first minimum of a non-empty sequence: a later
/// value displaces the running minimum only when strictly smaller.
pub open spec fn spec_argmin_first(values: Seq<u64>) -> int
    decreases values.len(),
{
    if values.len() <= 1 {
        0
    } else {
        let rest = spec_argmin_first(values.drop_last());
        if values.last() < values[rest] {
            values.len() - 1
        } else {
            rest
        }
    }
}

/// The first minimum is a position of the sequence.
pub proof fn lemma_argmin_bounds(values: Seq<u64>)
    requires
        values.len() > 0,
    ensures
        0 <= spec_argmin_first(values) < values.len(),
    decreases values.len(),
{
    if values.len() > 1 {
        lemma_argmin_bounds(values.drop_last());
    }
}

/// First-minimum law: nothing is smaller than the value at
/// `spec_argmin_first`, and everything before that position is strictly
/// larger — the tie between equally near anchors goes to the first one in
/// input order.
pub proof fn lemma_argmin_is_first_minimum(values: Seq<u64>)
    requires
        values.len() > 0,
    ensures
        forall|j: int|
            0 <= j < values.len() ==> #[trigger] values[j] >= values[spec_argmin_first(values)],
        forall|j: int|
            0 <= j < spec_argmin_first(values) ==> #[trigger] values[j] > values[spec_argmin_first(
                values,
            )],
    decreases values.len(),
{
    lemma_argmin_bounds(values);
    if values.len() > 1 {
        let rest = values.drop_last();
        lemma_argmin_bounds(rest);
        lemma_argmin_is_first_minimum(rest);
        assert(forall|j: int| 0 <= j < rest.len() ==> rest[j] == #[trigger] values[j]);
    }
}

/// Total population over the counties.
pub open spec fn spec_population_total(counties: Seq<CountyData>) -> int
    decreases counties.len(),
{
    if counties.len() == 0 {
        0
    } else {
        spec_population_total(counties.drop_last()) + counties.last().population
    }
}

/// The population sums per anchor after assigning every county to its
/// nearest anchor, ties to the first anchor in input order. Row `j` of
/// `distances` holds county `j`'s distance to each anchor.
pub open spec fn spec_tally_sums(
    counties: Seq<CountyData>,
    distances: Seq<Seq<u64>>,
    num_anchors: nat,
) -> Seq<int>
    decreases counties.len(),
{
    if counties.len() == 0 {
        Seq::new(num_anchors, |l: int| 0)
    } else {
        let prev = spec_tally_sums(counties.drop_last(), distances.drop_last(), num_anchors);
        let l = spec_argmin_first(distances.last());
        prev.update(l, prev[l] + counties.last().population)
    }
}

/// Each anchor's sum stays between zero and the total population.
pub proof fn lemma_tally_sums_bounds(
    counties: Seq<CountyData>,
    distances: Seq<Seq<u64>>,
    num_anchors: nat,
)
    requires
        counties.len() == distances.len(),
        forall|j: int| 0 <= j < distances.len() ==> (#[trigger] distances[j]).len() == num_anchors,
        counties.len() > 0 ==> num_anchors > 0,
    ensures
        spec_tally_sums(counties, distances, num_anchors).len() == num_anchors,
        forall|l: int|
            0 <= l < num_anchors ==> 0 <= #[trigger] spec_tally_sums(
                counties,
                distances,
                num_anchors,
            )[l] <= spec_population_total(counties),
    decreases counties.len(),
{
    if counties.len() > 0 {
        lemma_tally_sums_bounds(counties.drop_last(), distances.drop_last(), num_anchors);
        lemma_argmin_bounds(distances.last());
        assert(spec_population_total(counties.drop_last()) <= spec_population_total(counties));
    }
}

/// The first position of the minimum of a non-empty vector.
pub fn argmin_first(values: &Vec<u64>) -> (r: usize)
    requires
        values@.len() > 0,
    ensures
        r == spec_argmin_first(values@),
        r < values@.len(),
{
    proof {
        lemma_argmin_bounds(values@);
    }
    let mut best: usize = 0;
    let mut i: usize = 1;
    while i < values.len()
        invariant
            1 <= i <= values@.len(),
            best == spec_argmin_first(values@.take(i as int)),
            best < i,
        decreases values@.len() - i,
    {
        proof {
            assert(values@.take(i + 1 as int).drop_last() =~= values@.take(i as int));
            assert(values@.take(i + 1 as int).last() == values@[i as int]);
            lemma_argmin_bounds(values@.take(i as int));
        }
        if values[i] < values[best] {
            best = i;
        }
        i = i + 1;
    }
    proof {
        assert(values@.take(values@.len() as int) =~= values@);
    }
    best
}

/// Tallies population per anchor: county `j` (with distance row `j`) is
/// assigned to its nearest anchor — ties to the first anchor in input
/// order — and contributes its whole population to that anchor's sum.
///
/// The sums are exact: entry `l` of the result equals the arithmetic sum of
/// the populations of exactly the counties whose nearest anchor is `l`.
pub fn count_closest_population(
    counties: &Vec<CountyData>,
    distances: &Vec<Vec<u64>>,
    num_anchors: usize,
) -> (r: Vec<u32>)
    requires
        distances@.len() == counties@.len(),
        forall|j: int|
            0 <= j < distances@.len() ==> (#[trigger] distances@[j])@.len() == num_anchors,
        counties@.len() > 0 ==> num_anchors > 0,
        spec_population_total(counties@) <= u32::MAX,
    ensures
        r@.len() == num_anchors,
        forall|l: int|
            0 <= l < num_anchors ==> #[trigger] r@[l] as int == spec_tally_sums(
                counties@,
                distances@.map_values(|v: Vec<u64>| v@),
                num_anchors as nat,
            )[l],
{
    let ghost dist_rows = distances@.map_values(|v: Vec<u64>| v@);
    let mut counts: Vec<u32> = Vec::new();
    let mut l: usize = 0;
    while l < num_anchors
        invariant
            l <= num_anchors,
            counts@.len() == l,
            forall|l2: int| 0 <= l2 < l ==> #[trigger] counts@[l2] == 0,
        decreases num_anchors - l,
    {
        counts.push(0);
        l = l + 1;
    }
    let n = counties.len();
    let mut j: usize = 0;
    proof {
        assert(counts@.map_values(|c: u32| c as int) =~= spec_tally_sums(
            counties@.take(0),
            dist_rows.take(0),
            num_anchors as nat,
        ));
    }
    while j < n
        invariant
            j <= n,
            n == counties@.len(),
            distances@.len() == n,
            dist_rows == distances@.map_values(|v: Vec<u64>| v@),
            forall|j2: int|
                0 <= j2 < distances@.len() ==> (#[trigger] distances@[j2])@.len() == num_anchors,
            n > 0 ==> num_anchors > 0,
            spec_population_total(counties@) <= u32::MAX,
            counts@.len() == num_anchors,
            counts@.map_values(|c: u32| c as int) == spec_tally_sums(
                counties@.take(j as int),
                dist_rows.take(j as int),
                num_anchors as nat,
            ),
        decreases n - j,
    {
        let nearest = argmin_first(&distances[j]);
        proof {
            assert(dist_rows[j as int] == distances@[j as int]@);
            assert(counties@.take(j + 1 as int).drop_last() =~= counties@.take(j as int));
            assert(dist_rows.take(j + 1 as int).drop_last() =~= dist_rows.take(j as int));
            assert(counties@.take(j + 1 as int).last() == counties@[j as int]);
            assert(dist_rows.take(j + 1 as int).last() == dist_rows[j as int]);
            lemma_tally_sums_bounds(
                counties@.take(j as int),
                dist_rows.take(j as int),
                num_anchors as nat,
            );
            lemma_population_total_take_bound(counties@, j as int);
            assert(counts@.map_values(|c: u32| c as int)[nearest as int] == counts@[nearest
                as int] as int);
            assert(counts@[nearest as int] as int == spec_tally_sums(
                counties@.take(j as int),
                dist_rows.take(j as int),
                num_anchors as nat,
            )[nearest as int]);
            assert(counts@[nearest as int] + counties@[j as int].population <= u32::MAX);
        }
        let updated = counts[nearest] + counties[j].population;
        counts.set(nearest, updated);
        proof {
            assert(counts@.map_values(|c: u32| c as int) =~= spec_tally_sums(
                counties@.take(j + 1 as int),
                dist_rows.take(j + 1 as int),
                num_anchors as nat,
            ));
        }
        j = j + 1;
    }
    proof {
        assert(counties@.take(n as int) =~= counties@);
        assert(dist_rows.take(n as int) =~= dist_rows);
    }
    counts
}

/// The population of a prefix of the counties is at most the whole total.
proof fn lemma_population_total_take_bound(counties: Seq<CountyData>, j: int)
    requires
        0 <= j <= counties.len(),
    ensures
        spec_population_total(counties.take(j)) + if j < counties.len() {
            counties[j].population as int
        } else {
            0
        } <= spec_population_total(counties),
    decreases counties.len() - j,
{
    if j < counties.len() {
        lemma_population_total_take_bound(counties, j + 1);
        assert(counties.take(j + 1).drop_last() =~= counties.take(j));
        assert(counties.take(j + 1).last() == counties[j]);
    } else {
        assert(counties.take(j) =~= counties);
    }
}

} // verus!
