//! The pairwise-distance cache: a square row-major matrix whose cell
//! `(i, j)` holds the population-weighted squared great-circle distance from
//! region `i` to region `j` (weighted by region `j`'s population), as the
//! bit pattern of a non-negative IEEE-754 double. The caller computes the
//! entries once; afterwards every per-candidate score is a pure lookup.

use vstd::prelude::*;

use crate::COST_INFINITY;

verus! {

pub struct DistanceCache {
    entries: Vec<u64>,
    number_of_columns: usize,
}

impl DistanceCache {
    /// The matrix is exactly `n` by `n`.
    pub closed spec fn wf(&self) -> bool {
        self.entries@.len() == self.number_of_columns * self.number_of_columns
    }

    /// The region count `n` the cache was built for.
    pub closed spec fn spec_columns(&self) -> nat {
        self.number_of_columns as nat
    }

    /// The weighted squared distance stored for the pair `(i, j)`.
    pub closed spec fn spec_entry(&self, i: int, j: int) -> u64 {
        self.entries@[i * self.number_of_columns + j]
    }

    /// Wraps a fully built entry table. Succeeds exactly when the table has
    /// one entry per ordered pair of regions, in row-major order.
    pub fn new(entries: Vec<u64>, number_of_columns: usize) -> (r: Option<DistanceCache>)
        ensures
            r is Some <==> entries@.len() == number_of_columns * number_of_columns,
            match r {
                Some(cache) => {
                    &&& cache.wf()
                    &&& cache.spec_columns() == number_of_columns
                    &&& forall|i: int, j: int|
                        0 <= i < number_of_columns && 0 <= j < number_of_columns
                            ==> #[trigger] cache.spec_entry(i, j) == entries@[i
                            * number_of_columns + j]
                },
                None => true,
            },
    {
        let len = entries.len();
        match number_of_columns.checked_mul(number_of_columns) {
            Some(square) if square == len => {
                proof {
                    let n = number_of_columns as int;
                    assert forall|i: int, j: int|
                        0 <= i < n && 0 <= j < n implies 0 <= #[trigger] (i * n + j) < n * n by {
                        assert(0 <= i * n + j < n * n) by (nonlinear_arith)
                            requires
                                0 <= i < n,
                                0 <= j < n,
                        ;
                    }
                }
                Some(DistanceCache { entries, number_of_columns })
            },
            _ => None,
        }
    }

    /// The region count the cache was built for.
    pub fn columns(&self) -> (r: usize)
        ensures
            r == self.spec_columns(),
    {
        self.number_of_columns
    }

    /// Direct lookup of the weighted squared distance from region `index1`
    /// to region `index2`. An out-of-range index is a caller error and is
    /// excluded up front.
    pub fn weighted_squared_distance(&self, index1: usize, index2: usize) -> (r: u64)
        requires
            self.wf(),
            index1 < self.spec_columns(),
            index2 < self.spec_columns(),
        ensures
            r == self.spec_entry(index1 as int, index2 as int),
    {
        let total = self.entries.len();
        proof {
            let n = self.number_of_columns as int;
            assert(index1 * n + index2 < n * n && index1 * n >= 0) by (nonlinear_arith)
                requires
                    0 <= index1 < n,
                    0 <= index2 < n,
            ;
            assert(n * n == total);
        }
        self.entries[index1 * self.number_of_columns + index2]
    }
}

/// The weighted squared distance from the nearest of `locations` to
/// `county`: the minimum of the cached values, the infinite sentinel when
/// there is no location at all.
pub open spec fn spec_nearest_weighted(
    cache: DistanceCache,
    locations: Seq<usize>,
    county: int,
) -> u64
    decreases locations.len(),
{
    if locations.len() == 0 {
        COST_INFINITY
    } else {
        let rest = spec_nearest_weighted(cache, locations.drop_last(), county);
        let d = cache.spec_entry(locations.last() as int, county);
        if d < rest {
            d
        } else {
            rest
        }
    }
}

/// Scores one county against a candidate placement: looks up the weighted
/// squared distance from each chosen location to the county and keeps the
/// minimum (the nearest-location assignment).
pub fn nearest_weighted_squared_distance(
    cache: &DistanceCache,
    locations: &Vec<usize>,
    county_index: usize,
) -> (r: u64)
    requires
        cache.wf(),
        county_index < cache.spec_columns(),
        forall|i: int| 0 <= i < locations@.len() ==> #[trigger] locations@[i] < cache.spec_columns(),
    ensures
        r == spec_nearest_weighted(*cache, locations@, county_index as int),
{
    let mut min_distance: u64 = COST_INFINITY;
    let mut i: usize = 0;
    while i < locations.len()
        invariant
            i <= locations.len(),
            cache.wf(),
            county_index < cache.spec_columns(),
            forall|j: int|
                0 <= j < locations@.len() ==> #[trigger] locations@[j] < cache.spec_columns(),
            min_distance == spec_nearest_weighted(
                *cache,
                locations@.take(i as int),
                county_index as int,
            ),
        decreases locations.len() - i,
    {
        let d = cache.weighted_squared_distance(locations[i], county_index);
        proof {
            assert(locations@.take(i + 1 as int).drop_last() =~= locations@.take(i as int));
            assert(locations@.take(i + 1 as int).last() == locations@[i as int]);
        }
        if d < min_distance {
            min_distance = d;
        }
        i = i + 1;
    }
    proof {
        assert(locations@.take(locations@.len() as int) =~= locations@);
    }
    min_distance
}

/// Scores every county against one candidate placement: entry `j` of the
/// result is the weighted squared distance from the nearest chosen location
/// to county `j`. The caller squares and sums these to get the candidate's
/// total cost.
pub fn nearest_weighted_distances(cache: &DistanceCache, locations: &Vec<usize>) -> (r: Vec<u64>)
    requires
        cache.wf(),
        forall|i: int| 0 <= i < locations@.len() ==> #[trigger] locations@[i] < cache.spec_columns(),
    ensures
        r@.len() == cache.spec_columns(),
        forall|j: int|
            0 <= j < cache.spec_columns() ==> #[trigger] r@[j] == spec_nearest_weighted(
                *cache,
                locations@,
                j,
            ),
{
    let n = cache.columns();
    let mut result: Vec<u64> = Vec::new();
    let mut j: usize = 0;
    while j < n
        invariant
            j <= n,
            n == cache.spec_columns(),
            cache.wf(),
            forall|i: int|
                0 <= i < locations@.len() ==> #[trigger] locations@[i] < cache.spec_columns(),
            result@.len() == j,
            forall|j2: int|
                0 <= j2 < j ==> #[trigger] result@[j2] == spec_nearest_weighted(
                    *cache,
                    locations@,
                    j2,
                ),
        decreases n - j,
    {
        let d = nearest_weighted_squared_distance(cache, locations, j);
        result.push(d);
        j = j + 1;
    }
    result
}

} // verus!
