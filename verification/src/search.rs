//! The optimal-placement search: drives the candidate enumeration in
//! bounded chunks and reduces the scored candidates to the single
//! minimum-cost one, under strict less-than tie-breaking (the first
//! candidate, in enumeration order, that reaches the minimum wins).
//!
//! Costs are the bit patterns of non-negative IEEE-754 doubles, compared as
//! unsigned integers (the two orders coincide); the caller computes each
//! chunk's costs — in any way it likes, sequentially or across workers — and
//! hands them back in enumeration order, which keeps the reduction exactly
//! the sequential fold whatever the chunk size.

use vstd::prelude::*;

use crate::COST_INFINITY;
use crate::combinations::{
    clone_indices, complete_enumeration, is_combination, lemma_enumeration_count, spec_binomial,
    Combinations,
};
use crate::county::{Coordinate, CountyData, spec_indices_aligned};

verus! {

/// How starting a search can fail: some county's `index` field does not
/// equal its position in the list.
#[derive(Debug, PartialEq, Eq, Structural, Copy, Clone)]
pub enum SearchError {
    MisalignedIndex,
}

/// The running reduction over scored candidates, oldest first: starting
/// from no candidate at the infinite sentinel cost, each entry replaces the
/// best so far exactly when its cost is strictly smaller. The result is the
/// first entry, in order, that attains the minimum cost.
pub open spec fn spec_fold_min(history: Seq<(Seq<usize>, u64)>) -> (Seq<usize>, u64)
    decreases history.len(),
{
    if history.len() == 0 {
        (Seq::<usize>::empty(), COST_INFINITY)
    } else {
        let prev = spec_fold_min(history.drop_last());
        if history.last().1 < prev.1 {
            history.last()
        } else {
            prev
        }
    }
}

/// Pairs each candidate with its cost, in order.
pub open spec fn spec_zip_costs(candidates: Seq<Seq<usize>>, costs: Seq<u64>) -> Seq<
    (Seq<usize>, u64),
>
    recommends
        candidates.len() == costs.len(),
{
    Seq::new(candidates.len(), |i: int| (candidates[i], costs[i]))
}

/// The reduction never lands above any scored cost.
pub proof fn lemma_fold_min_is_lower_bound(history: Seq<(Seq<usize>, u64)>)
    ensures
        spec_fold_min(history).1 <= COST_INFINITY,
        forall|j: int| 0 <= j < history.len() ==> spec_fold_min(history).1 <= #[trigger] history[j].1,
    decreases history.len(),
{
    if history.len() > 0 {
        lemma_fold_min_is_lower_bound(history.drop_last());
        assert(forall|j: int|
            0 <= j < history.len() - 1 ==> history.drop_last()[j] == #[trigger] history[j]);
    }
}

/// The reduction returns either the empty placeholder at the infinite
/// sentinel cost, or one of the scored candidates.
pub proof fn lemma_fold_min_cases(history: Seq<(Seq<usize>, u64)>)
    ensures
        spec_fold_min(history) == (Seq::<usize>::empty(), COST_INFINITY) || exists|i: int|
            0 <= i < history.len() && #[trigger] history[i] == spec_fold_min(history),
    decreases history.len(),
{
    if history.len() > 0 {
        lemma_fold_min_cases(history.drop_last());
        if history.last().1 < spec_fold_min(history.drop_last()).1 {
            assert(history[history.len() - 1] == spec_fold_min(history));
        } else if spec_fold_min(history.drop_last()) != (
        Seq::<usize>::empty(),
        COST_INFINITY,
        ) {
            let i = choose|i: int|
                0 <= i < history.drop_last().len() && #[trigger] history.drop_last()[i]
                    == spec_fold_min(history.drop_last());
            assert(history[i] == spec_fold_min(history));
        }
    }
}

/// `i` is the position of the first candidate attaining the minimum cost:
/// everything before it costs strictly more, nothing anywhere costs less.
pub open spec fn spec_is_first_minimum(history: Seq<(Seq<usize>, u64)>, i: int) -> bool {
    &&& 0 <= i < history.len()
    &&& history[i] == spec_fold_min(history)
    &&& forall|j: int| 0 <= j < i ==> #[trigger] history[j].1 > history[i].1
    &&& forall|j: int| 0 <= j < history.len() ==> #[trigger] history[j].1 >= history[i].1
}

/// Tie-breaking law: as soon as any candidate scores below the infinite
/// sentinel, the reduction lands exactly on the first candidate, in
/// enumeration order, that attains the minimum cost.
pub proof fn lemma_fold_min_is_first_minimum(history: Seq<(Seq<usize>, u64)>)
    requires
        exists|i: int| 0 <= i < history.len() && #[trigger] history[i].1 < COST_INFINITY,
    ensures
        exists|i: int| spec_is_first_minimum(history, i),
    decreases history.len(),
{
    let rest = history.drop_last();
    let prev = spec_fold_min(rest);
    lemma_fold_min_is_lower_bound(rest);
    assert(forall|j: int| 0 <= j < rest.len() ==> rest[j] == #[trigger] history[j]);
    if history.last().1 < prev.1 {
        let i = history.len() - 1;
        assert(spec_is_first_minimum(history, i)) by {
            assert forall|j: int| 0 <= j < i implies #[trigger] history[j].1 > history[i].1 by {
                assert(prev.1 <= rest[j].1);
            }
        }
    } else {
        assert(prev.1 <= history.last().1);
        let w = choose|i: int| 0 <= i < history.len() && #[trigger] history[i].1 < COST_INFINITY;
        if w == history.len() - 1 {
            lemma_fold_min_cases(rest);
            assert(prev.1 < COST_INFINITY);
            let e = choose|i: int| 0 <= i < rest.len() && #[trigger] rest[i] == prev;
            assert(rest[e].1 < COST_INFINITY);
        }
        lemma_fold_min_is_first_minimum(rest);
        let i = choose|i: int| spec_is_first_minimum(rest, i);
        assert(spec_is_first_minimum(history, i)) by {
            assert(spec_fold_min(history) == prev);
            assert forall|j: int|
                0 <= j < history.len() implies #[trigger] history[j].1 >= history[i].1 by {
                if j < history.len() - 1 {
                    assert(rest[j].1 >= rest[i].1);
                }
            }
            assert forall|j: int| 0 <= j < i implies #[trigger] history[j].1 > history[i].1 by {
                assert(rest[j].1 > rest[i].1);
            }
        }
    }
}

/// Chunking law: reducing a concatenation is the same as reducing each part
/// and keeping the earlier part's result unless the later one is strictly
/// better. Splitting the candidate stream into chunks of any size therefore
/// cannot change the search's outcome.
pub proof fn lemma_fold_min_append(a: Seq<(Seq<usize>, u64)>, b: Seq<(Seq<usize>, u64)>)
    ensures
        spec_fold_min(a + b) == if spec_fold_min(b).1 < spec_fold_min(a).1 {
            spec_fold_min(b)
        } else {
            spec_fold_min(a)
        },
    decreases b.len(),
{
    if b.len() == 0 {
        assert(a + b =~= a);
        lemma_fold_min_is_lower_bound(b);
        lemma_fold_min_is_lower_bound(a);
    } else {
        lemma_fold_min_append(a, b.drop_last());
        assert((a + b).drop_last() =~= a + b.drop_last());
        assert((a + b).last() == b.last());
    }
}

/// The exhaustive minimum-cost search over candidate placements.
///
/// The caller pulls bounded chunks of candidates with [`Self::next_candidates`],
/// scores each candidate (the cost arithmetic lives outside; the cache and
/// [`crate::cache::nearest_weighted_distances`] do the lookups and
/// nearest-location selection), and hands the costs back in order with
/// [`Self::resolve_costs`]. When the enumeration is exhausted the best
/// candidate's coordinates are the result; with no feasible candidate the
/// result is empty.
pub struct PlacementSearch {
    coordinates: Vec<Coordinate>,
    generator: Combinations,
    pending: Vec<Vec<usize>>,
    best_indices: Vec<usize>,
    best_cost: u64,
    history: Ghost<Seq<(Seq<usize>, u64)>>,
}

impl PlacementSearch {
    /// The region count.
    pub closed spec fn spec_n(&self) -> nat {
        self.coordinates@.len()
    }

    /// The number of locations to place.
    pub closed spec fn spec_k(&self) -> nat {
        self.generator.spec_k()
    }

    /// The region coordinates, by region index.
    pub closed spec fn spec_coordinates(&self) -> Seq<Coordinate> {
        self.coordinates@
    }

    /// Every (candidate, cost) pair scored so far, in enumeration order.
    pub closed spec fn spec_history(&self) -> Seq<(Seq<usize>, u64)> {
        self.history@
    }

    /// The candidates scored so far, in enumeration order.
    pub open spec fn spec_candidates(&self) -> Seq<Seq<usize>> {
        self.spec_history().map_values(|e: (Seq<usize>, u64)| e.0)
    }

    /// The last emitted chunk, still waiting for its costs.
    pub closed spec fn spec_pending(&self) -> Seq<Seq<usize>> {
        self.pending@.map_values(|v: Vec<usize>| v@)
    }

    /// No further candidate will be emitted.
    pub closed spec fn spec_enumeration_done(&self) -> bool {
        self.generator.spec_done()
    }

    pub closed spec fn wf(&self) -> bool {
        &&& self.generator.wf()
        &&& self.generator.spec_n() == self.coordinates@.len()
        &&& self.generator.spec_emitted() == self.spec_candidates() + self.spec_pending()
        &&& spec_fold_min(self.history@) == (self.best_indices@, self.best_cost)
        &&& forall|i: int|
            0 <= i < self.history@.len() ==> is_combination(
                (#[trigger] self.history@[i]).0,
                self.spec_n(),
                self.spec_k(),
            )
        &&& forall|i: int|
            0 <= i < self.pending@.len() ==> is_combination(
                (#[trigger] self.pending@[i])@,
                self.spec_n(),
                self.spec_k(),
            )
    }

    /// Starts a search for `number_of_locations` locations over the given
    /// counties. The counties must already be re-indexed (index equal to
    /// position); a misaligned index is a caller error and is reported.
    /// With more locations asked for than there are counties, the search is
    /// born exhausted and will end with the empty result.
    pub fn new(counties: &Vec<CountyData>, number_of_locations: usize) -> (r: Result<
        PlacementSearch,
        SearchError,
    >)
        ensures
            r is Ok <==> spec_indices_aligned(counties@),
            match r {
                Ok(s) => {
                    &&& s.wf()
                    &&& s.spec_n() == counties@.len()
                    &&& s.spec_k() == number_of_locations
                    &&& s.spec_coordinates() == counties@.map_values(|c: CountyData| c.coordinate)
                    &&& s.spec_history() == Seq::<(Seq<usize>, u64)>::empty()
                    &&& s.spec_pending().len() == 0
                    &&& (s.spec_enumeration_done() <==> number_of_locations > counties@.len())
                },
                Err(e) => e is MisalignedIndex,
            },
    {
        let n = counties.len();
        let mut i: usize = 0;
        while i < n
            invariant
                i <= n,
                n == counties@.len(),
                forall|j: int| 0 <= j < i ==> #[trigger] counties@[j].index == j,
            decreases n - i,
        {
            if counties[i].index != i {
                return Err(SearchError::MisalignedIndex);
            }
            i = i + 1;
        }
        let mut coordinates: Vec<Coordinate> = Vec::new();
        let mut j: usize = 0;
        while j < n
            invariant
                j <= n,
                n == counties@.len(),
                coordinates@.len() == j,
                forall|m: int| 0 <= m < j ==> #[trigger] coordinates@[m] == counties@[m].coordinate,
            decreases n - j,
        {
            coordinates.push(counties[j].coordinate);
            j = j + 1;
        }
        proof {
            assert(coordinates@ =~= counties@.map_values(|c: CountyData| c.coordinate));
        }
        let generator = Combinations::new(n, number_of_locations);
        let search = PlacementSearch {
            coordinates,
            generator,
            pending: Vec::new(),
            best_indices: Vec::new(),
            best_cost: COST_INFINITY,
            history: Ghost(Seq::empty()),
        };
        proof {
            assert(search.spec_pending() =~= Seq::<Seq<usize>>::empty());
            assert(search.generator.spec_emitted() =~= search.spec_candidates()
                + search.spec_pending());
            assert(search.best_indices@ =~= Seq::<usize>::empty());
        }
        Ok(search)
    }

    /// Pulls the next chunk of at most `limit` candidates, in enumeration
    /// order. A chunk shorter than `limit` means the enumeration is over.
    /// The chunk is remembered: its costs must come back through
    /// [`Self::resolve_costs`] before the next chunk is pulled.
    pub fn next_candidates(&mut self, limit: usize) -> (r: Vec<Vec<usize>>)
        requires
            old(self).wf(),
            old(self).spec_pending().len() == 0,
        ensures
            final(self).wf(),
            final(self).spec_n() == old(self).spec_n(),
            final(self).spec_k() == old(self).spec_k(),
            final(self).spec_coordinates() == old(self).spec_coordinates(),
            final(self).spec_history() == old(self).spec_history(),
            r@.len() <= limit,
            final(self).spec_pending() == r@.map_values(|v: Vec<usize>| v@),
            forall|m: int|
                0 <= m < r@.len() ==> is_combination(
                    (#[trigger] r@[m])@,
                    old(self).spec_n(),
                    old(self).spec_k(),
                ),
            r@.len() < limit ==> final(self).spec_enumeration_done(),
    {
        let mut chunk: Vec<Vec<usize>> = Vec::new();
        let mut exhausted = false;
        while !exhausted && chunk.len() < limit
            invariant
                old(self).wf(),
                self.generator.wf(),
                self.coordinates == old(self).coordinates,
                self.pending == old(self).pending,
                self.best_indices == old(self).best_indices,
                self.best_cost == old(self).best_cost,
                self.history == old(self).history,
                self.generator.spec_n() == old(self).generator.spec_n(),
                self.generator.spec_k() == old(self).generator.spec_k(),
                chunk@.len() <= limit,
                self.generator.spec_emitted() == old(self).generator.spec_emitted()
                    + chunk@.map_values(|v: Vec<usize>| v@),
                forall|m: int|
                    0 <= m < chunk@.len() ==> is_combination(
                        (#[trigger] chunk@[m])@,
                        old(self).spec_n(),
                        old(self).spec_k(),
                    ),
                exhausted ==> self.generator.spec_done(),
            decreases limit - chunk.len() + if exhausted {
                0int
            } else {
                1int
            },
        {
            match self.generator.next() {
                Some(c) => {
                    chunk.push(c);
                    proof {
                        assert(chunk@.map_values(|v: Vec<usize>| v@) =~= chunk@.drop_last()
                            .map_values(|v: Vec<usize>| v@).push(chunk@.last()@));
                        assert(self.generator.spec_emitted() =~= old(
                            self,
                        ).generator.spec_emitted() + chunk@.map_values(|v: Vec<usize>| v@));
                    }
                },
                None => {
                    exhausted = true;
                },
            }
        }
        let r = clone_index_lists(&chunk);
        self.pending = chunk;
        proof {
            assert(self.spec_pending() =~= r@.map_values(|v: Vec<usize>| v@));
            assert(self.generator.spec_emitted() =~= self.spec_candidates() + self.spec_pending());
        }
        r
    }

    /// Hands back the costs of the last chunk, in the chunk's own order,
    /// and folds them into the running minimum: a candidate displaces the
    /// best so far exactly when its cost is strictly smaller, so the first
    /// minimal candidate in enumeration order wins whatever the chunk size.
    pub fn resolve_costs(&mut self, costs: &Vec<u64>)
        requires
            old(self).wf(),
            costs@.len() == old(self).spec_pending().len(),
        ensures
            final(self).wf(),
            final(self).spec_n() == old(self).spec_n(),
            final(self).spec_k() == old(self).spec_k(),
            final(self).spec_coordinates() == old(self).spec_coordinates(),
            final(self).spec_enumeration_done() == old(self).spec_enumeration_done(),
            final(self).spec_pending().len() == 0,
            final(self).spec_history() == old(self).spec_history() + spec_zip_costs(
                old(self).spec_pending(),
                costs@,
            ),
    {
        let total = self.pending.len();
        let mut m: usize = 0;
        while m < total
            invariant
                old(self).wf(),
                m <= total,
                total == self.pending@.len(),
                costs@.len() == total,
                self.coordinates == old(self).coordinates,
                self.generator == old(self).generator,
                self.pending == old(self).pending,
                self.history@ == old(self).history@ + spec_zip_costs(
                    old(self).spec_pending(),
                    costs@,
                ).take(m as int),
                spec_fold_min(self.history@) == (self.best_indices@, self.best_cost),
            decreases total - m,
        {
            let ghost history_before = self.history@;
            let ghost entry = (self.pending@[m as int]@, costs@[m as int]);
            if costs[m] < self.best_cost {
                self.best_cost = costs[m];
                let copied = clone_indices(&self.pending[m]);
                self.best_indices = copied;
            }
            proof {
                self.history@ = history_before.push(entry);
                assert(self.history@.drop_last() =~= history_before);
                assert(self.history@ =~= old(self).history@ + spec_zip_costs(
                    old(self).spec_pending(),
                    costs@,
                ).take(m + 1 as int)) by {
                    assert(spec_zip_costs(old(self).spec_pending(), costs@).take(m + 1 as int)
                        =~= spec_zip_costs(old(self).spec_pending(), costs@).take(m as int).push(
                        entry,
                    ));
                }
            }
            m = m + 1;
        }
        self.pending = Vec::new();
        proof {
            assert(spec_zip_costs(old(self).spec_pending(), costs@).take(total as int)
                =~= spec_zip_costs(old(self).spec_pending(), costs@));
            assert(self.spec_pending() =~= Seq::<Seq<usize>>::empty());
            assert(self.spec_candidates() =~= old(self).spec_candidates() + old(
                self,
            ).spec_pending());
            assert(self.generator.spec_emitted() =~= self.spec_candidates()
                + self.spec_pending());
        }
    }

    /// Whether a pulled chunk is still waiting for its costs.
    pub fn has_pending_chunk(&self) -> (r: bool)
        ensures
            r == (self.spec_pending().len() != 0),
    {
        self.pending.len() != 0
    }

    /// Whether the search is over: every candidate has been enumerated and
    /// scored.
    pub fn is_finished(&self) -> (r: bool)
        ensures
            r == (self.spec_enumeration_done() && self.spec_pending().len() == 0),
    {
        self.generator.is_done() && self.pending.len() == 0
    }

    /// A finished search has scored every size-`k` combination of the
    /// region indices — all `binomial(n, k)` of them — each exactly once,
    /// in lexicographic order: the reduction's result is the exact
    /// brute-force minimum.
    pub proof fn lemma_search_exhaustive(&self)
        requires
            self.wf(),
            self.spec_enumeration_done(),
            self.spec_pending().len() == 0,
        ensures
            complete_enumeration(self.spec_candidates(), self.spec_n(), self.spec_k()),
            self.spec_candidates().len() == spec_binomial(self.spec_n(), self.spec_k()),
    {
        self.generator.lemma_done_complete();
        self.generator.lemma_parameters_bounded();
        assert(self.spec_candidates() =~= self.generator.spec_emitted());
        lemma_enumeration_count(self.spec_candidates(), self.spec_n(), self.spec_k());
    }

    /// The best candidate found so far, as its cost together with the
    /// chosen region indices: exactly the running reduction's value.
    pub fn best_cost_and_indices(&self) -> (r: (u64, Vec<usize>))
        requires
            self.wf(),
        ensures
            r.0 == spec_fold_min(self.spec_history()).1,
            r.1@ == spec_fold_min(self.spec_history()).0,
    {
        let indices = clone_indices(&self.best_indices);
        (self.best_cost, indices)
    }

    /// The coordinates of the best candidate found so far, in enumeration
    /// order of its indices. While no candidate has scored below the
    /// infinite sentinel — in particular whenever the search is infeasible
    /// and no candidate exists at all — this is the empty sequence.
    pub fn best_coordinates(&self) -> (r: Vec<Coordinate>)
        requires
            self.wf(),
        ensures
            r@.len() == spec_fold_min(self.spec_history()).0.len(),
            forall|m: int|
                0 <= m < r@.len() ==> #[trigger] r@[m] == self.spec_coordinates()[spec_fold_min(
                    self.spec_history(),
                ).0[m] as int],
            self.spec_history().len() == 0 ==> r@.len() == 0,
    {
        proof {
            lemma_fold_min_cases(self.history@);
            assert forall|j: int|
                0 <= j < self.best_indices@.len() implies #[trigger] self.best_indices@[j]
                < self.coordinates@.len() by {
                if spec_fold_min(self.history@) == (Seq::<usize>::empty(), COST_INFINITY) {
                    assert(self.best_indices@.len() == 0);
                } else {
                    let i = choose|i: int|
                        0 <= i < self.history@.len() && #[trigger] self.history@[i]
                            == spec_fold_min(self.history@);
                    assert(is_combination(self.history@[i].0, self.spec_n(), self.spec_k()));
                    assert(self.best_indices@ == self.history@[i].0);
                }
            }
        }
        let k = self.best_indices.len();
        let mut r: Vec<Coordinate> = Vec::new();
        let mut m: usize = 0;
        while m < k
            invariant
                m <= k,
                self.wf(),
                k == self.best_indices@.len(),
                forall|j: int|
                    0 <= j < k ==> #[trigger] self.best_indices@[j] < self.coordinates@.len(),
                r@.len() == m,
                forall|j: int|
                    0 <= j < m ==> #[trigger] r@[j] == self.coordinates@[self.best_indices@[j] as int],
            decreases k - m,
        {
            r.push(self.coordinates[self.best_indices[m]]);
            m = m + 1;
        }
        r
    }
}

/// Returns a copy of a list of index vectors.
fn clone_index_lists(v: &Vec<Vec<usize>>) -> (r: Vec<Vec<usize>>)
    ensures
        r@.len() == v@.len(),
        forall|i: int| 0 <= i < v@.len() ==> (#[trigger] r@[i])@ == v@[i]@,
{
    let mut r: Vec<Vec<usize>> = Vec::new();
    let mut i: usize = 0;
    while i < v.len()
        invariant
            i <= v.len(),
            r@.len() == i,
            forall|j: int| 0 <= j < i ==> (#[trigger] r@[j])@ == v@[j]@,
        decreases v.len() - i,
    {
        r.push(clone_indices(&v[i]));
        i = i + 1;
    }
    r
}

} // verus!
