//! Candidate enumeration: every size-`k` subset of the region indices
//! `0 .. n`, produced lazily, one combination at a time, in lexicographic
//! order. The order gives the enumeration a definite position for every
//! subset, so the search's first-minimum tie-breaking is deterministic, and
//! the exhaustiveness proof below guarantees that the brute-force search
//! really sees every subset exactly once.

use vstd::prelude::*;
use vstd::relations::injective_on;
use vstd::set_lib::{lemma_map_size, lemma_set_disjoint_lens};

verus! {

/// `c` is a size-`k` combination of the indices `0 .. n`: strictly
/// increasing, so each index appears at most once and the subset has a
/// single canonical spelling.
pub open spec fn is_combination(c: Seq<usize>, n: nat, k: nat) -> bool {
    &&& c.len() == k
    &&& forall|i: int| 0 <= i < k ==> #[trigger] c[i] < n
    &&& forall|i: int| 0 < i < k ==> c[i - 1] < #[trigger] c[i]
}

/// Strict lexicographic order on index sequences of equal length.
pub open spec fn lex_lt(a: Seq<usize>, b: Seq<usize>) -> bool
    decreases a.len(),
{
    &&& a.len() > 0
    &&& b.len() > 0
    &&& {
        ||| a[0] < b[0]
        ||| (a[0] == b[0] && lex_lt(a.drop_first(), b.drop_first()))
    }
}

/// Reflexive lexicographic order on index sequences of equal length.
pub open spec fn lex_le(a: Seq<usize>, b: Seq<usize>) -> bool {
    a == b || lex_lt(a, b)
}

/// `p` is the first position where `a` and `b` differ, and there `a` is
/// smaller.
pub open spec fn first_diff_below(a: Seq<usize>, b: Seq<usize>, p: int) -> bool {
    &&& 0 <= p < a.len()
    &&& p < b.len()
    &&& a[p] < b[p]
    &&& forall|q: int| 0 <= q < p ==> a[q] == #[trigger] b[q]
}

/// `lex_lt` holds exactly when the first differing position puts `a` below
/// `b`.
pub proof fn lemma_lex_lt_characterization(a: Seq<usize>, b: Seq<usize>)
    requires
        a.len() == b.len(),
    ensures
        lex_lt(a, b) <==> exists|p: int| first_diff_below(a, b, p),
    decreases a.len(),
{
    if a.len() == 0 {
        assert(forall|p: int| !first_diff_below(a, b, p));
    } else {
        let ta = a.drop_first();
        let tb = b.drop_first();
        lemma_lex_lt_characterization(ta, tb);
        if a[0] < b[0] {
            assert(first_diff_below(a, b, 0));
        } else if a[0] == b[0] {
            if lex_lt(ta, tb) {
                let p = choose|p: int| first_diff_below(ta, tb, p);
                assert(first_diff_below(a, b, p + 1)) by {
                    assert(a[p + 1] == ta[p] && b[p + 1] == tb[p]);
                    assert forall|q: int| 0 <= q < p + 1 implies a[q] == #[trigger] b[q] by {
                        if q > 0 {
                            assert(ta[q - 1] == tb[q - 1]);
                        }
                    }
                }
            }
            if exists|p: int| first_diff_below(a, b, p) {
                let p = choose|p: int| first_diff_below(a, b, p);
                assert(p != 0);
                assert(first_diff_below(ta, tb, p - 1)) by {
                    assert(ta[p - 1] == a[p] && tb[p - 1] == b[p]);
                    assert forall|q: int| 0 <= q < p - 1 implies ta[q] == #[trigger] tb[q] by {
                        assert(a[q + 1] == b[q + 1]);
                    }
                }
            }
        } else {
            assert(!lex_lt(a, b));
            if exists|p: int| first_diff_below(a, b, p) {
                let p = choose|p: int| first_diff_below(a, b, p);
                assert(p == 0 ==> a[0] < b[0]);
                assert(p > 0 ==> a[0] == b[0]);
                assert(false);
            }
        }
    }
}

/// Equal-length sequences are totally ordered: equal, or one is strictly
/// below the other.
pub proof fn lemma_lex_connex(a: Seq<usize>, b: Seq<usize>)
    requires
        a.len() == b.len(),
    ensures
        a == b || lex_lt(a, b) || lex_lt(b, a),
    decreases a.len(),
{
    if a.len() == 0 {
        assert(a =~= b);
    } else if a[0] == b[0] {
        let ta = a.drop_first();
        let tb = b.drop_first();
        lemma_lex_connex(ta, tb);
        if ta == tb {
            assert(a =~= b) by {
                assert forall|i: int| 0 <= i < a.len() implies a[i] == #[trigger] b[i] by {
                    if i > 0 {
                        assert(ta[i - 1] == tb[i - 1]);
                    }
                }
            }
        }
    }
}

/// Strict lexicographic order is asymmetric and irreflexive.
pub proof fn lemma_lex_asym(a: Seq<usize>, b: Seq<usize>)
    requires
        a.len() == b.len(),
        lex_lt(a, b),
    ensures
        !lex_lt(b, a),
        a != b,
{
    lemma_lex_lt_characterization(a, b);
    lemma_lex_lt_characterization(b, a);
    let p1 = choose|p: int| first_diff_below(a, b, p);
    assert(a != b);
    if lex_lt(b, a) {
        let p2 = choose|p: int| first_diff_below(b, a, p);
        if p1 < p2 {
            assert(b[p1] == a[p1]);
        } else if p2 < p1 {
            assert(a[p2] == b[p2]);
        }
        assert(false);
    }
}

/// Strict lexicographic order is transitive.
pub proof fn lemma_lex_trans(a: Seq<usize>, b: Seq<usize>, c: Seq<usize>)
    requires
        a.len() == b.len(),
        b.len() == c.len(),
        lex_lt(a, b),
        lex_lt(b, c),
    ensures
        lex_lt(a, c),
{
    lemma_lex_lt_characterization(a, b);
    lemma_lex_lt_characterization(b, c);
    lemma_lex_lt_characterization(a, c);
    let p1 = choose|p: int| first_diff_below(a, b, p);
    let p2 = choose|p: int| first_diff_below(b, c, p);
    if p1 <= p2 {
        assert(first_diff_below(a, c, p1)) by {
            assert(a[p1] < b[p1]);
            assert(b[p1] <= c[p1]);
        }
    } else {
        assert(first_diff_below(a, c, p2)) by {
            assert(a[p2] == b[p2]);
        }
    }
}

/// Indices of a combination grow at least one by one: `c[j] >= c[i] + (j - i)`.
pub proof fn lemma_combination_spread(c: Seq<usize>, n: nat, k: nat, i: int, j: int)
    requires
        is_combination(c, n, k),
        0 <= i <= j < k,
    ensures
        c[j] >= c[i] + j - i,
    decreases j - i,
{
    if i < j {
        lemma_combination_spread(c, n, k, i, j - 1);
    }
}

/// Each index of a combination is boxed in: `i <= c[i] <= n - k + i`.
pub proof fn lemma_combination_bounds(c: Seq<usize>, n: nat, k: nat, i: int)
    requires
        is_combination(c, n, k),
        0 <= i < k,
    ensures
        i <= c[i],
        c[i] <= n - k + i,
{
    lemma_combination_spread(c, n, k, 0, i);
    lemma_combination_spread(c, n, k, i, k - 1);
}

/// There is no size-`k` combination of fewer than `k` indices.
pub proof fn lemma_no_combination(n: nat, k: nat)
    requires
        k > n,
    ensures
        forall|d: Seq<usize>| !is_combination(d, n, k),
{
    assert forall|d: Seq<usize>| !is_combination(d, n, k) by {
        if is_combination(d, n, k) {
            lemma_combination_bounds(d, n, k, 0);
        }
    }
}

/// The sequence `0, 1, .., k-1` is the lexicographically least combination.
pub proof fn lemma_first_combination(f: Seq<usize>, n: nat, k: nat)
    requires
        is_combination(f, n, k),
        forall|i: int| 0 <= i < k ==> #[trigger] f[i] == i,
    ensures
        forall|d: Seq<usize>| is_combination(d, n, k) ==> lex_le(f, d),
{
    assert forall|d: Seq<usize>| is_combination(d, n, k) implies lex_le(f, d) by {
        lemma_lex_connex(f, d);
        if lex_lt(d, f) {
            lemma_lex_lt_characterization(d, f);
            let p = choose|p: int| first_diff_below(d, f, p);
            lemma_combination_bounds(d, n, k, p);
        }
    }
}

/// The combination `n-k, .., n-1` is the lexicographically greatest one.
pub proof fn lemma_last_combination(c: Seq<usize>, n: nat, k: nat)
    requires
        is_combination(c, n, k),
        forall|i: int| 0 <= i < k ==> #[trigger] c[i] == n - k + i,
    ensures
        forall|d: Seq<usize>| is_combination(d, n, k) ==> lex_le(d, c),
{
    assert forall|d: Seq<usize>| is_combination(d, n, k) implies lex_le(d, c) by {
        lemma_lex_connex(d, c);
        if lex_lt(c, d) {
            lemma_lex_lt_characterization(c, d);
            let p = choose|p: int| first_diff_below(c, d, p);
            lemma_combination_bounds(d, n, k, p);
        }
    }
}

/// The step rule of the enumeration. `s` is built from `c` by bumping the
/// pivot `p` (the rightmost position not yet at its cap, while everything
/// after it is) and restarting the tail right above it: `s` is then the
/// immediate lexicographic successor of `c` among combinations.
pub proof fn lemma_successor(c: Seq<usize>, s: Seq<usize>, p: int, n: nat, k: nat)
    requires
        is_combination(c, n, k),
        0 <= p < k,
        c[p] < n - k + p,
        forall|j: int| p < j < k ==> #[trigger] c[j] == n - k + j,
        s.len() == k,
        forall|j: int| 0 <= j < p ==> #[trigger] s[j] == c[j],
        forall|j: int| p <= j < k ==> #[trigger] s[j] == c[p] + 1 + j - p,
    ensures
        is_combination(s, n, k),
        lex_lt(c, s),
        forall|d: Seq<usize>|
            is_combination(d, n, k) && lex_lt(c, d) ==> lex_le(s, d),
{
    assert(is_combination(s, n, k)) by {
        assert forall|i: int| 0 <= i < k implies #[trigger] s[i] < n by {
            if i >= p {
                assert(s[i] == c[p] + 1 + i - p);
            } else {
                assert(s[i] == c[i]);
            }
        }
        assert forall|i: int| 0 < i < k implies s[i - 1] < #[trigger] s[i] by {
            if i - 1 >= p {
            } else if i == p {
                assert(s[i - 1] == c[i - 1] && c[i - 1] < c[p]);
            } else {
                assert(s[i] == c[i] && s[i - 1] == c[i - 1]);
            }
        }
    }
    assert(lex_lt(c, s)) by {
        lemma_lex_lt_characterization(c, s);
        assert(first_diff_below(c, s, p));
    }
    assert forall|d: Seq<usize>|
        is_combination(d, n, k) && lex_lt(c, d) implies lex_le(s, d) by {
        lemma_lex_lt_characterization(c, d);
        let p1 = choose|q: int| first_diff_below(c, d, q);
        if p1 > p {
            lemma_combination_bounds(d, n, k, p1);
            assert(false);
        } else if p1 < p {
            lemma_lex_lt_characterization(s, d);
            assert(first_diff_below(s, d, p1));
        } else {
            // p1 == p, so d[p] >= c[p] + 1 == s[p]
            if d[p] > s[p] {
                lemma_lex_lt_characterization(s, d);
                assert(first_diff_below(s, d, p));
            } else {
                assert(!lex_lt(d, s)) by {
                    lemma_lex_lt_characterization(d, s);
                    if lex_lt(d, s) {
                        let q = choose|q: int| first_diff_below(d, s, q);
                        if q < p {
                            assert(d[q] == c[q] && s[q] == c[q]);
                        } else if q == p {
                        } else {
                            lemma_combination_spread(d, n, k, p, q);
                            assert(s[q] == c[p] + 1 + q - p);
                        }
                        assert(false);
                    }
                }
                lemma_lex_connex(d, s);
            }
        }
    }
}

/// Returns a copy of an index vector.
pub(crate) fn clone_indices(v: &Vec<usize>) -> (r: Vec<usize>)
    ensures
        r@ == v@,
{
    let mut r: Vec<usize> = Vec::new();
    let mut i: usize = 0;
    while i < v.len()
        invariant
            i <= v.len(),
            r@ == v@.take(i as int),
        decreases v.len() - i,
    {
        r.push(v[i]);
        proof {
            assert(r@ =~= v@.take(i + 1 as int));
        }
        i = i + 1;
    }
    proof {
        assert(v@.take(v@.len() as int) =~= v@);
    }
    r
}

/// The enumeration has produced every size-`k` combination of `0 .. n`,
/// each exactly once, in strictly increasing lexicographic order.
pub open spec fn complete_enumeration(emitted: Seq<Seq<usize>>, n: nat, k: nat) -> bool {
    &&& forall|i: int| 0 <= i < emitted.len() ==> is_combination(#[trigger] emitted[i], n, k)
    &&& forall|i: int, j: int|
        0 <= i < j < emitted.len() ==> lex_lt(#[trigger] emitted[i], #[trigger] emitted[j])
    &&& forall|d: Seq<usize>| #[trigger] is_combination(d, n, k) ==> emitted.contains(d)
}

/// The binomial coefficient: how many size-`k` subsets `0 .. n` has.
pub open spec fn spec_binomial(n: nat, k: nat) -> nat
    decreases n, k,
{
    if k == 0 {
        1
    } else if n == 0 {
        0
    } else {
        spec_binomial((n - 1) as nat, k) + spec_binomial((n - 1) as nat, (k - 1) as nat)
    }
}

/// All size-`k` combinations of `0 .. n`, as a set.
pub open spec fn spec_combination_set(n: nat, k: nat) -> Set<Seq<usize>> {
    Set::new(|c: Seq<usize>| is_combination(c, n, k))
}

/// There are exactly `binomial(n, k)` size-`k` combinations of `0 .. n`:
/// split them by whether they use the largest index `n - 1`.
pub proof fn lemma_combination_set_cardinality(n: nat, k: nat)
    requires
        n <= usize::MAX,
    ensures
        spec_combination_set(n, k).finite(),
        spec_combination_set(n, k).len() == spec_binomial(n, k),
    decreases n, k,
{
    let whole = spec_combination_set(n, k);
    if k == 0 {
        assert(whole =~= Set::<Seq<usize>>::empty().insert(Seq::<usize>::empty())) by {
            assert forall|c: Seq<usize>| #[trigger] whole.contains(c) implies c == Seq::<
                usize,
            >::empty() by {
                assert(c =~= Seq::<usize>::empty());
            }
            assert(is_combination(Seq::<usize>::empty(), n, 0));
        }
    } else if n == 0 {
        assert(whole =~= Set::<Seq<usize>>::empty()) by {
            assert forall|c: Seq<usize>| !(#[trigger] whole.contains(c)) by {
                if is_combination(c, 0, k) {
                    assert(c[0] < 0);
                }
            }
        }
    } else {
        let m = (n - 1) as nat;
        let without_top = spec_combination_set(m, k);
        let with_top = Set::new(
            |c: Seq<usize>| is_combination(c, n, k) && c.len() == k && c.last() == m,
        );
        let shorter = spec_combination_set(m, (k - 1) as nat);
        let extend = |c: Seq<usize>| c.push(m as usize);
        lemma_combination_set_cardinality(m, k);
        lemma_combination_set_cardinality(m, (k - 1) as nat);
        // A combination avoiding n - 1 is exactly a combination of 0 .. n - 1.
        assert(whole.difference(with_top) =~= without_top) by {
            assert forall|c: Seq<usize>|
                #[trigger] whole.contains(c) && !with_top.contains(c) implies without_top.contains(
                c,
            ) by {
                assert forall|i: int| 0 <= i < k implies #[trigger] c[i] < m by {
                    lemma_combination_spread(c, n, k, i, k - 1);
                }
            }
            assert forall|c: Seq<usize>| #[trigger] without_top.contains(c) implies whole.contains(
                c,
            ) && !with_top.contains(c) by {
                assert(c.last() < m);
            }
        }
        // A combination ending in n - 1 is a shorter combination of
        // 0 .. n - 1 with n - 1 appended, and distinct shorter
        // combinations stay distinct.
        assert(shorter.map(extend) =~= with_top) by {
            assert forall|b: Seq<usize>| #[trigger] with_top.contains(b) implies shorter.map(
                extend,
            ).contains(b) by {
                let bd = b.drop_last();
                assert(is_combination(bd, m, (k - 1) as nat)) by {
                    assert forall|i: int| 0 <= i < k - 1 implies #[trigger] bd[i] < m by {
                        lemma_combination_spread(b, n, k, i, k - 1);
                    }
                }
                assert(extend(bd) =~= b);
                assert(shorter.contains(bd) && extend(bd) == b);
            }
            assert forall|c: Seq<usize>| #[trigger] shorter.contains(c) implies with_top.contains(
                extend(c),
            ) by {
                let e = extend(c);
                assert(e.last() == m);
                assert(is_combination(e, n, k)) by {
                    assert(forall|i: int| 0 <= i < k - 1 ==> #[trigger] e[i] == c[i]);
                    if k > 1 {
                        assert(e[k - 2] == c[k - 2] && c[k - 2] < m);
                    }
                }
            }
        }
        assert(injective_on(extend, shorter)) by {
            assert forall|c1: Seq<usize>, c2: Seq<usize>|
                shorter.contains(c1) && shorter.contains(c2) && #[trigger] extend(c1)
                    == #[trigger] extend(c2) implies c1 == c2 by {
                assert(extend(c1).drop_last() =~= c1);
                assert(extend(c2).drop_last() =~= c2);
            }
        }
        lemma_map_size(shorter, with_top, extend);
        assert(without_top.disjoint(with_top)) by {
            assert forall|c: Seq<usize>|
                #[trigger] without_top.contains(c) implies !with_top.contains(c) by {
                assert(c.last() < m);
            }
        }
        lemma_set_disjoint_lens(without_top, with_top);
        assert(whole =~= without_top + with_top);
    }
}

/// A complete enumeration never repeats a combination: the strict
/// lexicographic order between any two positions keeps every emitted
/// subset distinct.
pub proof fn lemma_enumeration_distinct(emitted: Seq<Seq<usize>>, n: nat, k: nat)
    requires
        complete_enumeration(emitted, n, k),
    ensures
        forall|i: int, j: int|
            0 <= i < j < emitted.len() ==> #[trigger] emitted[i] != #[trigger] emitted[j],
{
    assert forall|i: int, j: int|
        0 <= i < j < emitted.len() implies #[trigger] emitted[i] != #[trigger] emitted[j] by {
        lemma_lex_asym(emitted[i], emitted[j]);
    }
}

/// A complete enumeration has exactly `binomial(n, k)` entries.
pub proof fn lemma_enumeration_count(emitted: Seq<Seq<usize>>, n: nat, k: nat)
    requires
        complete_enumeration(emitted, n, k),
        n <= usize::MAX,
    ensures
        emitted.len() == spec_binomial(n, k),
{
    lemma_enumeration_distinct(emitted, n, k);
    assert(emitted.no_duplicates());
    emitted.unique_seq_to_set();
    assert(emitted.to_set() =~= spec_combination_set(n, k)) by {
        assert forall|c: Seq<usize>|
            #[trigger] spec_combination_set(n, k).contains(c) implies emitted.to_set().contains(
            c,
        ) by {
            assert(emitted.contains(c));
        }
    }
    lemma_combination_set_cardinality(n, k);
}

/// Lazy enumerator of all size-`k` combinations of the indices `0 .. n`, in
/// lexicographic order. It holds only the next combination to emit, so the
/// full combination space is never materialized.
pub struct Combinations {
    n: usize,
    k: usize,
    state: Option<Vec<usize>>,
    emitted: Ghost<Seq<Seq<usize>>>,
}

impl Combinations {
    pub closed spec fn spec_n(&self) -> nat {
        self.n as nat
    }

    pub closed spec fn spec_k(&self) -> nat {
        self.k as nat
    }

    /// Everything emitted so far, oldest first.
    pub closed spec fn spec_emitted(&self) -> Seq<Seq<usize>> {
        self.emitted@
    }

    /// No further combination will be emitted.
    pub closed spec fn spec_done(&self) -> bool {
        self.state is None
    }

    pub closed spec fn wf(&self) -> bool {
        let emitted = self.emitted@;
        let n = self.n as nat;
        let k = self.k as nat;
        &&& forall|i: int| 0 <= i < emitted.len() ==> is_combination(#[trigger] emitted[i], n, k)
        &&& forall|i: int, j: int|
            0 <= i < j < emitted.len() ==> lex_lt(#[trigger] emitted[i], #[trigger] emitted[j])
        &&& match self.state {
            Some(cur) => {
                &&& k <= n
                &&& is_combination(cur@, n, k)
                &&& forall|d: Seq<usize>|
                    #[trigger] is_combination(d, n, k) ==> (emitted.contains(d) <==> lex_lt(
                        d,
                        cur@,
                    ))
            },
            None => forall|d: Seq<usize>| #[trigger] is_combination(d, n, k) ==> emitted.contains(
                d,
            ),
        }
    }

    /// The enumerator's bounds fit the machine.
    pub proof fn lemma_parameters_bounded(&self)
        ensures
            self.spec_n() <= usize::MAX,
            self.spec_k() <= usize::MAX,
    {
    }

    /// An exhausted enumerator has emitted every combination, each exactly
    /// once, in lexicographic order.
    pub proof fn lemma_done_complete(&self)
        requires
            self.wf(),
            self.spec_done(),
        ensures
            complete_enumeration(self.spec_emitted(), self.spec_n(), self.spec_k()),
    {
    }

    /// Starts the enumeration. With `k > n` there is nothing to enumerate
    /// and the enumerator is born exhausted.
    pub fn new(n: usize, k: usize) -> (r: Combinations)
        ensures
            r.wf(),
            r.spec_n() == n,
            r.spec_k() == k,
            r.spec_emitted() == Seq::<Seq<usize>>::empty(),
            r.spec_done() <==> k > n,
    {
        if k <= n {
            let mut first: Vec<usize> = Vec::new();
            let mut i: usize = 0;
            while i < k
                invariant
                    i <= k,
                    first@.len() == i,
                    forall|j: int| 0 <= j < i ==> #[trigger] first@[j] == j,
                decreases k - i,
            {
                first.push(i);
                i = i + 1;
            }
            proof {
                assert(is_combination(first@, n as nat, k as nat));
                lemma_first_combination(first@, n as nat, k as nat);
                assert forall|d: Seq<usize>| #[trigger]
                    is_combination(d, n as nat, k as nat) implies !Seq::<
                    Seq<usize>,
                >::empty().contains(d) && !lex_lt(d, first@) by {
                    assert(lex_le(first@, d));
                    if lex_lt(d, first@) {
                        lemma_lex_asym(d, first@);
                        assert(!lex_lt(first@, d));
                    }
                }
            }
            Combinations { n, k, state: Some(first), emitted: Ghost(Seq::empty()) }
        } else {
            proof {
                lemma_no_combination(n as nat, k as nat);
            }
            Combinations { n, k, state: None, emitted: Ghost(Seq::empty()) }
        }
    }

    /// Whether the enumeration is over.
    pub fn is_done(&self) -> (r: bool)
        ensures
            r == self.spec_done(),
    {
        self.state.is_none()
    }

    /// Emits the next combination, or nothing when all of them are out.
    pub fn next(&mut self) -> (r: Option<Vec<usize>>)
        requires
            old(self).wf(),
        ensures
            final(self).wf(),
            final(self).spec_n() == old(self).spec_n(),
            final(self).spec_k() == old(self).spec_k(),
            match r {
                Some(c) => {
                    &&& is_combination(c@, old(self).spec_n(), old(self).spec_k())
                    &&& final(self).spec_emitted() == old(self).spec_emitted().push(c@)
                },
                None => {
                    &&& final(self).spec_emitted() == old(self).spec_emitted()
                    &&& final(self).spec_done()
                    &&& complete_enumeration(
                        final(self).spec_emitted(),
                        old(self).spec_n(),
                        old(self).spec_k(),
                    )
                },
            },
    {
        let ghost n_spec = self.n as nat;
        let ghost k_spec = self.k as nat;
        let state = self.state.take();
        match state {
            None => None,
            Some(cur) => {
                let ghost old_emitted = self.emitted@;
                let result = clone_indices(&cur);
                let n = self.n;
                let k = self.k;
                // Find the pivot: the rightmost position whose index is
                // still below its cap n - k + position.
                let mut i: usize = k;
                while i > 0 && cur[i - 1] >= n - k + (i - 1)
                    invariant
                        i <= k,
                        k <= n,
                        cur@.len() == k,
                        is_combination(cur@, n as nat, k as nat),
                        forall|j: int| i <= j < k ==> #[trigger] cur@[j] >= n - k + j,
                    decreases i,
                {
                    i = i - 1;
                }
                if i == 0 {
                    // Every position is at its cap: this was the greatest
                    // combination.
                    proof {
                        assert forall|j: int| 0 <= j < k implies #[trigger] cur@[j] == n - k
                            + j by {
                            lemma_combination_bounds(cur@, n_spec, k_spec, j);
                        }
                        lemma_last_combination(cur@, n_spec, k_spec);
                        let emitted_new = old_emitted.push(cur@);
                        assert forall|d: Seq<usize>| #[trigger]
                            is_combination(d, n_spec, k_spec) implies emitted_new.contains(d) by {
                            lemma_lex_connex(d, cur@);
                            if d == cur@ {
                                assert(emitted_new[emitted_new.len() - 1] == d);
                            } else {
                                assert(lex_le(d, cur@));
                                assert(old_emitted.contains(d));
                                let idx = choose|idx: int|
                                    0 <= idx < old_emitted.len() && old_emitted[idx] == d;
                                assert(emitted_new[idx] == d);
                            }
                        }
                        assert forall|a: int, b: int|
                            0 <= a < b < emitted_new.len() implies lex_lt(
                            #[trigger] emitted_new[a],
                            #[trigger] emitted_new[b],
                        ) by {
                            if b == emitted_new.len() - 1 {
                                assert(old_emitted.contains(old_emitted[a]));
                            }
                        }
                    }
                    self.emitted = Ghost(old_emitted.push(cur@));
                    Some(result)
                } else {
                    let p = i - 1;
                    // Bump the pivot and restart the tail right above it.
                    let pivot_value = cur[p] + 1;
                    let mut s: Vec<usize> = clone_indices(&cur);
                    let mut j: usize = p;
                    while j < k
                        invariant
                            p <= j <= k,
                            p < k,
                            s@.len() == k,
                            cur@.len() == k,
                            pivot_value == cur@[p as int] + 1,
                            cur@[p as int] < n - k + p,
                            k <= n,
                            forall|m: int| 0 <= m < p ==> #[trigger] s@[m] == cur@[m],
                            forall|m: int| p <= m < j ==> #[trigger] s@[m] == cur@[p as int] + 1 + m
                                - p,
                            forall|m: int| j <= m < k ==> #[trigger] s@[m] == cur@[m],
                        decreases k - j,
                    {
                        s.set(j, pivot_value + (j - p));
                        j = j + 1;
                    }
                    proof {
                        assert forall|m: int| i <= m < k implies #[trigger] cur@[m] == n - k
                            + m by {
                            lemma_combination_bounds(cur@, n_spec, k_spec, m);
                        }
                        lemma_successor(cur@, s@, p as int, n_spec, k_spec);
                        let emitted_new = old_emitted.push(cur@);
                        assert forall|d: Seq<usize>| #[trigger]
                            is_combination(d, n_spec, k_spec) implies (emitted_new.contains(d)
                            <==> lex_lt(d, s@)) by {
                            lemma_lex_connex(d, cur@);
                            if d == cur@ {
                                assert(emitted_new[emitted_new.len() - 1] == d);
                                assert(lex_lt(cur@, s@));
                            } else if lex_lt(d, cur@) {
                                assert(old_emitted.contains(d));
                                let idx = choose|idx: int|
                                    0 <= idx < old_emitted.len() && old_emitted[idx] == d;
                                assert(emitted_new[idx] == d);
                                lemma_lex_trans(d, cur@, s@);
                            } else {
                                assert(lex_lt(cur@, d));
                                assert(lex_le(s@, d));
                                if emitted_new.contains(d) {
                                    let idx = choose|idx: int|
                                        0 <= idx < emitted_new.len() && emitted_new[idx] == d;
                                    assert(idx < old_emitted.len());
                                    assert(old_emitted[idx] == d);
                                    assert(old_emitted.contains(d));
                                    assert(lex_lt(d, cur@));
                                    assert(false);
                                }
                                if lex_lt(d, s@) {
                                    if s@ == d {
                                        lemma_lex_asym(d, s@);
                                    } else {
                                        lemma_lex_asym(s@, d);
                                    }
                                    assert(false);
                                }
                            }
                        }
                        assert forall|a: int, b: int|
                            0 <= a < b < emitted_new.len() implies lex_lt(
                            #[trigger] emitted_new[a],
                            #[trigger] emitted_new[b],
                        ) by {
                            if b == emitted_new.len() - 1 {
                                assert(old_emitted.contains(old_emitted[a]));
                            }
                        }
                    }
                    self.emitted = Ghost(old_emitted.push(cur@));
                    self.state = Some(s);
                    Some(result)
                }
            },
        }
    }
}

} // verus!
