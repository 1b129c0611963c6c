use vstd::prelude::*;
use vstd::multiset::Multiset;
use vstd::set_lib::lemma_len_subset;
use crate::error::AnalysisError;
use crate::order::{pattern_lt, pattern_less, pattern_eq, lemma_pattern_lt_transitive, lemma_pattern_lt_total};
use crate::pattern::{Pattern, copy_pattern};
use crate::table::{FrequencyEntry, FrequencyEntryView, table_view, sum_of, lemma_sum_of_update};

verus! {

/// One tracked key of a Space-Saving summary: its reported count and the
/// largest amount by which that count may exceed the key's true count.
#[derive(Debug)]
pub struct Counter {
    pub key: Pattern,
    pub count: u64,
    pub error: u64,
}

/// A counter as plain values.
pub struct CounterView {
    pub key: Seq<Option<u64>>,
    pub count: u64,
    pub error: u64,
}

impl View for Counter {
    type V = CounterView;

    open spec fn view(&self) -> CounterView {
        CounterView { key: self.key@, count: self.count, error: self.error }
    }
}

pub open spec fn counters_view(cs: Seq<Counter>) -> Seq<CounterView> {
    cs.map_values(|c: Counter| c@)
}

/// The counts of the counters of `cs`.
pub open spec fn counter_counts(cs: Seq<CounterView>) -> Seq<u64> {
    cs.map_values(|c: CounterView| c.count)
}

/// Some counter of `cs` holds `k`.
pub open spec fn tracks(cs: Seq<CounterView>, k: Seq<Option<u64>>) -> bool {
    exists|i: int| 0 <= i < cs.len() && (#[trigger] cs[i]).key == k
}

pub open spec fn keys_distinct(cs: Seq<CounterView>) -> bool {
    forall|i: int, j: int| 0 <= i < cs.len() && 0 <= j < cs.len() && i != j ==> (#[trigger] cs[i]).key != (#[trigger] cs[j]).key
}

/// The order in which counters are chosen for eviction: smaller count
/// first, ties broken by the lexicographic order of the keys.
pub open spec fn evicts_before(a: CounterView, b: CounterView) -> bool {
    a.count < b.count || (a.count == b.count && pattern_lt(a.key, b.key))
}

/// `m` is the counter that comes first in eviction order.
pub open spec fn is_min(cs: Seq<CounterView>, m: int) -> bool {
    &&& 0 <= m < cs.len()
    &&& forall|i: int| 0 <= i < cs.len() && i != m ==> evicts_before(cs[m], #[trigger] cs[i])
}

proof fn lemma_evicts_before_transitive(a: CounterView, b: CounterView, c: CounterView)
    requires
        evicts_before(a, b),
        evicts_before(b, c),
    ensures
        evicts_before(a, c),
{
    if a.count == b.count && b.count == c.count {
        lemma_pattern_lt_transitive(a.key, b.key, c.key);
    }
}

proof fn lemma_evicts_before_total(a: CounterView, b: CounterView)
    requires
        a.key != b.key,
        !evicts_before(a, b),
    ensures
        evicts_before(b, a),
{
    lemma_pattern_lt_total(a.key, b.key);
}

/// The smaller of `a` and `b`.
pub open spec fn min_len(a: nat, b: nat) -> nat {
    if a <= b {
        a
    } else {
        b
    }
}

/// A Space-Saving (Stream-Summary) summary: it tracks at most `capacity`
/// keys of a stream, each with a count that never undercounts and an error
/// that bounds the overcount.
///
/// The counters live in one array owned by the summary; a key is found, and
/// the counter to evict is chosen, by a scan of that array, so an insertion
/// costs time linear in the capacity. Keys are patterns, for which no
/// hashed or ordered map with a verified specification is available.
pub struct SpaceSaving {
    entries: Vec<Counter>,
    capacity: usize,
    inserted: u64,
    /// Every key inserted so far, with its multiplicity.
    stream: Ghost<Multiset<Seq<Option<u64>>>>,
    /// The distinct keys inserted so far.
    seen: Ghost<Set<Seq<Option<u64>>>>,
    /// Whether some counter was ever taken over by another key.
    evicted: Ghost<bool>,
}

impl SpaceSaving {
    /// The tracked keys with their counts and errors, in slot order.
    pub closed spec fn counters(&self) -> Seq<CounterView> {
        counters_view(self.entries@)
    }

    pub closed spec fn capacity_spec(&self) -> nat {
        self.capacity as nat
    }

    /// The keys inserted so far, each as often as it was inserted.
    pub closed spec fn stream(&self) -> Multiset<Seq<Option<u64>>> {
        self.stream@
    }

    /// The distinct keys inserted so far.
    pub closed spec fn seen(&self) -> Set<Seq<Option<u64>>> {
        self.seen@
    }

    /// How often `k` was inserted.
    pub open spec fn true_count(&self, k: Seq<Option<u64>>) -> nat {
        self.stream().count(k)
    }

    /// The summary's invariant: at most `capacity` distinct keys, each
    /// count an overcount by at most its error, and no untracked key more
    /// frequent than the smallest count of a full summary.
    pub closed spec fn wf(&self) -> bool {
        let cs = self.counters();
        &&& 1 <= self.capacity
        &&& cs.len() <= self.capacity
        &&& keys_distinct(cs)
        &&& self.inserted as nat == self.stream@.len()
        &&& forall|i: int| 0 <= i < cs.len() ==> (#[trigger] cs[i]).error < cs[i].count && cs[i].count <= self.inserted
        &&& forall|i: int| 0 <= i < cs.len() ==>
            (#[trigger] cs[i]).count - cs[i].error <= self.stream@.count(cs[i].key) <= cs[i].count
        &&& forall|k: Seq<Option<u64>>| !tracks(cs, k) ==>
            #[trigger] self.stream@.count(k) == 0 || (cs.len() == self.capacity && forall|i: int| 0 <= i < cs.len() ==> self.stream@.count(k) <= (#[trigger] cs[i]).count)
        &&& self.seen@.finite()
        &&& forall|k: Seq<Option<u64>>| #[trigger] self.seen@.contains(k) <==> self.stream@.count(k) > 0
        &&& !self.evicted@ ==> forall|i: int| 0 <= i < cs.len() ==> (#[trigger] cs[i]).error == 0 && cs[i].count == self.stream@.count(cs[i].key)
        &&& !self.evicted@ ==> forall|k: Seq<Option<u64>>| #[trigger] self.stream@.count(k) > 0 ==> tracks(cs, k)
        &&& self.evicted@ ==> self.seen@.len() > self.capacity
        &&& cs.len() == min_len(self.capacity as nat, self.seen@.len())
        &&& sum_of(counter_counts(cs)) == self.stream@.len()
    }

    /// An empty summary that tracks up to `capacity` keys; a capacity of zero
    /// is refused.
    pub fn new(capacity: usize) -> (r: Result<SpaceSaving, AnalysisError>)
        ensures
            capacity == 0 <==> r is Err,
            r is Err ==> r == Err::<SpaceSaving, AnalysisError>(AnalysisError::InvalidCapacity),
            r matches Ok(s) ==> s.wf() && s.capacity_spec() == capacity && s.counters().len() == 0
                && s.stream() =~= Multiset::empty() && s.seen() =~= Set::empty(),
    {
        if capacity == 0 {
            return Err(AnalysisError::InvalidCapacity);
        }
        let s = SpaceSaving {
            entries: Vec::new(),
            capacity,
            inserted: 0,
            stream: Ghost(Multiset::empty()),
            seen: Ghost(Set::empty()),
            evicted: Ghost(false),
        };
        proof {
            broadcast use vstd::multiset::group_multiset_axioms;
            assert(s.counters() =~= Seq::empty());
            assert(counter_counts(s.counters()) =~= Seq::empty());
        }
        Ok(s)
    }

    /// No key is tracked twice.
    pub proof fn lemma_keys_distinct(&self, a: int, b: int)
        requires
            self.wf(),
            0 <= a < self.counters().len(),
            0 <= b < self.counters().len(),
            a != b,
        ensures
            self.counters()[a].key != self.counters()[b].key,
    {
    }

    /// The largest number of keys tracked at once.
    pub fn capacity(&self) -> (r: usize)
        ensures
            r == self.capacity_spec(),
    {
        self.capacity
    }

    /// The number of keys tracked now.
    pub fn len(&self) -> (r: usize)
        ensures
            r == self.counters().len(),
    {
        self.entries.len()
    }

    /// The number of insertions so far.
    pub fn inserted(&self) -> (r: u64)
        requires
            self.wf(),
        ensures
            r == self.stream().len(),
    {
        self.inserted
    }

    fn find(&self, key: &Pattern) -> (r: Option<usize>)
        ensures
            r matches Some(i) ==> i < self.counters().len() && self.counters()[i as int].key == key@,
            r is None ==> !tracks(self.counters(), key@),
    {
        let mut i: usize = 0;
        while i < self.entries.len()
            invariant
                i <= self.entries@.len(),
                forall|j: int| 0 <= j < i ==> (#[trigger] self.counters()[j]).key != key@,
            decreases self.entries@.len() - i,
        {
            if pattern_eq(&self.entries[i].key, key) {
                return Some(i);
            }
            i += 1;
        }
        None
    }

    fn min_index(&self) -> (m: usize)
        requires
            self.wf(),
            self.counters().len() > 0,
        ensures
            is_min(self.counters(), m as int),
    {
        let ghost cs = self.counters();
        let mut best: usize = 0;
        let mut i: usize = 1;
        while i < self.entries.len()
            invariant
                cs == self.counters(),
                keys_distinct(cs),
                1 <= i <= cs.len(),
                best < i,
                forall|j: int| 0 <= j < i && j != best ==> evicts_before(cs[best as int], #[trigger] cs[j]),
            decreases cs.len() - i,
        {
            let c = self.entries[i].count;
            let b = self.entries[best].count;
            if c < b || (c == b && pattern_less(&self.entries[i].key, &self.entries[best].key)) {
                proof {
                    assert forall|j: int| 0 <= j < i + 1 && j != i implies evicts_before(cs[i as int], #[trigger] cs[j]) by {
                        if j != best {
                            lemma_evicts_before_transitive(cs[i as int], cs[best as int], cs[j]);
                        }
                    }
                }
                best = i;
            } else {
                proof {
                    lemma_evicts_before_total(cs[i as int], cs[best as int]);
                }
            }
            i += 1;
        }
        best
    }

    /// Counts one more occurrence of `key`. A tracked key's count grows by one;
    /// an untracked key takes a free counter, or, when all counters are in
    /// use, takes over the counter that comes first in eviction order,
    /// inheriting its count (plus one) and recording that count as its error.
    #[verifier::rlimit(50)]
    pub fn insert(&mut self, key: Pattern)
        requires
            old(self).wf(),
            old(self).stream().len() < u64::MAX,
        ensures
            final(self).wf(),
            final(self).capacity_spec() == old(self).capacity_spec(),
            final(self).stream() == old(self).stream().insert(key@),
            final(self).seen() == old(self).seen().insert(key@),
            forall|i: int| 0 <= i < old(self).counters().len() && (#[trigger] old(self).counters()[i]).key == key@
                ==> final(self).counters() == old(self).counters().update(i, CounterView {
                    key: key@, count: (old(self).counters()[i].count + 1) as u64, error: old(self).counters()[i].error }),
            !tracks(old(self).counters(), key@) && old(self).counters().len() < old(self).capacity_spec()
                ==> final(self).counters() == old(self).counters().push(CounterView { key: key@, count: 1, error: 0 }),
            !tracks(old(self).counters(), key@) && old(self).counters().len() == old(self).capacity_spec()
                ==> exists|m: int| is_min(old(self).counters(), m) && final(self).counters() == old(self).counters().update(m, CounterView {
                    key: key@, count: (old(self).counters()[m].count + 1) as u64, error: old(self).counters()[m].count }),
    {
        broadcast use vstd::multiset::group_multiset_axioms;
        broadcast use vstd::set::group_set_axioms;
        let ghost cs0 = self.counters();
        let ghost s0 = self.stream@;
        let ghost seen0 = self.seen@;
        let ghost k = key@;
        let ghost s1 = s0.insert(k);
        match self.find(&key) {
            Some(i) => {
                let count = self.entries[i].count;
                let error = self.entries[i].error;
                self.entries.set(i, Counter { key, count: count + 1, error });
                proof {
                    let cs1 = self.counters();
                    assert(cs1 =~= cs0.update(i as int, CounterView { key: k, count: (count + 1) as u64, error }));
                    assert forall|k2: Seq<Option<u64>>| !tracks(cs1, k2) implies !tracks(cs0, k2) by {
                        if tracks(cs0, k2) {
                            let j = choose|j: int| 0 <= j < cs0.len() && (#[trigger] cs0[j]).key == k2;
                            assert(cs1[j].key == k2);
                        }
                    }
                    assert forall|k2: Seq<Option<u64>>| tracks(cs0, k2) implies tracks(cs1, k2) by {
                        let j = choose|j: int| 0 <= j < cs0.len() && (#[trigger] cs0[j]).key == k2;
                        assert(cs1[j].key == k2);
                    }
                    assert forall|j: int| 0 <= j < cs0.len() && j != i implies (#[trigger] cs0[j]).key != k by {}
                    assert(cs0[i as int].count - cs0[i as int].error <= s0.count(k));
                    assert(seen0.contains(k));
                    assert(seen0.insert(k) =~= seen0);
                    lemma_sum_of_update(counter_counts(cs0), i as int, (count + 1) as u64);
                    assert(counter_counts(cs1) =~= counter_counts(cs0).update(i as int, (count + 1) as u64));
                }
            },
            None => {
                if self.entries.len() < self.capacity {
                    self.entries.push(Counter { key, count: 1, error: 0 });
                    proof {
                        let cs1 = self.counters();
                        assert(cs1 =~= cs0.push(CounterView { key: k, count: 1, error: 0 }));
                        assert(s0.count(k) == 0);
                        assert(cs1[cs0.len() as int].key == k);
                        assert forall|k2: Seq<Option<u64>>| tracks(cs0, k2) implies tracks(cs1, k2) by {
                            let j = choose|j: int| 0 <= j < cs0.len() && (#[trigger] cs0[j]).key == k2;
                            assert(cs1[j].key == k2);
                        }
                        assert forall|k2: Seq<Option<u64>>| !tracks(cs1, k2) implies #[trigger] s1.count(k2) == 0 by {
                            assert(k2 != k);
                            assert(!tracks(cs0, k2)) by {
                                if tracks(cs0, k2) {
                                    let j = choose|j: int| 0 <= j < cs0.len() && (#[trigger] cs0[j]).key == k2;
                                    assert(cs1[j].key == k2);
                                }
                            }
                        }
                        assert(!seen0.contains(k));
                        assert(seen0.insert(k).len() == seen0.len() + 1);
                        assert(counter_counts(cs1).drop_last() =~= counter_counts(cs0));
                        if self.evicted@ {
                            assert(self.seen@.insert(k).len() >= self.seen@.len());
                        }
                    }
                } else {
                    let m = self.min_index();
                    let mc = self.entries[m].count;
                    assert(self.counters()[m as int].count <= self.inserted);
                    self.entries.set(m, Counter { key, count: mc + 1, error: mc });
                    proof {
                        let cs1 = self.counters();
                        let km = cs0[m as int].key;
                        assert(cs1 =~= cs0.update(m as int, CounterView { key: k, count: (mc + 1) as u64, error: mc }));
                        assert forall|j: int| 0 <= j < cs0.len() implies mc <= (#[trigger] cs0[j]).count by {
                            if j != m {
                                assert(evicts_before(cs0[m as int], cs0[j]));
                            }
                        }
                        assert(s0.count(k) <= mc);
                        assert forall|j: int| 0 <= j < cs0.len() && j != m implies (#[trigger] cs0[j]).key != k by {
                            assert(!tracks(cs0, k));
                        }
                        assert forall|k2: Seq<Option<u64>>| !tracks(cs1, k2) implies
                            #[trigger] s1.count(k2) == 0 || (cs1.len() == self.capacity && forall|j: int| 0 <= j < cs1.len() ==> s1.count(k2) <= (#[trigger] cs1[j]).count) by {
                            assert(k2 != k) by { assert(cs1[m as int].key == k); }
                            if k2 != km {
                                assert(!tracks(cs0, k2)) by {
                                    if tracks(cs0, k2) {
                                        let j = choose|j: int| 0 <= j < cs0.len() && (#[trigger] cs0[j]).key == k2;
                                        assert(cs1[j].key == k2);
                                    }
                                }
                            }
                            assert forall|j: int| 0 <= j < cs1.len() implies s1.count(k2) <= (#[trigger] cs1[j]).count by {
                                if j != m {
                                    assert(cs1[j] == cs0[j]);
                                }
                            }
                        }
                        if !self.evicted@ {
                            let keys = cs0.map_values(|c: CounterView| c.key);
                            assert(keys.no_duplicates()) by {
                                assert forall|a: int, b: int| 0 <= a < keys.len() && 0 <= b < keys.len() && a != b implies keys[a] != keys[b] by {
                                    assert(cs0[a].key != cs0[b].key);
                                }
                            }
                            keys.unique_seq_to_set();
                            let tset = keys.to_set();
                            assert(!tset.contains(k)) by {
                                if tset.contains(k) {
                                    let j = choose|j: int| 0 <= j < keys.len() && keys[j] == k;
                                    assert(cs0[j].key == k);
                                }
                            }
                            assert(tset.insert(k).subset_of(seen0.insert(k))) by {
                                assert forall|x: Seq<Option<u64>>| tset.insert(x).contains(x) implies true by {}
                                assert forall|x: Seq<Option<u64>>| #[trigger] tset.contains(x) implies seen0.contains(x) by {
                                    let j = choose|j: int| 0 <= j < keys.len() && keys[j] == x;
                                    assert(cs0[j].key == x);
                                    assert(cs0[j].count == s0.count(x));
                                }
                            }
                            lemma_len_subset(tset.insert(k), seen0.insert(k));
                        } else {
                            assert(seen0.insert(k).len() >= seen0.len());
                        }
                        assert(seen0.insert(k).len() >= seen0.len());
                        lemma_sum_of_update(counter_counts(cs0), m as int, (mc + 1) as u64);
                        assert(counter_counts(cs1) =~= counter_counts(cs0).update(m as int, (mc + 1) as u64));
                    }
                    self.evicted = Ghost(true);
                }
            },
        }
        self.stream = Ghost(s1);
        self.seen = Ghost(seen0.insert(k));
        self.inserted = self.inserted + 1;
        proof {
            assert forall|k2: Seq<Option<u64>>| #[trigger] self.seen@.contains(k2) <==> s1.count(k2) > 0 by {}
        }
    }

    /// A snapshot of the tracked keys with their counts and errors.
    pub fn get_counts(&self) -> (r: Vec<Counter>)
        ensures
            counters_view(r@) == self.counters(),
    {
        let mut r: Vec<Counter> = Vec::new();
        let mut i: usize = 0;
        while i < self.entries.len()
            invariant
                i <= self.entries@.len(),
                counters_view(r@) =~= self.counters().subrange(0, i as int),
            decreases self.entries@.len() - i,
        {
            let e = &self.entries[i];
            let c = Counter { key: copy_pattern(&e.key), count: e.count, error: e.error };
            let ghost before = r@;
            r.push(c);
            assert(r@ =~= before.push(c));
            assert(counters_view(r@) =~= counters_view(before).push(c@));
            i += 1;
        }
        assert(self.counters().subrange(0, i as int) =~= self.counters());
        r
    }

    /// The summary as a frequency table: one row per tracked key, with its
    /// reported count and the population total `total` supplied by the
    /// caller.
    pub fn table(&self, total: u64) -> (r: Vec<FrequencyEntry>)
        ensures
            r@.len() == self.counters().len(),
            forall|i: int| 0 <= i < r@.len() ==> (#[trigger] table_view(r@)[i]) == (FrequencyEntryView {
                pattern: self.counters()[i].key, count: self.counters()[i].count, total }),
    {
        let mut r: Vec<FrequencyEntry> = Vec::new();
        let mut i: usize = 0;
        while i < self.entries.len()
            invariant
                i <= self.entries@.len(),
                r@.len() == i,
                forall|j: int| 0 <= j < i ==> (#[trigger] table_view(r@)[j]) == (FrequencyEntryView {
                    pattern: self.counters()[j].key, count: self.counters()[j].count, total }),
            decreases self.entries@.len() - i,
        {
            let e = &self.entries[i];
            let row = FrequencyEntry { pattern: copy_pattern(&e.key), count: e.count, total };
            let ghost before = r@;
            r.push(row);
            assert(r@ =~= before.push(row));
            assert(table_view(r@) =~= table_view(before).push(row@));
            i += 1;
        }
        r
    }
}

/// A summary never tracks more keys than its capacity: it tracks as many
/// keys as it has seen distinct keys, up to its capacity.
pub proof fn lemma_within_capacity(s: &SpaceSaving)
    requires
        s.wf(),
    ensures
        s.counters().len() <= s.capacity_spec(),
        s.counters().len() == min_len(s.capacity_spec(), s.seen().len()),
{
}

/// Every insertion adds exactly one to the counts: they sum to the number
/// of insertions.
pub proof fn lemma_counts_sum(s: &SpaceSaving)
    requires
        s.wf(),
    ensures
        sum_of(counter_counts(s.counters())) == s.stream().len(),
{
}

/// For every tracked key the error is less than the count, and the key's
/// true count lies between its count minus its error and its count.
pub proof fn lemma_count_bounds(s: &SpaceSaving, i: int)
    requires
        s.wf(),
        0 <= i < s.counters().len(),
    ensures
        s.counters()[i].error < s.counters()[i].count,
        s.counters()[i].count - s.counters()[i].error <= s.true_count(s.counters()[i].key),
        s.true_count(s.counters()[i].key) <= s.counters()[i].count,
        s.true_count(s.counters()[i].key) - s.counters()[i].error <= s.counters()[i].count,
{
}

/// A key that is not tracked was never inserted, or occurred at most as
/// often as the smallest count of a full summary.
pub proof fn lemma_untracked_bound(s: &SpaceSaving, k: Seq<Option<u64>>)
    requires
        s.wf(),
        !tracks(s.counters(), k),
    ensures
        s.true_count(k) == 0 || (s.counters().len() == s.capacity_spec() && forall|i: int|
            0 <= i < s.counters().len() ==> s.true_count(k) <= (#[trigger] s.counters()[i]).count),
{
}

/// The distinct keys seen are exactly the keys inserted at least once.
pub proof fn lemma_seen_keys(s: &SpaceSaving)
    requires
        s.wf(),
    ensures
        s.seen().finite(),
        forall|k: Seq<Option<u64>>| #[trigger] s.seen().contains(k) <==> s.true_count(k) > 0,
{
}

/// While no more distinct keys were inserted than the capacity, the summary
/// counts exactly: every inserted key is tracked, with its true count and no
/// error.
pub proof fn lemma_exact_within_capacity(s: &SpaceSaving)
    requires
        s.wf(),
        s.seen().len() <= s.capacity_spec(),
    ensures
        forall|i: int| 0 <= i < s.counters().len() ==> (#[trigger] s.counters()[i]).error == 0
            && s.counters()[i].count == s.true_count(s.counters()[i].key),
        forall|k: Seq<Option<u64>>| #[trigger] s.true_count(k) > 0 ==> tracks(s.counters(), k),
{
}

} // verus!
