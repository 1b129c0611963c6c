use vstd::prelude::*;
use vstd::multiset::Multiset;
use crate::error::AnalysisError;
use crate::order::pattern_eq;
use crate::pattern::{masked, masks_distinct, Mask, Pattern, Record, copy_pattern, generate, generated, masks_view, patterns_view, widths_match};
use crate::table::{FrequencyEntry, FrequencyEntryView, has_pattern, patterns_distinct, table_view};

verus! {

/// The patterns of `ps`, each as often as it occurs there.
pub open spec fn occurrences(ps: Seq<Seq<Option<u64>>>) -> Multiset<Seq<Option<u64>>>
    decreases ps.len(),
{
    if ps.len() == 0 {
        Multiset::empty()
    } else {
        occurrences(ps.drop_last()).insert(ps.last())
    }
}

/// A sequence of patterns holds as many occurrences as it is long.
pub proof fn lemma_occurrences_len(ps: Seq<Seq<Option<u64>>>)
    ensures
        occurrences(ps).len() == ps.len(),
    decreases ps.len(),
{
    broadcast use vstd::multiset::group_multiset_axioms;
    if ps.len() > 0 {
        lemma_occurrences_len(ps.drop_last());
    }
}

/// Every pattern that the records of `population` expand into under
/// `masks`, each as often as it is emitted.
pub open spec fn expansion(population: Seq<Seq<u64>>, masks: Seq<Seq<bool>>) -> Multiset<Seq<Option<u64>>>
    decreases population.len(),
{
    if population.len() == 0 {
        Multiset::empty()
    } else {
        expansion(population.drop_last(), masks).add(occurrences(generated(population.last(), masks)))
    }
}

proof fn lemma_occurrences_of_unique(ps: Seq<Seq<Option<u64>>>, p: Seq<Option<u64>>)
    requires
        ps.no_duplicates(),
    ensures
        occurrences(ps).count(p) == if ps.contains(p) { 1nat } else { 0nat },
    decreases ps.len(),
{
    broadcast use vstd::multiset::group_multiset_axioms;
    if ps.len() > 0 {
        let init = ps.drop_last();
        assert(init.no_duplicates());
        lemma_occurrences_of_unique(init, p);
        if p == ps.last() {
            assert(!init.contains(p)) by {
                if init.contains(p) {
                    let j = choose|j: int| 0 <= j < init.len() && init[j] == p;
                    assert(ps[j] == ps[ps.len() - 1]);
                }
            }
            assert(ps.contains(p)) by {
                assert(ps[ps.len() - 1] == p);
            }
        } else {
            assert(init.contains(p) == ps.contains(p)) by {
                if ps.contains(p) {
                    let j = choose|j: int| 0 <= j < ps.len() && ps[j] == p;
                    assert(init[j] == p);
                }
                if init.contains(p) {
                    let j = choose|j: int| 0 <= j < init.len() && init[j] == p;
                    assert(ps[j] == p);
                }
            }
        }
    }
}

/// Distinct masks of a record's width make distinct patterns of it.
pub proof fn lemma_generated_unique(record: Seq<u64>, masks: Seq<Seq<bool>>)
    requires
        widths_match(record.len(), masks),
        masks_distinct(masks),
    ensures
        generated(record, masks).no_duplicates(),
{
    let g = generated(record, masks);
    assert forall|a: int, b: int| 0 <= a < g.len() && 0 <= b < g.len() && a != b implies g[a] != g[b] by {
        assert(masks[a] != masks[b]);
        assert(masks[a].len() == record.len() && masks[b].len() == record.len());
        if forall|i: int| 0 <= i < masks[a].len() ==> masks[a][i] == masks[b][i] {
            assert(masks[a] =~= masks[b]);
        }
        let i = choose|i: int| 0 <= i < masks[a].len() && masks[a][i] != masks[b][i];
        assert(g[a] == masked(record, masks[a]));
        assert(g[b] == masked(record, masks[b]));
        assert(g[a][i] != g[b][i]);
    }
}

/// With distinct masks of the records' width, no pattern is emitted more
/// often than there are records.
pub proof fn lemma_expansion_count_bounded(population: Seq<Seq<u64>>, masks: Seq<Seq<bool>>, p: Seq<Option<u64>>)
    requires
        forall|i: int| 0 <= i < population.len() ==> widths_match((#[trigger] population[i]).len(), masks),
        masks_distinct(masks),
    ensures
        expansion(population, masks).count(p) <= population.len(),
    decreases population.len(),
{
    broadcast use vstd::multiset::group_multiset_axioms;
    if population.len() > 0 {
        let init = population.drop_last();
        assert forall|i: int| 0 <= i < init.len() implies widths_match((#[trigger] init[i]).len(), masks) by {
            assert(init[i] == population[i]);
        }
        lemma_expansion_count_bounded(init, masks, p);
        assert(widths_match(population[population.len() - 1].len(), masks));
        lemma_generated_unique(population.last(), masks);
        lemma_occurrences_of_unique(generated(population.last(), masks), p);
    }
}

/// Counting two populations one after the other emits what each emits.
pub proof fn lemma_expansion_append(a: Seq<Seq<u64>>, b: Seq<Seq<u64>>, masks: Seq<Seq<bool>>)
    ensures
        expansion(a + b, masks) == expansion(a, masks).add(expansion(b, masks)),
    decreases b.len(),
{
    broadcast use vstd::multiset::group_multiset_axioms;
    if b.len() == 0 {
        assert(a + b =~= a);
        assert(expansion(a, masks).add(Multiset::empty()) =~= expansion(a, masks));
    } else {
        lemma_expansion_append(a, b.drop_last(), masks);
        assert((a + b).drop_last() =~= a + b.drop_last());
        assert((a + b).last() == b.last());
        assert(expansion(a + b, masks) =~= expansion(a, masks).add(expansion(b, masks)));
    }
}

/// The number of patterns emitted is the number of records times the number
/// of masks.
pub proof fn lemma_expansion_len(population: Seq<Seq<u64>>, masks: Seq<Seq<bool>>)
    ensures
        expansion(population, masks).len() == population.len() * masks.len(),
    decreases population.len(),
{
    broadcast use vstd::multiset::group_multiset_axioms;
    if population.len() > 0 {
        let n = population.len();
        lemma_expansion_len(population.drop_last(), masks);
        lemma_occurrences_len(generated(population.last(), masks));
        assert((n - 1) * masks.len() + masks.len() == n * masks.len()) by (nonlinear_arith);
    }
}

/// `t` is the frequency table of the emitted patterns `ms` of a population of
/// `n` records: one row per distinct pattern, with its exact count and the
/// population's size.
pub open spec fn exact_table(t: Seq<FrequencyEntryView>, ms: Multiset<Seq<Option<u64>>>, n: nat) -> bool {
    &&& patterns_distinct(t)
    &&& forall|i: int| 0 <= i < t.len() ==> (#[trigger] t[i]).count == ms.count(t[i].pattern) && t[i].total == n
    &&& forall|p: Seq<Option<u64>>| has_pattern(t, p) <==> #[trigger] ms.count(p) > 0
}

/// Every row of an exact table states the number of records of its
/// population, whatever its pattern.
pub proof fn lemma_exact_totals(t: Seq<FrequencyEntryView>, population: Seq<Seq<u64>>, masks: Seq<Seq<bool>>)
    requires
        exact_table(t, expansion(population, masks), population.len()),
    ensures
        forall|i: int| 0 <= i < t.len() ==> (#[trigger] t[i]).total == population.len(),
{
}

/// `patterns[i]` occurs `counts[i]` times in `ms`, every pattern of `ms` has
/// a row, and no pattern has two.
pub open spec fn counts_match(patterns: Seq<Seq<Option<u64>>>, counts: Seq<u64>, ms: Multiset<Seq<Option<u64>>>) -> bool {
    &&& patterns.len() == counts.len()
    &&& forall|i: int, j: int| 0 <= i < patterns.len() && 0 <= j < patterns.len() && i != j ==> #[trigger] patterns[i] != #[trigger] patterns[j]
    &&& forall|i: int| 0 <= i < patterns.len() ==> counts[i] == ms.count(#[trigger] patterns[i]) && counts[i] > 0
    &&& forall|p: Seq<Option<u64>>| #[trigger] ms.count(p) > 0 ==> patterns.contains(p)
}

/// Exact pattern counts of one population: a group-by-count over the
/// patterns its records expand into, together with the number of records.
pub struct ExactCounter {
    masks: Vec<Mask>,
    patterns: Vec<Pattern>,
    counts: Vec<u64>,
    records: u64,
    emitted: u64,
    population: Ghost<Seq<Seq<u64>>>,
}

impl ExactCounter {
    /// The masks every record is expanded with.
    pub closed spec fn masks_spec(&self) -> Seq<Seq<bool>> {
        masks_view(self.masks@)
    }

    /// The records added so far, in order.
    pub closed spec fn population(&self) -> Seq<Seq<u64>> {
        self.population@
    }

    /// The patterns emitted so far, with multiplicity.
    pub open spec fn emitted_patterns(&self) -> Multiset<Seq<Option<u64>>> {
        expansion(self.population(), self.masks_spec())
    }

    /// One row per distinct emitted pattern, with its exact count.
    pub closed spec fn wf(&self) -> bool {
        &&& counts_match(patterns_view(self.patterns@), self.counts@, self.emitted_patterns())
        &&& self.records as nat == self.population@.len()
        &&& self.emitted as nat == self.emitted_patterns().len()
    }

    /// A counter with no records, expanding each record with `masks`.
    pub fn new(masks: Vec<Mask>) -> (r: ExactCounter)
        ensures
            r.wf(),
            r.masks_spec() == masks_view(masks@),
            r.population() == Seq::<Seq<u64>>::empty(),
    {
        let r = ExactCounter {
            masks,
            patterns: Vec::new(),
            counts: Vec::new(),
            records: 0,
            emitted: 0,
            population: Ghost(Seq::empty()),
        };
        proof {
            broadcast use vstd::multiset::group_multiset_axioms;
            assert(patterns_view(r.patterns@) =~= Seq::empty());
        }
        r
    }

    /// The number of records added.
    pub fn records(&self) -> (r: u64)
        requires
            self.wf(),
        ensures
            r == self.population().len(),
    {
        self.records
    }

    /// The number of patterns emitted by the records added.
    pub fn emitted(&self) -> (r: u64)
        requires
            self.wf(),
        ensures
            r == self.emitted_patterns().len(),
    {
        self.emitted
    }

    /// The number of masks each record expands with.
    pub fn mask_count(&self) -> (r: usize)
        ensures
            r == self.masks_spec().len(),
    {
        self.masks.len()
    }

    fn bump(patterns: &mut Vec<Pattern>, counts: &mut Vec<u64>, p: Pattern, c: u64,
        Ghost(ms): Ghost<Multiset<Seq<Option<u64>>>>, Ghost(ms1): Ghost<Multiset<Seq<Option<u64>>>>)
        requires
            counts_match(patterns_view(old(patterns)@), old(counts)@, ms),
            c > 0,
            forall|q: Seq<Option<u64>>| #[trigger] ms1.count(q) == ms.count(q) + if q == p@ { c as nat } else { 0nat },
            ms1.len() <= u64::MAX,
        ensures
            counts_match(patterns_view(final(patterns)@), final(counts)@, ms1),
    {
        broadcast use vstd::multiset::group_multiset_axioms;
        let ghost pv0 = patterns_view(patterns@);
        let ghost c0 = counts@;
        let mut i: usize = 0;
        while i < patterns.len()
            invariant
                i <= patterns@.len(),
                patterns@.len() == counts@.len(),
                pv0 == patterns_view(patterns@),
                c0 == counts@,
                counts_match(pv0, c0, ms),
                c > 0,
                forall|q: Seq<Option<u64>>| #[trigger] ms1.count(q) == ms.count(q) + if q == p@ { c as nat } else { 0nat },
                ms1.len() <= u64::MAX,
                forall|j: int| 0 <= j < i ==> (#[trigger] pv0[j]) != p@,
            decreases patterns@.len() - i,
        {
            if pattern_eq(&patterns[i], &p) {
                let n = counts[i];
                assert(c0[i as int] == ms.count(pv0[i as int]));
                assert(pv0[i as int] == p@);
                assert(ms1.count(p@) <= ms1.len());
                counts.set(i, n + c);
                proof {
                    assert forall|q: Seq<Option<u64>>| #[trigger] ms1.count(q) > 0 implies pv0.contains(q) by {
                        if q != p@ {
                            assert(ms.count(q) > 0);
                        } else {
                            assert(pv0[i as int] == q);
                        }
                    }
                    assert forall|k: int| 0 <= k < pv0.len() implies counts@[k] == ms1.count(#[trigger] pv0[k]) && counts@[k] > 0 by {
                        if k != i {
                            assert(pv0[k] != pv0[i as int]);
                        }
                    }
                    assert(patterns_view(patterns@) == pv0);
                }
                return;
            }
            i += 1;
        }
        let ghost pp = p@;
        patterns.push(p);
        counts.push(c);
        proof {
            let pv1 = patterns_view(patterns@);
            assert(pv1 =~= pv0.push(pp));
            assert(!pv0.contains(pp));
            assert(ms.count(pp) == 0);
            assert forall|q: Seq<Option<u64>>| #[trigger] ms1.count(q) > 0 implies pv1.contains(q) by {
                if q != pp {
                    assert(ms.count(q) > 0);
                    let j = choose|j: int| 0 <= j < pv0.len() && pv0[j] == q;
                    assert(pv1[j] == q);
                } else {
                    assert(pv1[pv0.len() as int] == q);
                }
            }
            assert forall|j: int| 0 <= j < pv1.len() implies counts@[j] == ms1.count(#[trigger] pv1[j]) && counts@[j] > 0 by {
                if j < pv0.len() {
                    assert(pv1[j] == pv0[j]);
                }
            }
        }
    }

    /// Expands `record` with the counter's masks and counts each pattern;
    /// a record whose width differs from a mask's is refused and leaves the
    /// counter as it was.
    pub fn add_record(&mut self, record: &Record) -> (r: Result<(), AnalysisError>)
        requires
            old(self).wf(),
            old(self).population().len() < u64::MAX,
            old(self).emitted_patterns().len() + old(self).masks_spec().len() <= u64::MAX,
        ensures
            final(self).wf(),
            final(self).masks_spec() == old(self).masks_spec(),
            r is Ok <==> widths_match(record@.len(), old(self).masks_spec()),
            r is Ok ==> final(self).population() == old(self).population().push(record@),
            r is Err ==> r == Err::<(), AnalysisError>(AnalysisError::InvalidWidth)
                && final(self).population() == old(self).population(),
    {
        broadcast use vstd::multiset::group_multiset_axioms;
        let ps = match generate(record, &self.masks) {
            Ok(ps) => ps,
            Err(e) => {
                return Err(e);
            },
        };
        let ghost masks = self.masks_spec();
        let ghost gen = generated(record@, masks);
        let ghost base = self.emitted_patterns();
        let ghost pop1 = self.population@.push(record@);
        assert(patterns_view(ps@) == gen);
        proof {
            lemma_occurrences_len(gen.subrange(0, 0));
            assert(base.add(occurrences(gen.subrange(0, 0))) =~= base);
        }
        let mut j: usize = 0;
        while j < ps.len()
            invariant
                j <= ps@.len(),
                patterns_view(ps@) == gen,
                gen.len() == masks.len(),
                masks == self.masks_spec(),
                self.population@ == old(self).population@,
                self.records == old(self).records,
                self.emitted == old(self).emitted,
                self.records < u64::MAX,
                base == self.emitted_patterns(),
                base.len() + masks.len() <= u64::MAX,
                counts_match(patterns_view(self.patterns@), self.counts@, base.add(occurrences(gen.subrange(0, j as int)))),
            decreases ps@.len() - j,
        {
            let p = copy_pattern(&ps[j]);
            let ghost ms = base.add(occurrences(gen.subrange(0, j as int)));
            proof {
                lemma_occurrences_len(gen.subrange(0, j as int));
                assert(p@ == gen[j as int]);
            }
            proof {
                assert forall|q: Seq<Option<u64>>| #[trigger] ms.insert(p@).count(q) == ms.count(q) + if q == p@ { 1nat } else { 0nat } by {}
            }
            Self::bump(&mut self.patterns, &mut self.counts, p, 1, Ghost(ms), Ghost(ms.insert(p@)));
            proof {
                assert(gen.subrange(0, j + 1).drop_last() =~= gen.subrange(0, j as int));
                assert(base.add(occurrences(gen.subrange(0, j + 1))) =~= ms.insert(gen[j as int]));
            }
            j += 1;
        }
        proof {
            assert(gen.subrange(0, j as int) =~= gen);
            assert(pop1.drop_last() =~= self.population@);
            lemma_occurrences_len(gen);
        }
        self.population = Ghost(pop1);
        self.records = self.records + 1;
        self.emitted = self.emitted + j as u64;
        Ok(())
    }

    /// Adds the counts of `other`, a counter of another shard of the same
    /// population with the same masks, as if its records had been added here
    /// after this counter's own.
    pub fn merge(&mut self, other: &ExactCounter)
        requires
            old(self).wf(),
            other.wf(),
            other.masks_spec() == old(self).masks_spec(),
            old(self).population().len() + other.population().len() <= u64::MAX,
            old(self).emitted_patterns().len() + other.emitted_patterns().len() <= u64::MAX,
        ensures
            final(self).wf(),
            final(self).masks_spec() == old(self).masks_spec(),
            final(self).population() == old(self).population() + other.population(),
    {
        broadcast use vstd::multiset::group_multiset_axioms;
        let ghost ms0 = self.emitted_patterns();
        let ghost mo = other.emitted_patterns();
        let ghost opv = patterns_view(other.patterns@);
        let ghost pop1 = self.population@ + other.population@;
        proof {
            assert(mo.filter(|q: Seq<Option<u64>>| opv.subrange(0, 0).contains(q)) =~= Multiset::empty());
            assert(ms0.add(Multiset::empty()) =~= ms0);
        }
        let mut i: usize = 0;
        while i < other.patterns.len()
            invariant
                i <= opv.len(),
                opv == patterns_view(other.patterns@),
                other.wf(),
                mo == other.emitted_patterns(),
                counts_match(opv, other.counts@, mo),
                ms0.len() + mo.len() <= u64::MAX,
                self.masks@ == old(self).masks@,
                self.population@ == old(self).population@,
                self.records == old(self).records,
                self.emitted == old(self).emitted,
                counts_match(patterns_view(self.patterns@), self.counts@,
                    ms0.add(mo.filter(|q: Seq<Option<u64>>| opv.subrange(0, i as int).contains(q)))),
            decreases opv.len() - i,
        {
            let ghost before = ms0.add(mo.filter(|q: Seq<Option<u64>>| opv.subrange(0, i as int).contains(q)));
            let ghost after = ms0.add(mo.filter(|q: Seq<Option<u64>>| opv.subrange(0, i + 1).contains(q)));
            let p = copy_pattern(&other.patterns[i]);
            let c = other.counts[i];
            proof {
                let pi = opv[i as int];
                assert(p@ == pi);
                assert(c == mo.count(pi));
                let s0 = opv.subrange(0, i as int);
                let s1 = opv.subrange(0, i + 1);
                assert forall|q: Seq<Option<u64>>| #[trigger] after.count(q) == before.count(q) + if q == p@ { c as nat } else { 0nat } by {
                    if q == pi {
                        assert(s1[i as int] == q);
                        assert(!s0.contains(q)) by {
                            if s0.contains(q) {
                                let j = choose|j: int| 0 <= j < s0.len() && s0[j] == q;
                                assert(opv[j] == opv[i as int]);
                            }
                        }
                    } else {
                        assert(s1.contains(q) == s0.contains(q)) by {
                            if s1.contains(q) {
                                let j = choose|j: int| 0 <= j < s1.len() && s1[j] == q;
                                assert(s0[j] == q);
                            }
                            if s0.contains(q) {
                                let j = choose|j: int| 0 <= j < s0.len() && s0[j] == q;
                                assert(s1[j] == q);
                            }
                        }
                    }
                }
                assert(after.len() <= ms0.len() + mo.len()) by {
                    let f = |q: Seq<Option<u64>>| opv.subrange(0, i + 1).contains(q);
                    let g = |q: Seq<Option<u64>>| !opv.subrange(0, i + 1).contains(q);
                    assert(mo =~= mo.filter(f).add(mo.filter(g)));
                }
            }
            Self::bump(&mut self.patterns, &mut self.counts, p, c, Ghost(before), Ghost(after));
            i += 1;
        }
        proof {
            assert(opv.subrange(0, i as int) =~= opv);
            assert(mo.filter(|q: Seq<Option<u64>>| opv.contains(q)) =~= mo);
            lemma_expansion_append(self.population@, other.population@, self.masks_spec());
        }
        self.population = Ghost(pop1);
        self.records = self.records + other.records;
        self.emitted = self.emitted + other.emitted;
    }

    /// The population's frequency table: one row per distinct emitted
    /// pattern, with the number of times it was emitted and the number of
    /// records in the population.
    pub fn table(&self) -> (r: Vec<FrequencyEntry>)
        requires
            self.wf(),
        ensures
            exact_table(table_view(r@), self.emitted_patterns(), self.population().len()),
    {
        let ghost pv = patterns_view(self.patterns@);
        let ghost ms = self.emitted_patterns();
        let mut r: Vec<FrequencyEntry> = Vec::new();
        let mut i: usize = 0;
        while i < self.patterns.len()
            invariant
                i <= self.patterns@.len(),
                pv == patterns_view(self.patterns@),
                counts_match(pv, self.counts@, ms),
                self.wf(),
                ms == self.emitted_patterns(),
                table_view(r@).len() == i,
                forall|j: int| 0 <= j < i ==> (#[trigger] table_view(r@)[j]) == (FrequencyEntryView {
                    pattern: pv[j], count: self.counts@[j], total: self.records }),
            decreases self.patterns@.len() - i,
        {
            let e = FrequencyEntry { pattern: copy_pattern(&self.patterns[i]), count: self.counts[i], total: self.records };
            let ghost before = r@;
            r.push(e);
            assert(r@ =~= before.push(e));
            assert(table_view(r@) =~= table_view(before).push(e@));
            i += 1;
        }
        proof {
            let t = table_view(r@);
            assert forall|a: int, b: int| 0 <= a < t.len() && 0 <= b < t.len() && a != b implies (#[trigger] t[a]).pattern != (#[trigger] t[b]).pattern by {
                assert(pv[a] != pv[b]);
            }
            assert forall|p: Seq<Option<u64>>| has_pattern(t, p) <==> #[trigger] ms.count(p) > 0 by {
                if ms.count(p) > 0 {
                    assert(pv.contains(p));
                    let j = choose|j: int| 0 <= j < pv.len() && pv[j] == p;
                    assert(t[j].pattern == p);
                }
                if has_pattern(t, p) {
                    let j = choose|j: int| 0 <= j < t.len() && (#[trigger] t[j]).pattern == p;
                    assert(self.counts@[j] == ms.count(pv[j]) && self.counts@[j] > 0);
                }
            }
        }
        r
    }
}

} // verus!
