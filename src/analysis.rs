use vstd::prelude::*;
use vstd::multiset::Multiset;
use crate::error::AnalysisError;
use crate::exact::{ExactCounter, lemma_expansion_count_bounded, exact_table, expansion, occurrences, lemma_expansion_len, lemma_occurrences_len};
use crate::pattern::{masks_distinct, Mask, Record, copy_masks, copy_pattern, generate, generated, masks_view, patterns_view, records_view, widths_match};
use crate::space_saving::{SpaceSaving, counter_counts, lemma_counts_sum, tracks, min_len, lemma_untracked_bound, lemma_count_bounds, lemma_exact_within_capacity, lemma_seen_keys, lemma_within_capacity};
use crate::stats::{MAX_POPULATION, Rule, Thresholds, bounded, compare, compared, consistent, kept, rules_view};
use crate::table::{sum_of, row_counts, FrequencyEntry, FrequencyEntryView, has_pattern, patterns_distinct, table_view};

verus! {

/// Every record has the width of every mask.
pub open spec fn all_widths_match(records: Seq<Seq<u64>>, masks: Seq<Seq<bool>>) -> bool {
    forall|i: int| 0 <= i < records.len() ==> widths_match((#[trigger] records[i]).len(), masks)
}

/// `t` is a Space-Saving table of capacity `k` for the emitted patterns `ms`
/// of a population of `n` records: one distinct row for each distinct
/// pattern up to `k` rows, none of which undercounts; a pattern without a row
/// occurred at most as often as the smallest count of a full table; every row
/// is of an emitted pattern, and the counts add up to the number of patterns
/// emitted; with no more than `k` distinct patterns the table is exact.
pub open spec fn approximate_table(t: Seq<FrequencyEntryView>, ms: Multiset<Seq<Option<u64>>>, n: nat, k: nat) -> bool {
    &&& patterns_distinct(t)
    &&& t.len() == min_len(k, ms.dom().len())
    &&& forall|i: int| 0 <= i < t.len() ==> ms.count((#[trigger] t[i]).pattern) > 0
    &&& sum_of(row_counts(t)) == ms.len()
    &&& forall|p: Seq<Option<u64>>| !has_pattern(t, p) ==> #[trigger] ms.count(p) == 0
        || (t.len() == k && forall|i: int| 0 <= i < t.len() ==> ms.count(p) <= (#[trigger] t[i]).count)
    &&& forall|i: int| 0 <= i < t.len() ==> ms.count((#[trigger] t[i]).pattern) <= t[i].count && t[i].total == n
    &&& ms.dom().len() <= k ==> exact_table(t, ms, n)
}

/// The exact frequency table of `records` under `masks`; a record whose width
/// differs from a mask's is refused.
pub fn count_exact(records: &Vec<Record>, masks: &Vec<Mask>) -> (r: Result<Vec<FrequencyEntry>, AnalysisError>)
    requires
        records@.len() * masks@.len() <= u64::MAX,
        records@.len() < u64::MAX,
    ensures
        r is Ok <==> all_widths_match(records_view(records@), masks_view(masks@)),
        r is Err ==> r == Err::<Vec<FrequencyEntry>, AnalysisError>(AnalysisError::InvalidWidth),
        r matches Ok(t) ==> exact_table(table_view(t@), expansion(records_view(records@), masks_view(masks@)), records@.len()),
{
    let ghost rv = records_view(records@);
    let ghost mv = masks_view(masks@);
    let mut counter = ExactCounter::new(copy_masks(masks));
    let mut i: usize = 0;
    while i < records.len()
        invariant
            i <= records@.len(),
            rv == records_view(records@),
            mv == masks_view(masks@),
            records@.len() * masks@.len() <= u64::MAX,
            records@.len() < u64::MAX,
            counter.wf(),
            counter.masks_spec() == mv,
            counter.population() == rv.subrange(0, i as int),
            all_widths_match(rv.subrange(0, i as int), mv),
        decreases records@.len() - i,
    {
        proof {
            lemma_expansion_len(rv.subrange(0, i as int), mv);
            assert((i + 1) * masks@.len() <= records@.len() * masks@.len()) by (nonlinear_arith)
                requires i + 1 <= records@.len();
            assert(i * masks@.len() + masks@.len() == (i + 1) * masks@.len()) by (nonlinear_arith);
        }
        match counter.add_record(&records[i]) {
            Ok(()) => {},
            Err(e) => {
                assert(!widths_match(rv[i as int].len(), mv));
                return Err(e);
            },
        }
        assert(rv.subrange(0, i + 1) =~= rv.subrange(0, i as int).push(records@[i as int]@));
        i += 1;
    }
    assert(rv.subrange(0, i as int) =~= rv);
    Ok(counter.table())
}

/// The Space-Saving table of capacity `capacity` of `records` under `masks`,
/// the patterns being inserted record by record in mask order. A capacity of
/// zero is refused first, then a record whose width differs from a mask's.
#[verifier::rlimit(30)]
pub fn count_approximate(records: &Vec<Record>, masks: &Vec<Mask>, capacity: usize) -> (r: Result<Vec<FrequencyEntry>, AnalysisError>)
    requires
        records@.len() * masks@.len() < u64::MAX,
        records@.len() <= u64::MAX,
    ensures
        r is Ok <==> capacity > 0 && all_widths_match(records_view(records@), masks_view(masks@)),
        capacity == 0 ==> r == Err::<Vec<FrequencyEntry>, AnalysisError>(AnalysisError::InvalidCapacity),
        capacity > 0 && !all_widths_match(records_view(records@), masks_view(masks@))
            ==> r == Err::<Vec<FrequencyEntry>, AnalysisError>(AnalysisError::InvalidWidth),
        r matches Ok(t) ==> approximate_table(table_view(t@), expansion(records_view(records@), masks_view(masks@)), records@.len(), capacity as nat),
{
    broadcast use vstd::multiset::group_multiset_axioms;
    let ghost rv = records_view(records@);
    let ghost mv = masks_view(masks@);
    let mut summary = match SpaceSaving::new(capacity) {
        Ok(s) => s,
        Err(e) => {
            return Err(e);
        },
    };
    proof {
        assert(rv.subrange(0, 0) =~= Seq::<Seq<u64>>::empty());
        assert(summary.stream() =~= expansion(rv.subrange(0, 0), mv));
    }
    let mut i: usize = 0;
    while i < records.len()
        invariant
            i <= records@.len(),
            rv == records_view(records@),
            mv == masks_view(masks@),
            records@.len() * masks@.len() < u64::MAX,
            capacity > 0,
            summary.wf(),
            summary.capacity_spec() == capacity,
            summary.stream() == expansion(rv.subrange(0, i as int), mv),
            all_widths_match(rv.subrange(0, i as int), mv),
        decreases records@.len() - i,
    {
        let ps = match generate(&records[i], masks) {
            Ok(ps) => ps,
            Err(e) => {
                assert(!widths_match(rv[i as int].len(), mv));
                return Err(e);
            },
        };
        let ghost gen = generated(rv[i as int], mv);
        let ghost base = summary.stream();
        proof {
            lemma_expansion_len(rv.subrange(0, i as int), mv);
            assert((i + 1) * masks@.len() <= records@.len() * masks@.len()) by (nonlinear_arith)
                requires i + 1 <= records@.len();
            assert(i * masks@.len() + masks@.len() == (i + 1) * masks@.len()) by (nonlinear_arith);
            assert(base.add(occurrences(gen.subrange(0, 0))) =~= base);
        }
        let mut j: usize = 0;
        while j < ps.len()
            invariant
                j <= ps@.len(),
                patterns_view(ps@) == gen,
                gen.len() == mv.len(),
                mv.len() == masks@.len(),
                base.len() + mv.len() < u64::MAX,
                summary.wf(),
                summary.capacity_spec() == capacity,
                summary.stream() == base.add(occurrences(gen.subrange(0, j as int))),
            decreases ps@.len() - j,
        {
            let p = copy_pattern(&ps[j]);
            proof {
                lemma_occurrences_len(gen.subrange(0, j as int));
                assert(p@ == gen[j as int]);
            }
            summary.insert(p);
            proof {
                assert(gen.subrange(0, j + 1).drop_last() =~= gen.subrange(0, j as int));
                assert(base.add(occurrences(gen.subrange(0, j + 1))) =~= base.add(occurrences(gen.subrange(0, j as int))).insert(gen[j as int]));
            }
            j += 1;
        }
        proof {
            assert(gen.subrange(0, j as int) =~= gen);
            assert(rv.subrange(0, i + 1).drop_last() =~= rv.subrange(0, i as int));
            assert(rv.subrange(0, i + 1).last() == rv[i as int]);
            assert(rv.subrange(0, i + 1) =~= rv.subrange(0, i as int).push(rv[i as int]));
        }
        i += 1;
    }
    let t = summary.table(records.len() as u64);
    proof {
        assert(rv.subrange(0, i as int) =~= rv);
        let ms = summary.stream();
        let tv = table_view(t@);
        let cs = summary.counters();
        lemma_within_capacity(&summary);
        lemma_seen_keys(&summary);
        assert(summary.seen() =~= ms.dom());
        assert forall|p: Seq<Option<u64>>| !has_pattern(tv, p) implies #[trigger] ms.count(p) == 0
            || (tv.len() == capacity && forall|i: int| 0 <= i < tv.len() ==> ms.count(p) <= (#[trigger] tv[i]).count) by {
            if tracks(cs, p) {
                let a = choose|a: int| 0 <= a < cs.len() && (#[trigger] cs[a]).key == p;
                assert(tv[a].pattern == p);
            }
            lemma_untracked_bound(&summary, p);
            if ms.count(p) != 0 {
                assert forall|i: int| 0 <= i < tv.len() implies ms.count(p) <= (#[trigger] tv[i]).count by {
                    assert(tv[i].count == cs[i].count);
                }
            }
        }
        assert forall|a: int| 0 <= a < tv.len() implies ms.count((#[trigger] tv[a]).pattern) <= tv[a].count
            && ms.count(tv[a].pattern) > 0 by {
            lemma_count_bounds(&summary, a);
        }
        lemma_counts_sum(&summary);
        assert(row_counts(tv) =~= counter_counts(cs));
        assert(patterns_distinct(tv)) by {
            assert forall|a: int, b: int| 0 <= a < tv.len() && 0 <= b < tv.len() && a != b implies (#[trigger] tv[a]).pattern != (#[trigger] tv[b]).pattern by {
                summary.lemma_keys_distinct(a, b);
            }
        }
        if ms.dom().len() <= capacity {
            lemma_exact_within_capacity(&summary);
            assert forall|p: Seq<Option<u64>>| has_pattern(tv, p) <==> #[trigger] ms.count(p) > 0 by {
                if has_pattern(tv, p) {
                    let a = choose|a: int| 0 <= a < tv.len() && (#[trigger] tv[a]).pattern == p;
                    lemma_count_bounds(&summary, a);
                }
                if ms.count(p) > 0 {
                    assert(summary.true_count(p) > 0);
                    assert(tracks(cs, p));
                    let a = choose|a: int| 0 <= a < cs.len() && (#[trigger] cs[a]).key == p;
                    assert(tv[a].pattern == p);
                }
            }
        }
    }
    Ok(t)
}

/// How a population's patterns are counted.
#[derive(Debug, Clone, Copy, PartialEq, Eq, Structural)]
pub enum Counting {
    /// Exact counts, with memory that grows with the number of distinct
    /// patterns.
    Exact,
    /// A Space-Saving summary tracking at most this many patterns.
    Approximate(usize),
}

/// `t` is a frequency table that `mode` may produce for `records` under
/// `masks`.
pub open spec fn table_of(mode: Counting, t: Seq<FrequencyEntryView>, records: Seq<Seq<u64>>, masks: Seq<Seq<bool>>) -> bool {
    match mode {
        Counting::Exact => exact_table(t, expansion(records, masks), records.len()),
        Counting::Approximate(k) => approximate_table(t, expansion(records, masks), records.len(), k as nat),
    }
}

/// The frequency table of `records` under `masks`, counted as `mode` says.
pub fn count_population(records: &Vec<Record>, masks: &Vec<Mask>, mode: Counting) -> (r: Result<Vec<FrequencyEntry>, AnalysisError>)
    requires
        records@.len() * masks@.len() < u64::MAX,
        records@.len() < u64::MAX,
    ensures
        r is Ok <==> mode != Counting::Approximate(0) && all_widths_match(records_view(records@), masks_view(masks@)),
        mode == Counting::Approximate(0) ==> r == Err::<Vec<FrequencyEntry>, AnalysisError>(AnalysisError::InvalidCapacity),
        mode != Counting::Approximate(0) && !all_widths_match(records_view(records@), masks_view(masks@))
            ==> r == Err::<Vec<FrequencyEntry>, AnalysisError>(AnalysisError::InvalidWidth),
        r matches Ok(t) ==> table_of(mode, table_view(t@), records_view(records@), masks_view(masks@)),
{
    match mode {
        Counting::Exact => count_exact(records, masks),
        Counting::Approximate(k) => count_approximate(records, masks, k),
    }
}

proof fn lemma_table_bounded(mode: Counting, t: Seq<FrequencyEntryView>, records: Seq<Seq<u64>>, masks: Seq<Seq<bool>>)
    requires
        table_of(mode, t, records, masks),
        records.len() <= MAX_POPULATION,
    ensures
        bounded(t),
{
    assert forall|i: int| 0 <= i < t.len() implies (#[trigger] t[i]).total <= MAX_POPULATION by {
        assert(t[i].total == records.len());
    }
}

proof fn lemma_exact_table_consistent(t: Seq<FrequencyEntryView>, records: Seq<Seq<u64>>, masks: Seq<Seq<bool>>)
    requires
        exact_table(t, expansion(records, masks), records.len()),
        all_widths_match(records, masks),
        masks_distinct(masks),
    ensures
        consistent(t),
{
    assert forall|i: int| 0 <= i < t.len() implies (#[trigger] t[i]).count <= t[i].total && t[i].total == t[0].total by {
        lemma_expansion_count_bounded(records, masks, t[i].pattern);
    }
}

/// Some row of `t` counts more occurrences than its population has records.
pub open spec fn overcounts(t: Seq<FrequencyEntryView>) -> bool {
    exists|i: int| 0 <= i < t.len() && (#[trigger] t[i]).count > t[i].total
}

proof fn lemma_inconsistent_overcounts(mode: Counting, t: Seq<FrequencyEntryView>, records: Seq<Seq<u64>>, masks: Seq<Seq<bool>>)
    requires
        table_of(mode, t, records, masks),
    ensures
        !consistent(t) ==> overcounts(t),
{
    if !consistent(t) {
        let i = choose|i: int| 0 <= i < t.len() && !((#[trigger] t[i]).count <= t[i].total && t[i].total == t[0].total);
        assert(t[i].total == records.len());
        assert(t[0].total == records.len());
    }
}

/// The whole analysis: both populations are expanded with `masks` and
/// counted as `mode` says, and the rules of the first population against the
/// second that `th` keeps are returned.
pub fn analyze(first: &Vec<Record>, second: &Vec<Record>, masks: &Vec<Mask>, mode: Counting, th: &Thresholds) -> (r: Result<Vec<Rule>, AnalysisError>)
    requires
        first@.len() <= MAX_POPULATION,
        second@.len() <= MAX_POPULATION,
        first@.len() * masks@.len() < u64::MAX,
        second@.len() * masks@.len() < u64::MAX,
    ensures
        mode == Counting::Approximate(0) ==> r == Err::<Vec<Rule>, AnalysisError>(AnalysisError::InvalidCapacity),
        mode != Counting::Approximate(0) && !(all_widths_match(records_view(first@), masks_view(masks@))
            && all_widths_match(records_view(second@), masks_view(masks@)))
            ==> r == Err::<Vec<Rule>, AnalysisError>(AnalysisError::InvalidWidth),
        mode == Counting::Exact && masks_distinct(masks_view(masks@))
            && all_widths_match(records_view(first@), masks_view(masks@))
            && all_widths_match(records_view(second@), masks_view(masks@)) ==> r is Ok,
        mode matches Counting::Approximate(k) && k > 0 && masks_distinct(masks_view(masks@))
            && all_widths_match(records_view(first@), masks_view(masks@))
            && all_widths_match(records_view(second@), masks_view(masks@))
            && expansion(records_view(first@), masks_view(masks@)).dom().len() <= k
            && expansion(records_view(second@), masks_view(masks@)).dom().len() <= k ==> r is Ok,
        r == Err::<Vec<Rule>, AnalysisError>(AnalysisError::InconsistentPopulationTotal) ==>
            exists|t1: Seq<FrequencyEntryView>, t2: Seq<FrequencyEntryView>|
            #![trigger table_of(mode, t1, records_view(first@), masks_view(masks@)), table_of(mode, t2, records_view(second@), masks_view(masks@))]
            table_of(mode, t1, records_view(first@), masks_view(masks@))
            && table_of(mode, t2, records_view(second@), masks_view(masks@))
            && (overcounts(t1) || overcounts(t2)),
        r is Err ==> r == Err::<Vec<Rule>, AnalysisError>(AnalysisError::InvalidCapacity)
            || r == Err::<Vec<Rule>, AnalysisError>(AnalysisError::InvalidWidth)
            || r == Err::<Vec<Rule>, AnalysisError>(AnalysisError::InconsistentPopulationTotal),
        r matches Ok(rs) ==> exists|t1: Seq<FrequencyEntryView>, t2: Seq<FrequencyEntryView>|
            table_of(mode, t1, records_view(first@), masks_view(masks@))
            && table_of(mode, t2, records_view(second@), masks_view(masks@))
            && rules_view(rs@) == kept(compared(t1, t2), *th),
{
    let t1 = match count_population(first, masks, mode) {
        Ok(t) => t,
        Err(e) => {
            return Err(e);
        },
    };
    let t2 = match count_population(second, masks, mode) {
        Ok(t) => t,
        Err(e) => {
            return Err(e);
        },
    };
    proof {
        lemma_table_bounded(mode, table_view(t1@), records_view(first@), masks_view(masks@));
        lemma_table_bounded(mode, table_view(t2@), records_view(second@), masks_view(masks@));
    }
    proof {
        if masks_distinct(masks_view(masks@)) {
            if mode == Counting::Exact || expansion(records_view(first@), masks_view(masks@)).dom().len() <= match mode {
                Counting::Approximate(k) => k as nat,
                Counting::Exact => 0,
            } {
                lemma_exact_table_consistent(table_view(t1@), records_view(first@), masks_view(masks@));
            }
            if mode == Counting::Exact || expansion(records_view(second@), masks_view(masks@)).dom().len() <= match mode {
                Counting::Approximate(k) => k as nat,
                Counting::Exact => 0,
            } {
                lemma_exact_table_consistent(table_view(t2@), records_view(second@), masks_view(masks@));
            }
        }
    }
    let r = compare(&t1, &t2, th);
    proof {
        assert(table_of(mode, table_view(t1@), records_view(first@), masks_view(masks@)));
        assert(table_of(mode, table_view(t2@), records_view(second@), masks_view(masks@)));
        if r is Err {
            lemma_inconsistent_overcounts(mode, table_view(t1@), records_view(first@), masks_view(masks@));
            lemma_inconsistent_overcounts(mode, table_view(t2@), records_view(second@), masks_view(masks@));
            assert(overcounts(table_view(t1@)) || overcounts(table_view(t2@)));
            assert(table_of(mode, table_view(t1@), records_view(first@), masks_view(masks@))
                && table_of(mode, table_view(t2@), records_view(second@), masks_view(masks@))
                && (overcounts(table_view(t1@)) || overcounts(table_view(t2@))));
        }
    }
    r
}

/// Which population a record belongs to: the first when its field `field`
/// holds `first`, else the second when that field holds `second`; a record
/// without that field belongs to neither.
pub open spec fn side_of(r: Seq<u64>, field: int, first: u64, second: u64) -> Option<bool> {
    if field < r.len() && r[field] == first {
        Some(true)
    } else if field < r.len() && r[field] == second {
        Some(false)
    } else {
        None
    }
}

/// `r` with its field `field` removed.
pub open spec fn without_field(r: Seq<u64>, field: int) -> Seq<u64> {
    r.subrange(0, field) + r.subrange(field + 1, r.len() as int)
}

/// The records of `records` on side `side`, in order, each without its
/// field `field`.
pub open spec fn population(records: Seq<Seq<u64>>, field: int, first: u64, second: u64, side: bool) -> Seq<Seq<u64>>
    decreases records.len(),
{
    if records.len() == 0 {
        Seq::empty()
    } else {
        let rest = population(records.drop_last(), field, first, second, side);
        if side_of(records.last(), field, first, second) == Some(side) {
            rest.push(without_field(records.last(), field))
        } else {
            rest
        }
    }
}

fn drop_field(r: &Record, field: usize) -> (out: Record)
    requires
        field < r@.len(),
    ensures
        out@ == without_field(r@, field as int),
{
    let mut out: Record = Vec::new();
    let mut i: usize = 0;
    while i < r.len()
        invariant
            field < r@.len(),
            i <= r@.len(),
            i <= field ==> out@ =~= r@.subrange(0, i as int),
            i > field ==> out@ =~= r@.subrange(0, field as int) + r@.subrange(field + 1, i as int),
        decreases r@.len() - i,
    {
        if i != field {
            out.push(r[i]);
        }
        i += 1;
    }
    out
}

/// Splits `records` into the two populations by the value of field `field`,
/// dropping that field from every record kept.
pub fn split_populations(records: &Vec<Record>, field: usize, first: u64, second: u64) -> (r: (Vec<Record>, Vec<Record>))
    ensures
        records_view(r.0@) == population(records_view(records@), field as int, first, second, true),
        records_view(r.1@) == population(records_view(records@), field as int, first, second, false),
{
    let ghost rv = records_view(records@);
    let mut a: Vec<Record> = Vec::new();
    let mut b: Vec<Record> = Vec::new();
    let mut i: usize = 0;
    while i < records.len()
        invariant
            i <= records@.len(),
            rv == records_view(records@),
            records_view(a@) == population(rv.subrange(0, i as int), field as int, first, second, true),
            records_view(b@) == population(rv.subrange(0, i as int), field as int, first, second, false),
        decreases records@.len() - i,
    {
        let r = &records[i];
        proof {
            assert(rv.subrange(0, i + 1).drop_last() =~= rv.subrange(0, i as int));
            assert(rv.subrange(0, i + 1).last() == r@);
        }
        if field < r.len() && r[field] == first {
            let d = drop_field(r, field);
            let ghost a0 = a@;
            a.push(d);
            assert(records_view(a@) =~= records_view(a0).push(d@));
        } else if field < r.len() && r[field] == second {
            let d = drop_field(r, field);
            let ghost b0 = b@;
            b.push(d);
            assert(records_view(b@) =~= records_view(b0).push(d@));
        }
        i += 1;
    }
    assert(rv.subrange(0, i as int) =~= rv);
    (a, b)
}

} // verus!
