use vstd::prelude::*;
use crate::pattern::Pattern;

verus! {

/// One row of a frequency table: how often a pattern occurred in a
/// population, and how many records that population holds.
#[derive(Debug)]
pub struct FrequencyEntry {
    pub pattern: Pattern,
    pub count: u64,
    pub total: u64,
}

/// A row as plain values.
pub struct FrequencyEntryView {
    pub pattern: Seq<Option<u64>>,
    pub count: u64,
    pub total: u64,
}

impl View for FrequencyEntry {
    type V = FrequencyEntryView;

    open spec fn view(&self) -> FrequencyEntryView {
        FrequencyEntryView { pattern: self.pattern@, count: self.count, total: self.total }
    }
}

pub open spec fn table_view(t: Seq<FrequencyEntry>) -> Seq<FrequencyEntryView> {
    t.map_values(|e: FrequencyEntry| e@)
}

/// No pattern has two rows.
pub open spec fn patterns_distinct(t: Seq<FrequencyEntryView>) -> bool {
    forall|i: int, j: int| 0 <= i < t.len() && 0 <= j < t.len() && i != j ==> (#[trigger] t[i]).pattern != (#[trigger] t[j]).pattern
}

/// Some row of `t` is about pattern `p`.
pub open spec fn has_pattern(t: Seq<FrequencyEntryView>, p: Seq<Option<u64>>) -> bool {
    exists|i: int| 0 <= i < t.len() && (#[trigger] t[i]).pattern == p
}

/// The sum of `s`.
pub open spec fn sum_of(s: Seq<u64>) -> nat
    decreases s.len(),
{
    if s.len() == 0 {
        0
    } else {
        sum_of(s.drop_last()) + s.last() as nat
    }
}

/// Replacing one term changes the sum by the difference.
pub proof fn lemma_sum_of_update(s: Seq<u64>, i: int, x: u64)
    requires
        0 <= i < s.len(),
    ensures
        sum_of(s.update(i, x)) + s[i] == sum_of(s) + x,
    decreases s.len(),
{
    if i < s.len() - 1 {
        lemma_sum_of_update(s.drop_last(), i, x);
        assert(s.update(i, x).drop_last() =~= s.drop_last().update(i, x));
    } else {
        assert(s.update(i, x).drop_last() =~= s.drop_last());
    }
}

/// The counts of the rows of `t`.
pub open spec fn row_counts(t: Seq<FrequencyEntryView>) -> Seq<u64> {
    t.map_values(|e: FrequencyEntryView| e.count)
}

} // verus!
