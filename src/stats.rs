use vstd::prelude::*;
use crate::error::AnalysisError;
use crate::order::pattern_eq;
use crate::pattern::{Pattern, copy_pattern};
use crate::table::{FrequencyEntry, FrequencyEntryView, table_view};

verus! {

/// The largest population the statistics accept (2^40 records). Supports
/// and risk ratios are kept as exact fractions; comparing a risk ratio with a
/// threshold multiplies two counts and a 32-bit threshold term, and this
/// bound keeps every such product within 128 bits.
pub const MAX_POPULATION: u64 = 1099511627776;

/// A non-negative rational threshold `num / den`.
#[derive(Debug, Clone, Copy, PartialEq, Eq, Structural)]
pub struct Fraction {
    pub num: u32,
    pub den: u32,
}

/// The filter applied to the rules: a rule is kept when its support in the
/// first population exceeds `min_support` and its risk ratio exceeds
/// `min_risk_ratio`, both strictly.
#[derive(Debug, Clone, Copy, PartialEq, Eq, Structural)]
pub struct Thresholds {
    pub min_support: Fraction,
    pub min_risk_ratio: Fraction,
}

impl Thresholds {
    /// Support above 1/20 and risk ratio above 6/5.
    pub fn standard() -> (r: Thresholds)
        ensures
            r == (Thresholds { min_support: Fraction { num: 1, den: 20 }, min_risk_ratio: Fraction { num: 6, den: 5 } }),
    {
        Thresholds { min_support: Fraction { num: 1, den: 20 }, min_risk_ratio: Fraction { num: 6, den: 5 } }
    }
}

/// A risk ratio, kept exact: `Ratio` stands for `num / den`.
#[derive(Debug, Clone, Copy, PartialEq, Eq, Structural)]
pub enum RiskRatio {
    /// No record of either population lacks the pattern.
    Zero,
    /// Every record of the first population has the pattern, and some record
    /// of the second lacks it.
    Infinite,
    /// The ratio `num / den`.
    Ratio { num: u128, den: u128 },
}

/// The risk ratio of a pattern whose share of occurrences attributable to the
/// first population is `p_num / p_den`, where `first_without` records of the
/// first population and `total_without` records of both lack the pattern.
pub open spec fn risk_ratio_spec(p_num: int, p_den: int, first_without: int, total_without: int) -> RiskRatio {
    if total_without == 0 {
        RiskRatio::Zero
    } else if first_without == 0 {
        RiskRatio::Infinite
    } else {
        RiskRatio::Ratio { num: (p_num * total_without) as u128, den: (p_den * first_without) as u128 }
    }
}

/// The risk ratio of a pattern found `fc` times among `ft` first records and
/// `sc` times among `st` second records.
pub open spec fn common_risk_ratio_spec(fc: u64, ft: u64, sc: u64, st: u64) -> RiskRatio {
    risk_ratio_spec(fc as int, fc + sc, ft - fc, (ft - fc) + (st - sc))
}

/// The risk ratio of a pattern found `fc` times among `ft` first records and
/// not at all among `st` second records: all its occurrences are the first
/// population's.
pub open spec fn first_only_risk_ratio_spec(fc: u64, ft: u64, st: u64) -> RiskRatio {
    risk_ratio_spec(1, 1, ft - fc, (ft - fc) + st)
}

pub open spec fn count_fits(count: u64, total: u64) -> bool {
    count <= total <= MAX_POPULATION
}

/// The bound on a product of two counts of at most twice the largest
/// population.
pub open spec fn product_bound() -> int {
    (2 * MAX_POPULATION) * (2 * MAX_POPULATION)
}

proof fn lemma_products_fit(a: int, b: int, c: int)
    requires
        0 <= a <= 2 * MAX_POPULATION,
        0 <= b <= 2 * MAX_POPULATION,
        0 <= c <= u32::MAX,
    ensures
        product_bound() == 4835703278458516698824704,
        0 <= a * b <= product_bound(),
        0 <= a * b * c < u128::MAX,
{
    let m: int = 2 * MAX_POPULATION;
    assert(m == 2199023255552);
    assert(0 <= a * b <= m * m) by (nonlinear_arith)
        requires 0 <= a <= m, 0 <= b <= m;
    assert(m * m == 4835703278458516698824704);
    assert(0 <= a * b * c <= 4835703278458516698824704 * 4294967295) by (nonlinear_arith)
        requires 0 <= a * b <= 4835703278458516698824704, 0 <= c <= 4294967295;
}

fn risk_ratio(p_num: u64, p_den: u64, first_without: u64, total_without: u64) -> (r: RiskRatio)
    requires
        p_num <= 2 * MAX_POPULATION,
        p_den <= 2 * MAX_POPULATION,
        first_without <= 2 * MAX_POPULATION,
        total_without <= 2 * MAX_POPULATION,
    ensures
        r == risk_ratio_spec(p_num as int, p_den as int, first_without as int, total_without as int),
        r matches RiskRatio::Ratio { num, den } ==> num <= product_bound() && den <= product_bound(),
{
    if total_without == 0 {
        RiskRatio::Zero
    } else if first_without == 0 {
        RiskRatio::Infinite
    } else {
        proof {
            lemma_products_fit(p_num as int, total_without as int, 0);
            lemma_products_fit(p_den as int, first_without as int, 0);
        }
        RiskRatio::Ratio { num: p_num as u128 * total_without as u128, den: p_den as u128 * first_without as u128 }
    }
}

/// The risk ratio of a pattern found in both populations: `fc` of `ft`
/// first records and `sc` of `st` second records have it.
pub fn common_risk_ratio(fc: u64, ft: u64, sc: u64, st: u64) -> (r: RiskRatio)
    requires
        count_fits(fc, ft),
        count_fits(sc, st),
    ensures
        r == common_risk_ratio_spec(fc, ft, sc, st),
        r matches RiskRatio::Ratio { num, den } ==> num <= product_bound() && den <= product_bound(),
{
    risk_ratio(fc, fc + sc, ft - fc, (ft - fc) + (st - sc))
}

/// The risk ratio of a pattern that `fc` of `ft` first records have and
/// that no second record has, `st` being the second population's size.
pub fn first_only_risk_ratio(fc: u64, ft: u64, st: u64) -> (r: RiskRatio)
    requires
        count_fits(fc, ft),
        st <= MAX_POPULATION,
    ensures
        r == first_only_risk_ratio_spec(fc, ft, st),
        r matches RiskRatio::Ratio { num, den } ==> num <= product_bound() && den <= product_bound(),
{
    risk_ratio(1, 1, ft - fc, (ft - fc) + st)
}

/// A pattern with the counts behind its supports and its risk ratio. The
/// support in the first population is `first_count / first_total`, in the
/// second `second_count / second_total`.
#[derive(Debug)]
pub struct Rule {
    pub pattern: Pattern,
    pub first_count: u64,
    pub first_total: u64,
    pub second_count: u64,
    pub second_total: u64,
    pub risk_ratio: RiskRatio,
}

/// A rule as plain values.
pub struct RuleView {
    pub pattern: Seq<Option<u64>>,
    pub first_count: u64,
    pub first_total: u64,
    pub second_count: u64,
    pub second_total: u64,
    pub risk_ratio: RiskRatio,
}

impl View for Rule {
    type V = RuleView;

    open spec fn view(&self) -> RuleView {
        RuleView {
            pattern: self.pattern@,
            first_count: self.first_count,
            first_total: self.first_total,
            second_count: self.second_count,
            second_total: self.second_total,
            risk_ratio: self.risk_ratio,
        }
    }
}

pub open spec fn rules_view(rs: Seq<Rule>) -> Seq<RuleView> {
    rs.map_values(|r: Rule| r@)
}

/// `count / total > f`, compared exactly; an empty population supports
/// nothing.
pub open spec fn support_exceeds(count: u64, total: u64, f: Fraction) -> bool {
    count * f.den > f.num * total
}

/// The risk ratio exceeds `f`: never when it is zero, always when it is
/// infinite; `0 / 0` exceeds nothing.
pub open spec fn risk_exceeds(r: RiskRatio, f: Fraction) -> bool {
    match r {
        RiskRatio::Zero => false,
        RiskRatio::Infinite => true,
        RiskRatio::Ratio { num, den } => num * f.den > f.num * den,
    }
}

pub open spec fn keeps(r: RuleView, th: Thresholds) -> bool {
    support_exceeds(r.first_count, r.first_total, th.min_support) && risk_exceeds(r.risk_ratio, th.min_risk_ratio)
}

/// The rules of `rs` that `th` keeps, in their order.
pub open spec fn kept(rs: Seq<RuleView>, th: Thresholds) -> Seq<RuleView>
    decreases rs.len(),
{
    if rs.len() == 0 {
        Seq::empty()
    } else if keeps(rs.last(), th) {
        kept(rs.drop_last(), th).push(rs.last())
    } else {
        kept(rs.drop_last(), th)
    }
}

/// Rules whose counts the statistics accept.
pub open spec fn rule_fits(r: RuleView) -> bool {
    &&& count_fits(r.first_count, r.first_total)
    &&& r.risk_ratio matches RiskRatio::Ratio { num, den } ==> num <= product_bound() && den <= product_bound()
}

/// Whether `th` keeps `rule`.
pub fn passes(rule: &Rule, th: &Thresholds) -> (r: bool)
    requires
        rule_fits(rule@),
    ensures
        r == keeps(rule@, *th),
{
    proof {
        lemma_products_fit(rule.first_count as int, th.min_support.den as int, 0);
        lemma_products_fit(th.min_support.num as int, rule.first_total as int, 0);
    }
    let support = rule.first_count as u128 * th.min_support.den as u128 > th.min_support.num as u128 * rule.first_total as u128;
    if !support {
        return false;
    }
    match rule.risk_ratio {
        RiskRatio::Zero => false,
        RiskRatio::Infinite => true,
        RiskRatio::Ratio { num, den } => {
            proof {
                assert(num * th.min_risk_ratio.den <= product_bound() * u32::MAX) by (nonlinear_arith)
                    requires num <= product_bound(), th.min_risk_ratio.den <= u32::MAX;
                assert(th.min_risk_ratio.num * den <= u32::MAX * product_bound()) by (nonlinear_arith)
                    requires den <= product_bound(), th.min_risk_ratio.num <= u32::MAX;
                lemma_products_fit(0, 0, 0);
            }
            num * th.min_risk_ratio.den as u128 > th.min_risk_ratio.num as u128 * den
        },
    }
}

fn copy_rule(r: &Rule) -> (c: Rule)
    ensures
        c@ == r@,
{
    Rule {
        pattern: copy_pattern(&r.pattern),
        first_count: r.first_count,
        first_total: r.first_total,
        second_count: r.second_count,
        second_total: r.second_total,
        risk_ratio: r.risk_ratio,
    }
}

/// The rules of `rules` that `th` keeps, in their order.
pub fn select(rules: &Vec<Rule>, th: &Thresholds) -> (r: Vec<Rule>)
    requires
        forall|i: int| 0 <= i < rules@.len() ==> rule_fits(#[trigger] rules@[i]@),
    ensures
        rules_view(r@) == kept(rules_view(rules@), *th),
{
    let ghost all = rules_view(rules@);
    let mut out: Vec<Rule> = Vec::new();
    let mut i: usize = 0;
    while i < rules.len()
        invariant
            i <= rules@.len(),
            all == rules_view(rules@),
            forall|j: int| 0 <= j < rules@.len() ==> rule_fits(#[trigger] rules@[j]@),
            rules_view(out@) == kept(all.subrange(0, i as int), *th),
        decreases rules@.len() - i,
    {
        proof {
            assert(all.subrange(0, i + 1).drop_last() =~= all.subrange(0, i as int));
            assert(all.subrange(0, i + 1).last() == rules@[i as int]@);
        }
        if passes(&rules[i], th) {
            let c = copy_rule(&rules[i]);
            let ghost o0 = out@;
            out.push(c);
            assert(out@ =~= o0.push(c));
            assert(rules_view(out@) =~= rules_view(o0).push(c@));
        }
        i += 1;
    }
    assert(all.subrange(0, i as int) =~= all);
    out
}

/// Every row's count is at most its total, and all rows state the same total.
pub open spec fn consistent(t: Seq<FrequencyEntryView>) -> bool {
    forall|i: int| 0 <= i < t.len() ==> (#[trigger] t[i]).count <= t[i].total && t[i].total == t[0].total
}

/// No row states a population larger than the statistics accept.
pub open spec fn bounded(t: Seq<FrequencyEntryView>) -> bool {
    forall|i: int| 0 <= i < t.len() ==> (#[trigger] t[i]).total <= MAX_POPULATION
}

/// The population total a table states; an empty table stands for an empty
/// population.
pub open spec fn population_total(t: Seq<FrequencyEntryView>) -> u64 {
    if t.len() > 0 {
        t[0].total
    } else {
        0
    }
}

/// The count of the first row of `t` about pattern `p`, if any.
pub open spec fn count_in(t: Seq<FrequencyEntryView>, p: Seq<Option<u64>>) -> Option<u64>
    decreases t.len(),
{
    if t.len() == 0 {
        None
    } else if t[0].pattern == p {
        Some(t[0].count)
    } else {
        count_in(t.drop_first(), p)
    }
}

/// The rule of a row `e` of the first table against the second table. A
/// pattern that the second table lacks counts as found in none of the second
/// population's records, and all its occurrences are the first population's.
pub open spec fn rule_for(e: FrequencyEntryView, second: Seq<FrequencyEntryView>) -> RuleView {
    let st = population_total(second);
    match count_in(second, e.pattern) {
        Some(sc) => RuleView {
            pattern: e.pattern,
            first_count: e.count,
            first_total: e.total,
            second_count: sc,
            second_total: st,
            risk_ratio: common_risk_ratio_spec(e.count, e.total, sc, st),
        },
        None => RuleView {
            pattern: e.pattern,
            first_count: e.count,
            first_total: e.total,
            second_count: 0,
            second_total: st,
            risk_ratio: first_only_risk_ratio_spec(e.count, e.total, st),
        },
    }
}

/// One rule per row of the first table, in its order. Patterns found only
/// in the second table yield no rule: the rules describe the first
/// population.
pub open spec fn compared(first: Seq<FrequencyEntryView>, second: Seq<FrequencyEntryView>) -> Seq<RuleView> {
    first.map_values(|e: FrequencyEntryView| rule_for(e, second))
}

/// Whether `t` is consistent.
pub fn check_consistent(t: &Vec<FrequencyEntry>) -> (r: bool)
    ensures
        r == consistent(table_view(t@)),
{
    let ghost tv = table_view(t@);
    if t.len() == 0 {
        return true;
    }
    let total = t[0].total;
    let mut i: usize = 0;
    while i < t.len()
        invariant
            tv == table_view(t@),
            tv.len() > 0,
            total == tv[0].total,
            i <= tv.len(),
            forall|j: int| 0 <= j < i ==> (#[trigger] tv[j]).count <= tv[j].total && tv[j].total == tv[0].total,
        decreases tv.len() - i,
    {
        if t[i].count > t[i].total || t[i].total != total {
            assert(tv[i as int].count > tv[i as int].total || tv[i as int].total != tv[0].total);
            return false;
        }
        i += 1;
    }
    true
}

fn lookup(t: &Vec<FrequencyEntry>, p: &Pattern) -> (r: Option<usize>)
    ensures
        r matches Some(i) ==> i < t@.len() && count_in(table_view(t@), p@) == Some(t@[i as int].count),
        r is None ==> count_in(table_view(t@), p@) is None,
{
    let ghost tv = table_view(t@);
    let mut i: usize = 0;
    assert(tv.subrange(0, tv.len() as int) =~= tv);
    while i < t.len()
        invariant
            tv == table_view(t@),
            i <= tv.len(),
            count_in(tv, p@) == count_in(tv.subrange(i as int, tv.len() as int), p@),
        decreases tv.len() - i,
    {
        let ghost rest = tv.subrange(i as int, tv.len() as int);
        assert(rest[0] == tv[i as int]);
        if pattern_eq(&t[i].pattern, p) {
            return Some(i);
        }
        assert(rest.drop_first() =~= tv.subrange(i + 1, tv.len() as int));
        i += 1;
    }
    None
}

proof fn lemma_count_in_bounded(t: Seq<FrequencyEntryView>, p: Seq<Option<u64>>, i: int)
    requires
        consistent(t),
        0 <= i < t.len(),
        count_in(t, p) == Some(t[i].count),
    ensures
        t[i].count <= population_total(t),
{
}

/// The rule of every row of `first` against `second`, in the order of
/// `first`.
pub fn evaluate(first: &Vec<FrequencyEntry>, second: &Vec<FrequencyEntry>) -> (r: Vec<Rule>)
    requires
        consistent(table_view(first@)),
        consistent(table_view(second@)),
        bounded(table_view(first@)),
        bounded(table_view(second@)),
    ensures
        rules_view(r@) == compared(table_view(first@), table_view(second@)),
        forall|i: int| 0 <= i < r@.len() ==> rule_fits(#[trigger] r@[i]@),
{
    let ghost fv = table_view(first@);
    let ghost sv = table_view(second@);
    let st: u64 = if second.len() > 0 {
        second[0].total
    } else {
        0
    };
    assert(st == population_total(sv));
    let mut out: Vec<Rule> = Vec::new();
    let mut i: usize = 0;
    while i < first.len()
        invariant
            fv == table_view(first@),
            sv == table_view(second@),
            consistent(fv),
            consistent(sv),
            bounded(fv),
            bounded(sv),
            st == population_total(sv),
            i <= fv.len(),
            rules_view(out@) =~= compared(fv, sv).subrange(0, i as int),
            forall|j: int| 0 <= j < out@.len() ==> rule_fits(#[trigger] out@[j]@),
        decreases fv.len() - i,
    {
        let e = &first[i];
        assert(fv[i as int] == e@);
        assert(st <= MAX_POPULATION) by {
            if sv.len() > 0 {
                assert(sv[0].total <= MAX_POPULATION);
            }
        }
        let rule = match lookup(second, &e.pattern) {
            Some(j) => {
                let sc = second[j].count;
                proof {
                    assert(sv[j as int].count == sc);
                    lemma_count_in_bounded(sv, e.pattern@, j as int);
                }
                Rule {
                    pattern: copy_pattern(&e.pattern),
                    first_count: e.count,
                    first_total: e.total,
                    second_count: sc,
                    second_total: st,
                    risk_ratio: common_risk_ratio(e.count, e.total, sc, st),
                }
            },
            None => Rule {
                pattern: copy_pattern(&e.pattern),
                first_count: e.count,
                first_total: e.total,
                second_count: 0,
                second_total: st,
                risk_ratio: first_only_risk_ratio(e.count, e.total, st),
            },
        };
        assert(rule@ == rule_for(fv[i as int], sv));
        let ghost o0 = out@;
        out.push(rule);
        assert(out@ =~= o0.push(rule));
        assert(rules_view(out@) =~= rules_view(o0).push(rule@));
        i += 1;
    }
    assert(compared(fv, sv).subrange(0, i as int) =~= compared(fv, sv));
    out
}

/// The rules of the first table against the second that `th` keeps, in the
/// order of the first table; a table that is not consistent is refused.
pub fn compare(first: &Vec<FrequencyEntry>, second: &Vec<FrequencyEntry>, th: &Thresholds) -> (r: Result<Vec<Rule>, AnalysisError>)
    requires
        bounded(table_view(first@)),
        bounded(table_view(second@)),
    ensures
        r is Ok <==> consistent(table_view(first@)) && consistent(table_view(second@)),
        r is Err ==> r == Err::<Vec<Rule>, AnalysisError>(AnalysisError::InconsistentPopulationTotal),
        r matches Ok(rs) ==> rules_view(rs@) == kept(compared(table_view(first@), table_view(second@)), *th),
{
    if !check_consistent(first) || !check_consistent(second) {
        return Err(AnalysisError::InconsistentPopulationTotal);
    }
    let all = evaluate(first, second);
    Ok(select(&all, th))
}

/// A pattern that every record of both populations has gets a risk ratio
/// of zero: nothing lacks it, and no division takes place.
pub proof fn lemma_common_zero_denominator(fc: u64, ft: u64, sc: u64, st: u64)
    requires
        fc == ft,
        sc == st,
    ensures
        common_risk_ratio_spec(fc, ft, sc, st) == RiskRatio::Zero,
{
}

/// A pattern that every first record has, and that some second record
/// lacks, gets an infinite risk ratio.
pub proof fn lemma_common_infinite(fc: u64, ft: u64, sc: u64, st: u64)
    requires
        fc == ft,
        sc < st,
    ensures
        common_risk_ratio_spec(fc, ft, sc, st) == RiskRatio::Infinite,
{
}

/// A pattern that every record of a non-empty first population has, and
/// that the second table lacks while its population is not empty, gets an
/// infinite risk ratio with full first support and no second support, and
/// any thresholds below full support keep it.
pub proof fn lemma_first_only_full_support(e: FrequencyEntryView, second: Seq<FrequencyEntryView>, th: Thresholds)
    requires
        1 <= e.count == e.total,
        count_in(second, e.pattern) is None,
        population_total(second) >= 1,
        th.min_support.num < th.min_support.den,
    ensures
        rule_for(e, second) == (RuleView {
            pattern: e.pattern,
            first_count: e.count,
            first_total: e.total,
            second_count: 0,
            second_total: population_total(second),
            risk_ratio: RiskRatio::Infinite,
        }),
        keeps(rule_for(e, second), th),
{
    assert(e.count * th.min_support.den > th.min_support.num * e.total) by (nonlinear_arith)
        requires e.count == e.total, e.count >= 1, th.min_support.num < th.min_support.den;
}

} // verus!
