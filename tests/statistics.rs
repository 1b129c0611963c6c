use rule_mining::analysis::{analyze, Counting};
use rule_mining::error::AnalysisError;
use rule_mining::pattern::standard_masks;
use rule_mining::stats::{
    check_consistent, common_risk_ratio, compare, evaluate, first_only_risk_ratio, passes, select, Fraction, RiskRatio,
    Rule, Thresholds,
};
use rule_mining::table::FrequencyEntry;

fn entry(pattern: Vec<Option<u64>>, count: u64, total: u64) -> FrequencyEntry {
    FrequencyEntry { pattern, count, total }
}

fn ratio_value(r: RiskRatio) -> f64 {
    match r {
        RiskRatio::Zero => 0.0,
        RiskRatio::Infinite => f64::INFINITY,
        RiskRatio::Ratio { num, den } => num as f64 / den as f64,
    }
}

#[test]
fn risk_ratio_zero_when_nothing_lacks_the_pattern() {
    assert_eq!(common_risk_ratio(4, 4, 6, 6), RiskRatio::Zero);
    assert_eq!(first_only_risk_ratio(3, 3, 0), RiskRatio::Zero);
}

#[test]
fn risk_ratio_infinite_when_first_always_has_the_pattern() {
    assert_eq!(common_risk_ratio(5, 5, 1, 4), RiskRatio::Infinite);
    assert_eq!(first_only_risk_ratio(2, 2, 9), RiskRatio::Infinite);
}

#[test]
fn risk_ratio_finite_formula() {
    // p_rule = 3 / (3 + 1), p_without = (10 - 3) / ((10 - 3) + (10 - 1))
    let r = common_risk_ratio(3, 10, 1, 10);
    assert_eq!(r, RiskRatio::Ratio { num: 3 * 16, den: 4 * 7 });
    assert!((ratio_value(r) - (0.75 / (7.0 / 16.0))).abs() < 1e-12);
    // p_rule = 1, p_without = 19 / (19 + 15)
    assert_eq!(first_only_risk_ratio(1, 20, 15), RiskRatio::Ratio { num: 34, den: 19 });
}

#[test]
fn thresholds_are_strict() {
    let th = Thresholds::standard();
    assert_eq!(th.min_support, Fraction { num: 1, den: 20 });
    assert_eq!(th.min_risk_ratio, Fraction { num: 6, den: 5 });
    let rule = |fc: u64, ft: u64, risk: RiskRatio| Rule {
        pattern: vec![None],
        first_count: fc,
        first_total: ft,
        second_count: 0,
        second_total: 0,
        risk_ratio: risk,
    };
    assert!(!passes(&rule(1, 20, RiskRatio::Infinite), &th));
    assert!(passes(&rule(2, 20, RiskRatio::Infinite), &th));
    assert!(!passes(&rule(2, 20, RiskRatio::Ratio { num: 6, den: 5 }), &th));
    assert!(passes(&rule(2, 20, RiskRatio::Ratio { num: 7, den: 5 }), &th));
    assert!(!passes(&rule(2, 20, RiskRatio::Zero), &th));
    assert!(!passes(&rule(0, 0, RiskRatio::Infinite), &th));
    let kept = select(&vec![rule(1, 20, RiskRatio::Infinite), rule(3, 20, RiskRatio::Infinite)], &th);
    assert_eq!(kept.len(), 1);
    assert_eq!(kept[0].first_count, 3);
}

#[test]
fn compare_rejects_inconsistent_totals() {
    let th = Thresholds::standard();
    let first = vec![entry(vec![Some(1)], 2, 10), entry(vec![Some(2)], 3, 11)];
    let second = vec![entry(vec![Some(1)], 1, 5)];
    assert!(!check_consistent(&first));
    assert_eq!(compare(&first, &second, &th).err(), Some(AnalysisError::InconsistentPopulationTotal));
    let over = vec![entry(vec![Some(1)], 6, 5)];
    assert_eq!(compare(&second, &over, &th).err(), Some(AnalysisError::InconsistentPopulationTotal));
    assert!(check_consistent(&second));
    assert!(check_consistent(&Vec::new()));
}

#[test]
fn common_rule_with_zero_denominator_scores_zero() {
    let first = vec![entry(vec![Some(1), None], 4, 4)];
    let second = vec![entry(vec![Some(1), None], 6, 6)];
    let rules = evaluate(&first, &second);
    assert_eq!(rules.len(), 1);
    assert_eq!(rules[0].risk_ratio, RiskRatio::Zero);
    assert!(compare(&first, &second, &Thresholds::standard()).unwrap().is_empty());
}

#[test]
fn common_rule_with_first_always_matching_is_infinite() {
    let first = vec![entry(vec![Some(1)], 8, 8)];
    let second = vec![entry(vec![Some(1)], 1, 5), entry(vec![Some(2)], 4, 5)];
    let rules = evaluate(&first, &second);
    assert_eq!(rules[0].risk_ratio, RiskRatio::Infinite);
    assert_eq!((rules[0].second_count, rules[0].second_total), (1, 5));
    assert_eq!(compare(&first, &second, &Thresholds::standard()).unwrap().len(), 1);
}

#[test]
fn patterns_only_in_second_yield_no_rule() {
    let first = vec![entry(vec![Some(1)], 3, 10)];
    let second = vec![entry(vec![Some(1)], 3, 10), entry(vec![Some(2)], 9, 10)];
    let rules = evaluate(&first, &second);
    assert_eq!(rules.len(), 1);
    assert_eq!(rules[0].pattern, vec![Some(1)]);
}

#[test]
fn scenario_first_population_all_match() {
    // first: 10 records all of the form (A, *, *, *); second: 2 of 10 do.
    let a = 100;
    let first: Vec<Vec<u64>> = (0..10u64).map(|i| vec![a, i, i + 20, i + 40]).collect();
    let second: Vec<Vec<u64>> = (0..10u64).map(|i| vec![if i < 2 { a } else { 200 + i }, i, i + 20, i + 40]).collect();
    let rules = analyze(&first, &second, &standard_masks(), Counting::Exact, &Thresholds::standard()).unwrap();
    let r = rules.iter().find(|r| r.pattern == vec![Some(a), None, None, None]).unwrap();
    assert_eq!((r.first_count, r.first_total), (10, 10));
    assert_eq!((r.second_count, r.second_total), (2, 10));
    assert_eq!(r.first_count as f64 / r.first_total as f64, 1.0);
    assert_eq!(r.second_count as f64 / r.second_total as f64, 0.2);
    assert_eq!(r.risk_ratio, RiskRatio::Infinite);
    assert!(ratio_value(r.risk_ratio) > 1.2);
    let approx = analyze(&first, &second, &standard_masks(), Counting::Approximate(700), &Thresholds::standard()).unwrap();
    assert!(approx.iter().any(|r| r.pattern == vec![Some(a), None, None, None] && r.risk_ratio == RiskRatio::Infinite));
}

#[test]
fn scenario_first_only_at_support_boundary_is_filtered() {
    let p = vec![Some(1), None, None, None];
    let first = vec![entry(p.clone(), 1, 20)];
    let second = vec![entry(vec![Some(2), None, None, None], 3, 15)];
    let rules = evaluate(&first, &second);
    assert_eq!((rules[0].second_count, rules[0].second_total), (0, 15));
    assert_eq!(rules[0].first_count as f64 / rules[0].first_total as f64, 0.05);
    assert_eq!(rules[0].risk_ratio, RiskRatio::Ratio { num: 34, den: 19 });
    assert!(compare(&first, &second, &Thresholds::standard()).unwrap().is_empty());
}

#[test]
fn scenario_missing_in_second_with_full_support_is_infinite() {
    let p = vec![None, Some(3), None, None];
    let first = vec![entry(p.clone(), 12, 12)];
    let second = vec![entry(vec![None, Some(4), None, None], 2, 7)];
    let rules = compare(&first, &second, &Thresholds::standard()).unwrap();
    assert_eq!(rules.len(), 1);
    assert_eq!(rules[0].pattern, p);
    assert_eq!(rules[0].risk_ratio, RiskRatio::Infinite);
    assert_eq!((rules[0].second_count, rules[0].second_total), (0, 7));
}

#[test]
fn analyze_reports_configuration_errors() {
    let th = Thresholds::standard();
    let recs = vec![vec![1, 2, 3, 4]];
    assert_eq!(analyze(&recs, &recs, &standard_masks(), Counting::Approximate(0), &th).err(), Some(AnalysisError::InvalidCapacity));
    let short = vec![vec![1, 2]];
    assert_eq!(analyze(&recs, &short, &standard_masks(), Counting::Exact, &th).err(), Some(AnalysisError::InvalidWidth));
}

#[test]
fn analyze_approximate_succeeds_with_room() {
    let first: Vec<Vec<u64>> = (0..5u64).map(|i| vec![1, i, 2, 3]).collect();
    let second: Vec<Vec<u64>> = (0..5u64).map(|i| vec![if i == 0 { 1 } else { 9 }, i, 2, 3]).collect();
    let th = Thresholds::standard();
    let approx = analyze(&first, &second, &standard_masks(), Counting::Approximate(700), &th).unwrap();
    let exact = analyze(&first, &second, &standard_masks(), Counting::Exact, &th).unwrap();
    assert_eq!(approx.len(), exact.len());
    for r in exact.iter() {
        let a = approx.iter().find(|x| x.pattern == r.pattern).unwrap();
        assert_eq!((a.first_count, a.second_count, a.risk_ratio), (r.first_count, r.second_count, r.risk_ratio));
    }
}
