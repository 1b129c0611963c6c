use rule_mining::error::AnalysisError;
use rule_mining::order::{pattern_eq, pattern_less};
use rule_mining::pattern::{apply_mask, generate, standard_masks};
use rule_mining::vocabulary::Vocabulary;

#[test]
fn generate_yields_one_pattern_per_mask() {
    let masks = standard_masks();
    let ps = generate(&vec![1, 2, 3, 4], &masks).unwrap();
    assert_eq!(ps.len(), masks.len());
    assert_eq!(ps[0], vec![None, None, None, Some(4)]);
    assert_eq!(ps[7], vec![Some(1), None, None, None]);
    assert_eq!(ps[13], vec![Some(1), Some(2), Some(3), None]);
}

#[test]
fn generate_keeps_mask_order() {
    let masks = vec![vec![true, false], vec![false, true], vec![true, true]];
    let ps = generate(&vec![7, 9], &masks).unwrap();
    assert_eq!(ps, vec![vec![Some(7), None], vec![None, Some(9)], vec![Some(7), Some(9)]]);
}

#[test]
fn generate_with_no_masks_is_empty() {
    let ps = generate(&vec![1, 2, 3], &Vec::new()).unwrap();
    assert!(ps.is_empty());
}

#[test]
fn generate_rejects_width_mismatch() {
    let masks = vec![vec![true, false, true, false], vec![true, false]];
    assert_eq!(generate(&vec![1, 2, 3, 4], &masks), Err(AnalysisError::InvalidWidth));
}

#[test]
fn apply_mask_wildcards_unselected_fields() {
    assert_eq!(apply_mask(&vec![4, 5, 6], &vec![false, true, false]), vec![None, Some(5), None]);
}

#[test]
fn standard_masks_are_proper_and_distinct() {
    let masks = standard_masks();
    assert_eq!(masks.len(), 14);
    for (j, m) in masks.iter().enumerate() {
        assert_eq!(m.len(), 4);
        assert!(m.iter().any(|b| *b));
        assert!(m.iter().any(|b| !*b));
        let n = j + 1;
        assert_eq!(*m, vec![n & 8 != 0, n & 4 != 0, n & 2 != 0, n & 1 != 0]);
    }
    for a in 0..masks.len() {
        for b in 0..masks.len() {
            assert_eq!(a == b, masks[a] == masks[b]);
        }
    }
}

#[test]
fn every_standard_pattern_has_a_wildcard() {
    let ps = generate(&vec![1, 2, 3, 4], &standard_masks()).unwrap();
    for p in ps.iter() {
        assert!(p.iter().any(|f| f.is_none()));
        assert!(p.iter().any(|f| f.is_some()));
    }
}

#[test]
fn pattern_order_is_lexicographic() {
    assert!(pattern_less(&vec![None, Some(5)], &vec![Some(0), None]));
    assert!(pattern_less(&vec![Some(1), Some(2)], &vec![Some(1), Some(3)]));
    assert!(pattern_less(&vec![Some(1)], &vec![Some(1), None]));
    assert!(!pattern_less(&vec![Some(1), None], &vec![Some(1), None]));
    assert!(!pattern_less(&vec![Some(2)], &vec![Some(1), Some(9)]));
    assert!(pattern_eq(&vec![Some(1), None], &vec![Some(1), None]));
    assert!(!pattern_eq(&vec![Some(1), None], &vec![Some(1), Some(0)]));
}

#[test]
fn vocabulary_interns_and_renders() {
    let mut v = Vocabulary::new();
    let a = v.intern("White-Knight-G");
    let b = v.intern("e4");
    assert_eq!(v.intern("White-Knight-G"), a);
    assert_ne!(a, b);
    assert_eq!(v.len(), 2);
    assert_eq!(v.lookup("e4"), Some(b));
    assert_eq!(v.lookup("e5"), None);
    let rec = v.encode(&vec!["e4".to_string(), "captured".to_string(), "e4".to_string()]);
    assert_eq!(rec, vec![b, 2, b]);
    let shown = v.render(&vec![Some(a), None, Some(2)]).unwrap();
    assert_eq!(shown, vec!["White-Knight-G".to_string(), "*".to_string(), "captured".to_string()]);
    assert_eq!(v.render(&vec![Some(9)]), None);
}
