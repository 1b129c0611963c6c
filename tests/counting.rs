use rule_mining::analysis::{count_approximate, count_exact, split_populations};
use rule_mining::error::AnalysisError;
use rule_mining::exact::ExactCounter;
use rule_mining::pattern::standard_masks;
use rule_mining::space_saving::SpaceSaving;
use rule_mining::table::FrequencyEntry;

fn row<'a>(t: &'a [FrequencyEntry], p: &[Option<u64>]) -> Option<&'a FrequencyEntry> {
    t.iter().find(|e| e.pattern.as_slice() == p)
}

#[test]
fn exact_totals_equal_population_size() {
    let masks = standard_masks();
    let records = vec![vec![1, 2, 3, 4], vec![1, 5, 3, 6], vec![7, 2, 8, 4]];
    let t = count_exact(&records, &masks).unwrap();
    assert!(!t.is_empty());
    for e in t.iter() {
        assert_eq!(e.total, 3);
    }
    assert_eq!(row(&t, &[Some(1), None, None, None]).unwrap().count, 2);
    assert_eq!(row(&t, &[None, Some(2), None, Some(4)]).unwrap().count, 2);
    assert_eq!(row(&t, &[Some(7), None, None, None]).unwrap().count, 1);
    assert!(row(&t, &[Some(2), None, None, None]).is_none());
}

#[test]
fn exact_counts_every_emitted_pattern() {
    let masks = standard_masks();
    let records = vec![vec![1, 1, 1, 1], vec![1, 1, 1, 1]];
    let t = count_exact(&records, &masks).unwrap();
    assert_eq!(t.len(), 14);
    for e in t.iter() {
        assert_eq!(e.count, 2);
        assert_eq!(e.total, 2);
    }
}

#[test]
fn exact_empty_population_has_empty_table() {
    let t = count_exact(&Vec::new(), &standard_masks()).unwrap();
    assert!(t.is_empty());
}

#[test]
fn exact_rejects_bad_width() {
    let records = vec![vec![1, 2, 3, 4], vec![1, 2, 3]];
    assert_eq!(count_exact(&records, &standard_masks()).err(), Some(AnalysisError::InvalidWidth));
}

#[test]
fn exact_counter_is_incremental() {
    let mut c = ExactCounter::new(vec![vec![true, false], vec![false, true]]);
    c.add_record(&vec![1, 2]).unwrap();
    c.add_record(&vec![1, 3]).unwrap();
    assert_eq!(c.add_record(&vec![1]), Err(AnalysisError::InvalidWidth));
    assert_eq!(c.records(), 2);
    assert_eq!(c.emitted(), 4);
    let t = c.table();
    assert_eq!(t.len(), 3);
    assert_eq!(row(&t, &[Some(1), None]).unwrap().count, 2);
    assert_eq!(row(&t, &[None, Some(3)]).unwrap().count, 1);
    assert!(t.iter().all(|e| e.total == 2));
}

#[test]
fn space_saving_rejects_zero_capacity() {
    assert!(matches!(SpaceSaving::new(0), Err(AnalysisError::InvalidCapacity)));
}

#[test]
fn space_saving_increments_tracked_key() {
    let mut s = SpaceSaving::new(3).unwrap();
    s.insert(vec![Some(1)]);
    s.insert(vec![Some(1)]);
    s.insert(vec![Some(2)]);
    let c = s.get_counts();
    assert_eq!(c.len(), 2);
    assert_eq!((c[0].key.clone(), c[0].count, c[0].error), (vec![Some(1)], 2, 0));
    assert_eq!((c[1].key.clone(), c[1].count, c[1].error), (vec![Some(2)], 1, 0));
    assert_eq!(s.inserted(), 3);
}

#[test]
fn space_saving_evicts_minimum_count() {
    let mut s = SpaceSaving::new(2).unwrap();
    s.insert(vec![Some(1)]);
    s.insert(vec![Some(1)]);
    s.insert(vec![Some(2)]);
    s.insert(vec![Some(3)]);
    let c = s.get_counts();
    assert_eq!(c.len(), 2);
    assert_eq!((c[0].key.clone(), c[0].count, c[0].error), (vec![Some(1)], 2, 0));
    assert_eq!((c[1].key.clone(), c[1].count, c[1].error), (vec![Some(3)], 2, 1));
}

#[test]
fn space_saving_breaks_ties_by_key_order() {
    let mut s = SpaceSaving::new(2).unwrap();
    s.insert(vec![Some(5)]);
    s.insert(vec![Some(3)]);
    s.insert(vec![Some(9)]);
    let c = s.get_counts();
    assert_eq!(c.len(), 2);
    assert_eq!(c[0].key, vec![Some(5)]);
    assert_eq!((c[1].key.clone(), c[1].count, c[1].error), (vec![Some(9)], 2, 1));
}

#[test]
fn space_saving_bounds_hold_on_a_stream() {
    let stream: Vec<u64> = vec![1, 2, 3, 1, 4, 1, 5, 2, 6, 1, 7, 2, 8, 3, 1, 9, 9, 9, 2, 1];
    let mut s = SpaceSaving::new(3).unwrap();
    for k in stream.iter() {
        s.insert(vec![Some(*k)]);
        assert!(s.len() <= 3);
    }
    for c in s.get_counts().iter() {
        let key = c.key[0].unwrap();
        let truth = stream.iter().filter(|k| **k == key).count() as u64;
        assert!(c.error <= c.count);
        assert!(c.count - c.error <= truth);
        assert!(truth <= c.count);
    }
}

#[test]
fn space_saving_is_exact_within_capacity() {
    let stream: Vec<u64> = vec![4, 1, 4, 2, 4, 1, 3];
    let mut s = SpaceSaving::new(4).unwrap();
    for k in stream.iter() {
        s.insert(vec![Some(*k)]);
    }
    let c = s.get_counts();
    assert_eq!(c.len(), 4);
    for e in c.iter() {
        let key = e.key[0].unwrap();
        assert_eq!(e.count, stream.iter().filter(|k| **k == key).count() as u64);
        assert_eq!(e.error, 0);
    }
}

#[test]
fn space_saving_capacity_is_never_exceeded() {
    let mut s = SpaceSaving::new(5).unwrap();
    for k in 0..100u64 {
        s.insert(vec![Some(k % 17), None]);
        assert!(s.len() <= s.capacity());
    }
    assert_eq!(s.len(), 5);
    assert_eq!(s.inserted(), 100);
}

#[test]
fn space_saving_table_uses_given_total() {
    let mut s = SpaceSaving::new(2).unwrap();
    s.insert(vec![Some(1)]);
    s.insert(vec![Some(2)]);
    let t = s.table(7);
    assert_eq!(t.len(), 2);
    assert!(t.iter().all(|e| e.total == 7 && e.count == 1));
}

#[test]
fn approximate_matches_exact_with_room() {
    let masks = standard_masks();
    let records = vec![vec![1, 2, 3, 4], vec![1, 5, 3, 6], vec![7, 2, 8, 4]];
    let exact = count_exact(&records, &masks).unwrap();
    let approx = count_approximate(&records, &masks, 700).unwrap();
    assert_eq!(exact.len(), approx.len());
    for e in exact.iter() {
        let a = row(&approx, &e.pattern).unwrap();
        assert_eq!((a.count, a.total), (e.count, e.total));
    }
}

#[test]
fn approximate_respects_capacity() {
    let masks = standard_masks();
    let records: Vec<Vec<u64>> = (0..20u64).map(|i| vec![i % 3, i % 5, i % 7, 1]).collect();
    let t = count_approximate(&records, &masks, 10).unwrap();
    assert!(t.len() <= 10);
    assert!(t.iter().all(|e| e.total == 20));
}

#[test]
fn approximate_rejects_zero_capacity_and_bad_width() {
    let masks = standard_masks();
    assert_eq!(count_approximate(&vec![vec![1, 2, 3]], &masks, 0).err(), Some(AnalysisError::InvalidCapacity));
    assert_eq!(count_approximate(&vec![vec![1, 2, 3]], &masks, 4).err(), Some(AnalysisError::InvalidWidth));
}

#[test]
fn split_drops_the_discriminating_field() {
    let records = vec![vec![1, 2, 50, 3, 4], vec![5, 6, 40, 7, 8], vec![9, 9, 30, 9, 9], vec![1, 1, 50, 1, 1], vec![1]];
    let (first, second) = split_populations(&records, 2, 50, 40);
    assert_eq!(first, vec![vec![1, 2, 3, 4], vec![1, 1, 1, 1]]);
    assert_eq!(second, vec![vec![5, 6, 7, 8]]);
}

#[test]
fn merging_shards_matches_counting_the_whole() {
    let masks = standard_masks();
    let records = vec![vec![1, 2, 3, 4], vec![1, 5, 3, 6], vec![7, 2, 8, 4], vec![1, 2, 9, 9]];
    let mut left = ExactCounter::new(masks.clone());
    let mut right = ExactCounter::new(masks.clone());
    for r in &records[..2] {
        left.add_record(r).unwrap();
    }
    for r in &records[2..] {
        right.add_record(r).unwrap();
    }
    left.merge(&right);
    assert_eq!(left.records(), 4);
    assert_eq!(left.emitted(), 56);
    let merged = left.table();
    let whole = count_exact(&records, &masks).unwrap();
    assert_eq!(merged.len(), whole.len());
    for e in whole.iter() {
        let m = row(&merged, &e.pattern).unwrap();
        assert_eq!((m.count, m.total), (e.count, e.total));
    }
    assert_eq!(row(&merged, &[Some(1), None, None, None]).unwrap().count, 3);
}

#[test]
fn approximate_table_size_and_sum_when_full() {
    let masks = standard_masks();
    let records: Vec<Vec<u64>> = (0..30u64).map(|i| vec![i % 4, i % 6, i % 9, i % 2]).collect();
    let exact = count_exact(&records, &masks).unwrap();
    assert!(exact.len() > 12);
    let t = count_approximate(&records, &masks, 12).unwrap();
    assert_eq!(t.len(), 12);
    let sum: u64 = t.iter().map(|e| e.count).sum();
    assert_eq!(sum, 30 * 14);
    for e in t.iter() {
        let truth = row(&exact, &e.pattern).map(|x| x.count).unwrap();
        assert!(truth >= 1 && truth <= e.count);
    }
    let smallest = t.iter().map(|e| e.count).min().unwrap();
    for x in exact.iter() {
        if row(&t, &x.pattern).is_none() {
            assert!(x.count <= smallest);
        }
    }
}

#[test]
fn approximate_table_has_one_row_per_pattern_below_capacity() {
    let masks = standard_masks();
    let records = vec![vec![1, 2, 3, 4]];
    let t = count_approximate(&records, &masks, 20).unwrap();
    assert_eq!(t.len(), 14);
    assert_eq!(t.iter().map(|e| e.count).sum::<u64>(), 14);
}
