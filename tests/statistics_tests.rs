use logoscope::correlation::{compute_correlations, cooccurrence_count};
use logoscope::param_extractor::{mask_and_extract, merge_params, extract_kv_params};
use logoscope::sequence::detect_sequence;
use logoscope::temporal::compute_gaps;

#[test]
fn computes_pairwise_correlation_in_window() {
    let a = vec![0i64, 60_000, 120_000];
    let b = vec![1_000i64, 61_000, 500_000];
    let out = compute_correlations(&vec![("A".to_string(), a), ("B".to_string(), b)], 5_000);
    assert_eq!(out.len(), 1);
    assert_eq!(out[0].a, "A");
    assert_eq!(out[0].b, "B");
    assert_eq!(out[0].count, 2);
    assert_eq!(out[0].union, 4);
}

#[test]
fn cooccurrence_uses_each_event_once() {
    assert_eq!(cooccurrence_count(&vec![0, 1, 2], &vec![1], 5), 1);
    assert_eq!(cooccurrence_count(&vec![], &vec![1], 5), 0);
    assert_eq!(cooccurrence_count(&vec![0, 100], &vec![50, 100], 0), 1);
}

#[test]
fn templates_without_events_are_not_paired() {
    let out = compute_correlations(&vec![("A".to_string(), vec![1]), ("B".to_string(), vec![]), ("C".to_string(), vec![1])], 0);
    assert_eq!(out.len(), 1);
    assert_eq!((out[0].a.as_str(), out[0].b.as_str()), ("A", "C"));
}

#[test]
fn detects_large_gaps() {
    let start: i64 = 1_704_067_200;
    let times = vec![start, start + 60, start + 120, start + 32 * 60, start + 33 * 60];
    let gaps = compute_gaps(&times, 10, 1);
    assert_eq!(gaps.len(), 1);
    let g = &gaps[0];
    assert_eq!(g.start_time, start + 120);
    assert_eq!(g.end_time, start + 32 * 60);
    assert!(g.duration_seconds >= 1800);
}

#[test]
fn gaps_need_two_times() {
    assert!(compute_gaps(&vec![5], 3, 1).is_empty());
}

fn hist(vals: &[i64]) -> Vec<(i64, usize)> {
    vals.iter().map(|v| (*v, 1usize)).collect()
}

#[test]
fn hundred_consecutive_integers_compact_fully() {
    let vals: Vec<i64> = (1..=100).collect();
    let d = detect_sequence(&hist(&vals), 7, 10).unwrap();
    assert_eq!((d.start, d.end, d.step), (1, 100, 1));
    assert_eq!(d.covered as u128, d.span);
    assert_eq!(d.count, 100);
}

#[test]
fn removing_an_interior_value_lowers_coverage_keeps_bounds() {
    let vals: Vec<i64> = (1..=100).filter(|v| *v != 50).collect();
    let d = detect_sequence(&hist(&vals), 7, 10).unwrap();
    assert_eq!((d.start, d.end, d.step), (1, 100, 1));
    assert!((d.covered as u128) < d.span);
    assert_eq!((d.covered, d.span), (99, 100));
}

#[test]
fn outliers_lower_coverage() {
    let d = detect_sequence(&hist(&[1, 2, 3, 4, 5, 42, 999]), 7, 10).unwrap();
    assert_eq!((d.start, d.end), (1, 5));
    assert_eq!((d.covered, d.span), (5, 7));
}

#[test]
fn scattered_values_are_not_compacted() {
    assert!(detect_sequence(&hist(&[1, 10, 100, 1000]), 7, 10).is_none());
    assert!(detect_sequence(&hist(&[4]), 7, 10).is_none());
}

#[test]
fn test_param_merging() {
    let masked = mask_and_extract("from 192.168.1.1");
    let kv = extract_kv_params(&vec![("ip".to_string(), "192.168.1.2".to_string()), ("IP".to_string(), "192.168.1.1".to_string())]);
    let merged = merge_params(masked.extracted_params, kv);
    assert_eq!(merged.get("IP").unwrap().len(), 2);
    assert!(merged.get("IP").unwrap().contains(&"192.168.1.1".to_string()));
    assert!(merged.get("IP").unwrap().contains(&"192.168.1.2".to_string()));
    assert_eq!(merged.get("IP").unwrap(), &vec!["192.168.1.1", "192.168.1.2"]);
}
