use logoscope::ai::{summarize_lines, summarize_lines_in_year, summarize_lines_with_baseline};
use logoscope::suggestions::{Command, Priority};
use logoscope::analyzers::ParamAnomalyKind;
use logoscope::correlation::compute_correlations;
use logoscope::registry::{rank_sort, top_entries};
use logoscope::sequence::detect_sequence;
use logoscope::temporal::bursts_from_buckets;

fn lines(v: &[&str]) -> Vec<String> {
    v.iter().map(|s| s.to_string()).collect()
}

#[test]
fn hundred_sequence_ids_compact_in_the_engine() {
    let input: Vec<String> = (500..600).map(|i| format!("processing item sequence_id={i}")).collect();
    let out = summarize_lines(&input);
    assert_eq!(out.patterns.len(), 1);
    let f = &out.findings[0];
    assert_eq!(f.sequences.len(), 1);
    let (name, d) = &f.sequences[0];
    assert_eq!(name, "SEQUENCE_ID");
    assert_eq!((d.start, d.end, d.step), (500, 599, 1));
    assert_eq!(d.covered as u128, d.span);
    assert_eq!(d.count, 100);
}

#[test]
fn parameter_stats_rank_values_by_count_then_value() {
    let input = lines(&["x=b", "x=a", "x=b", "x=c", "x=a", "x=b"]);
    let out = summarize_lines(&input);
    let (name, st) = &out.findings[0].param_stats[0];
    assert_eq!(name, "X");
    assert_eq!(st.total, 6);
    assert_eq!(st.cardinality, 3);
    let ranked: Vec<(&str, usize)> = st.values.iter().map(|v| (v.value.as_str(), v.count)).collect();
    assert_eq!(ranked, vec![("b", 3), ("a", 2), ("c", 1)]);
}

#[test]
fn engine_reports_parameter_concentration() {
    let mut input = Vec::new();
    for _ in 0..95 {
        input.push("code=ok".to_string());
    }
    for _ in 0..5 {
        input.push("code=bad".to_string());
    }
    let out = summarize_lines(&input);
    let anomalies = &out.findings[0].param_anomalies;
    assert!(anomalies.iter().any(|a| a.kind == ParamAnomalyKind::ValueConcentration && a.value == "ok"));
    assert!(anomalies.iter().any(|a| a.kind == ParamAnomalyKind::Outlier && a.value == "bad"));
}

#[test]
fn patterns_come_out_by_count_then_template() {
    let out = summarize_lines(&lines(&["b", "a", "c", "c", "b"]));
    let order: Vec<(&str, usize)> = out.patterns.iter().map(|p| (p.template.as_str(), p.total_count)).collect();
    assert_eq!(order, vec![("b", 2), ("c", 2), ("a", 1)]);
}

#[test]
fn top_sources_are_capped_at_five() {
    let mut input = Vec::new();
    for (i, h) in ["h1", "h2", "h3", "h4", "h5", "h6", "h7"].iter().enumerate() {
        for _ in 0..=i {
            input.push(format!("{{\"host\":\"{h}\",\"msg\":\"m\"}}"));
        }
    }
    let out = summarize_lines(&input);
    let top: Vec<(&str, usize)> = out.findings[0].top_hosts.iter().map(|(n, c)| (n.as_str(), *c)).collect();
    assert_eq!(top, vec![("h7", 7), ("h6", 6), ("h5", 5), ("h4", 4), ("h3", 3)]);
}

#[test]
fn engine_reports_bursts_per_template() {
    let mut input = Vec::new();
    for m in 0..6 {
        let n = if m == 3 { 6 } else { 1 };
        for s in 0..n {
            input.push(format!("2024-01-01T00:{:02}:{:02}Z tick", m, s));
        }
    }
    let out = summarize_lines_in_year(&input, 2024);
    assert_eq!(out.findings[0].bursts.len(), 1);
    assert_eq!(out.findings[0].bursts[0].peak_rate, 6);
}

#[test]
fn an_empty_minute_ends_a_burst() {
    let buckets = vec![(0i128, 1usize), (60, 9), (180, 9), (240, 1), (300, 1), (360, 1)];
    let bursts = bursts_from_buckets(&buckets, 60, 3, 1);
    assert_eq!(bursts.len(), 2);
    assert_eq!((bursts[0].start_time, bursts[0].end_time), (60, 60));
    assert_eq!((bursts[1].start_time, bursts[1].end_time), (180, 180));
    let joined = bursts_from_buckets(&vec![(0i128, 1usize), (60, 9), (120, 9), (180, 1), (240, 1)], 60, 3, 1);
    assert_eq!(joined.len(), 1);
    assert_eq!((joined[0].start_time, joined[0].end_time), (60, 120));
}

#[test]
fn correlations_sort_their_inputs() {
    let out = compute_correlations(&vec![("A".to_string(), vec![120_000, 0, 60_000]), ("B".to_string(), vec![61_000, 1_000])], 5_000);
    assert_eq!(out[0].count, 2);
    assert_eq!(out[0].union, 3);
}

#[test]
fn sequences_sort_and_merge_their_histogram() {
    let d = detect_sequence(&vec![(3, 1), (1, 1), (2, 1), (3, 2), (4, 1)], 7, 10).unwrap();
    assert_eq!((d.start, d.end, d.step, d.covered), (1, 4, 1, 4));
    assert_eq!(d.count, 6);
}

#[test]
fn ranking_and_top_entries() {
    let v = vec![("b".to_string(), 1usize), ("a".to_string(), 1), ("c".to_string(), 5)];
    let r = rank_sort(&v);
    assert_eq!(r, vec![("c".to_string(), 5), ("a".to_string(), 1), ("b".to_string(), 1)]);
    assert_eq!(top_entries(&v, 1), vec![("c".to_string(), 5)]);
}

#[test]
fn collects_malformed_json_errors_but_continues() {
    let input = lines(&[
        "{\"level\":\"info\",\"time\":\"2024-01-01T00:00:00Z\",\"msg\":\"ok\"}",
        "{ this is not valid json",
        "{",
        "INFO plain line without json",
    ]);
    let out = summarize_lines(&input);
    assert!(out.errors.total > 0, "expected errors to be reported");
    assert!(out.summary.total_lines >= 1);
    assert_eq!(out.errors.total, 2);
    let at: Vec<usize> = out.errors.samples.iter().map(|e| e.line_number).collect();
    assert_eq!(at, vec![2, 3]);
    assert_eq!(out.summary.total_lines, 4);
}

#[test]
fn error_positions_count_across_chunks_and_stop_at_ten() {
    let mut s = logoscope::ai::StreamingSummarizer::new();
    for _ in 0..3 {
        s.ingest_chunk(&lines(&["ok line", "{ broken", "{ broken", "[ broken", "fine"]));
    }
    let out = s.finalize();
    assert_eq!(out.errors.total, 9);
    let at: Vec<usize> = out.errors.samples.iter().map(|e| e.line_number).collect();
    assert_eq!(at, vec![2, 3, 4, 7, 8, 9, 12, 13, 14]);
    let mut t = logoscope::ai::StreamingSummarizer::new();
    t.ingest_chunk(&(0..12).map(|_| "{ bad".to_string()).collect());
    let out2 = t.finalize();
    assert_eq!(out2.errors.total, 10);
    assert_eq!(out2.errors.samples.len(), 10);
}

#[test]
fn suggestions_are_deduplicated_and_ordered_by_priority() {
    let mut input: Vec<String> = Vec::new();
    for m in 0..3 {
        for s in 0..(if m == 1 { 4 } else { 1 }) {
            input.push(format!("2024-01-01T00:{:02}:{:02}Z common", m, s));
        }
    }
    for _ in 0..10 {
        input.push("other line".to_string());
    }
    input.push("rare one".to_string());
    let out = summarize_lines_with_baseline(&input, &vec!["<TIMESTAMP> common".to_string()]);
    let sug: Vec<(Priority, Command, &str)> = out.suggestions.iter().map(|q| (q.priority, q.command, q.pattern.as_str())).collect();
    // busiest minute of the timestamped template; the rare template is both new (HIGH) and rare (LOW):
    // one query per key, the higher priority kept
    assert_eq!(sug, vec![
        (Priority::High, Command::LinesByTime, "<TIMESTAMP> common"),
        (Priority::High, Command::LinesByPattern, "other line"),
        (Priority::High, Command::LinesByPattern, "rare one"),
    ]);
    assert_eq!(out.suggestions[0].start, Some(1_704_067_260));
    let kinds: Vec<(&str, logoscope::anomaly::AnomalyKind)> = out.anomalies.iter().map(|a| (a.template.as_str(), a.kind)).collect();
    assert_eq!(kinds, vec![
        ("other line", logoscope::anomaly::AnomalyKind::NewPattern),
        ("rare one", logoscope::anomaly::AnomalyKind::NewPattern),
        ("rare one", logoscope::anomaly::AnomalyKind::RarePattern),
    ]);
}

#[test]
fn engine_reports_schema_changes_between_first_and_latest_record() {
    let input = lines(&[
        r#"{"user":{"id":"abc"},"status":1}"#,
        "plain line",
        r#"{"user":{"id":123},"status":"ok","retry_count":2}"#,
    ]);
    let out = summarize_lines(&input);
    assert_eq!(out.schema_changes.len(), 3);
    assert!(out.schema_changes.iter().any(|c| matches!(c,
        logoscope::schema::SchemaChange::TypeChanged { field, from_type, to_type }
        if field == "user.id" && from_type == "string" && to_type == "int")));
    assert!(out.schema_changes.iter().any(|c| matches!(c,
        logoscope::schema::SchemaChange::FieldAdded { field, .. } if field == "retry_count")));
    let plain = summarize_lines(&lines(&["a", "b"]));
    assert!(plain.schema_changes.is_empty());
}
