use logoscope::multiline::MultiLineAggregator;
use logoscope::parser::{detect_timestamp_in_text, detect_timestamp_in_text_at, Timestamp};

#[test]
fn consolidates_stack_trace_into_single_entry() {
    let lines = vec![
        "Sep 05 10:00:00 host app[1]: java.lang.RuntimeException: boom",
        "\tat com.example.Main.method(Main.java:10)",
        "\tat com.example.Other.run(Other.java:20)",
        "Caused by: java.io.IOException: no disk",
        "\tat com.example.IO.read(IO.java:30)",
    ];
    let mut agg = MultiLineAggregator::default();
    let mut out = Vec::new();
    for l in &lines {
        if let Some(e) = agg.push(l) {
            out.push(e);
        }
    }
    if let Some(e) = agg.finish() {
        out.push(e);
    }
    assert_eq!(out.len(), 1);
    assert!(out[0].contains("RuntimeException"));
    assert!(out[0].contains("com.example.Main.method"));
    assert!(out[0].contains("Caused by"));
}

#[test]
fn consolidates_multiline_json() {
    let lines = vec!["{", "  \"level\": \"info\",", "  \"time\": \"2024-01-01T00:00:00Z\"", "}"];
    let mut agg = MultiLineAggregator::default();
    let mut out = Vec::new();
    for l in &lines {
        if let Some(e) = agg.push(l) {
            out.push(e);
        }
    }
    if let Some(e) = agg.finish() {
        out.push(e);
    }
    assert_eq!(out.len(), 1);
    assert!(out[0].contains("\"level\": \"info\""));
}

#[test]
fn new_timestamped_line_closes_the_record() {
    let mut agg = MultiLineAggregator::new();
    assert_eq!(agg.push("2024-01-01T00:00:00Z first"), None);
    assert_eq!(agg.push("  more of first"), None);
    assert_eq!(agg.push("2024-01-01T00:00:01Z second"), Some("2024-01-01T00:00:00Z first\n  more of first".to_string()));
    assert_eq!(agg.finish(), Some("2024-01-01T00:00:01Z second".to_string()));
    assert_eq!(agg.finish(), None);
}

#[test]
fn single_line_json_is_its_own_record() {
    let mut agg = MultiLineAggregator::new();
    assert_eq!(agg.push(r#"{"a": [1, 2]}"#), Some(r#"{"a": [1, 2]}"#.to_string()));
}

#[test]
fn detects_iso_timestamps_with_offsets() {
    let t = detect_timestamp_in_text("at 2024-12-09 14:30:45.999-0800 done").unwrap();
    assert_eq!(t, Timestamp { secs: 1733783445, nanos: 999_000_000 });
    let z = detect_timestamp_in_text("Server started at 2025-08-07T06:41:18.123456Z").unwrap();
    assert_eq!(z, Timestamp { secs: 1754548878, nanos: 123_456_000 });
}

#[test]
fn detects_epoch_numbers() {
    assert_eq!(detect_timestamp_in_text("ts=1700000000 ok"), Some(Timestamp { secs: 1700000000, nanos: 0 }));
    assert_eq!(detect_timestamp_in_text("ts=1700000000123 ok"), Some(Timestamp { secs: 1700000000, nanos: 123_000_000 }));
    assert_eq!(detect_timestamp_in_text("ts=1700000000123456 ok"), Some(Timestamp { secs: 1700000000, nanos: 123_456_000 }));
    assert_eq!(detect_timestamp_in_text("no time here"), None);
}

#[test]
fn syslog_stamps_take_the_given_year() {
    let t = detect_timestamp_in_text_at("Sep 05 14:20:00 host app: hi", 2024).unwrap();
    assert_eq!(t, Timestamp { secs: 1725546000, nanos: 0 });
}

#[test]
fn indented_json_start_opens_a_document() {
    let mut agg = MultiLineAggregator::new();
    assert_eq!(agg.push("   {"), None);
    assert_eq!(agg.push("}"), Some("   {\n}".to_string()));
}

#[test]
fn json_start_hands_out_pending_text_first() {
    let mut agg = MultiLineAggregator::new();
    assert_eq!(agg.push("x"), None);
    assert_eq!(agg.push("{"), Some("x".to_string()));
    assert_eq!(agg.push("}"), Some("{\n}".to_string()));
    assert_eq!(agg.finish(), None);
}

#[test]
fn one_line_json_after_pending_text_keeps_both() {
    let mut agg = MultiLineAggregator::new();
    assert_eq!(agg.push("plain text"), None);
    assert_eq!(agg.push(r#"{"a": 1}"#), Some("plain text".to_string()));
    assert_eq!(agg.push(r#"{"b": 2}"#), Some(r#"{"a": 1}"#.to_string()));
    assert_eq!(agg.push("more"), Some(r#"{"b": 2}"#.to_string()));
    assert_eq!(agg.finish(), Some("more".to_string()));
}
