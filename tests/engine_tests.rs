use logoscope::ai::{summarize_lines, summarize_lines_in_year, template_key, StreamingSummarizer};
use logoscope::timestamp::Timestamp;
use logoscope::temporal::{bucketize, compute_bursts, median_count};

fn lines(v: &[&str]) -> Vec<String> {
    v.iter().map(|s| s.to_string()).collect()
}

#[test]
fn end_to_end_json_lines_split_by_severity() {
    let input = lines(&[
        r#"{"level":"info","status":1}"#,
        r#"{"level":"info","status":2}"#,
        r#"{"level":"error","status":"fail"}"#,
    ]);
    let out = summarize_lines(&input);
    assert_eq!(out.summary.total_lines, 3);
    assert_eq!(out.summary.unique_patterns, 2);
    let info = out.patterns.iter().find(|p| p.template.ends_with("[info]")).unwrap();
    assert_eq!(info.total_count, 2);
    assert_eq!(info.template, "level = <LEVEL> status = <STATUS> [info]");
    let error = out.patterns.iter().find(|p| p.template.ends_with("[error]")).unwrap();
    assert_eq!(error.total_count, 1);
    // compression ratio total / unique is at least 1
    assert!(out.summary.total_lines >= out.summary.unique_patterns);
}

#[test]
fn streaming_matches_batch_for_any_chunking() {
    let all = lines(&[
        "User 1 logged in from 10.0.0.1",
        "User 2 logged in from 10.0.0.2",
        "Disk 90% full on /var/log/app",
        "2024-01-01T00:00:00Z ERROR job 7 failed",
        "User 3 logged in from 10.0.0.3",
        r#"{"level":"warn","msg":"slow"}"#,
        "Disk 91% full on /var/log/app",
    ]);
    let batch = summarize_lines(&all);
    for size in 1..=all.len() {
        let mut s = StreamingSummarizer::new();
        for chunk in all.chunks(size) {
            s.ingest_chunk(&chunk.to_vec());
        }
        let out = s.finalize();
        assert_eq!(out.summary.total_lines, batch.summary.total_lines);
        assert_eq!(out.summary.unique_patterns, batch.summary.unique_patterns);
        for (a, b) in out.patterns.iter().zip(batch.patterns.iter()) {
            assert_eq!(a.template, b.template);
            assert_eq!(a.total_count, b.total_count);
        }
    }
}

#[test]
fn plain_text_level_is_detected() {
    assert_eq!(template_key("job 7 failed with error 3"), "job <NUM> failed with error <NUM_2> [ERROR]");
    assert_eq!(template_key("all good"), "all good");
}

#[test]
fn host_does_not_split_templates() {
    let input = lines(&[
        r#"{"host":"a","level":"info","msg":"x"}"#,
        r#"{"host":"b","level":"info","msg":"y"}"#,
    ]);
    let out = summarize_lines(&input);
    assert_eq!(out.summary.unique_patterns, 1);
    assert_eq!(out.patterns[0].total_count, 2);
}

#[test]
fn detects_simple_burst_periods() {
    let start: i64 = 1_704_067_200; // 2024-01-01T00:00:00Z
    let mut times = Vec::new();
    for m in 0..20i64 {
        if (10..=11).contains(&m) {
            for s in 0..5i64 {
                times.push(start + m * 60 + s);
            }
        } else {
            times.push(start + m * 60);
        }
    }
    let bursts = compute_bursts(&times, 60, 3, 1);
    assert_eq!(bursts.len(), 1);
    let b = &bursts[0];
    assert_eq!(b.start_time, (start + 10 * 60) as i128);
    assert_eq!(b.end_time, (start + 11 * 60) as i128);
    assert_eq!(b.peak_rate, 5);
    assert!(b.peak_rate >= 5 * b.median);
}

#[test]
fn one_hot_minute_gives_one_burst_of_five() {
    let mut times = Vec::new();
    for m in 0..10i64 {
        let n = if m == 4 { 5 } else { 1 };
        for s in 0..n {
            times.push(m * 60 + s);
        }
    }
    let bursts = compute_bursts(&times, 60, 3, 1);
    assert_eq!(bursts.len(), 1);
    assert_eq!(bursts[0].peak_rate, 5);
    assert_eq!(bursts[0].median, 1);
    assert_eq!(bursts[0].start_time, 240);
    assert_eq!(bursts[0].end_time, 240);
}

#[test]
fn buckets_floor_negative_times() {
    let b = bucketize(&vec![-1, 0, 59, 60], 60);
    assert_eq!(b, vec![(-60, 1), (0, 2), (60, 1)]);
}

#[test]
fn median_of_even_count_rounds_down_and_is_at_least_one() {
    assert_eq!(median_count(&vec![4, 1, 3, 2]), 2);
    assert_eq!(median_count(&vec![0, 0, 0]), 1);
    assert_eq!(median_count(&vec![]), 0);
}

#[test]
fn parameter_histograms_count_values_per_template() {
    let input = lines(&[
        "job 7 done in 30s",
        "job 7 done in 40s",
        "job 9 done in 30s",
    ]);
    let out = summarize_lines(&input);
    assert_eq!(out.patterns.len(), 1);
    let p = &out.patterns[0];
    assert_eq!(p.template, "job <NUM> done in <NUM>s");
    assert_eq!(
        p.params,
        vec![
            ("NUM".to_string(), "7".to_string(), 2),
            ("NUM_S".to_string(), "30s".to_string(), 2),
            ("NUM_S".to_string(), "40s".to_string(), 1),
            ("NUM".to_string(), "9".to_string(), 1),
        ]
    );
}

#[test]
fn parameter_histograms_match_across_chunkings() {
    let all = lines(&["a 1 b 2", "a 1 b 3", "x=1 y=2", "x=5 y=2", "a 4 b 2"]);
    let batch = summarize_lines(&all);
    for size in 1..=all.len() {
        let mut s = StreamingSummarizer::new();
        for chunk in all.chunks(size) {
            s.ingest_chunk(&chunk.to_vec());
        }
        let out = s.finalize();
        for (a, b) in out.patterns.iter().zip(batch.patterns.iter()) {
            assert_eq!(a.params, b.params);
        }
    }
}

#[test]
fn keeps_the_first_three_examples_per_template() {
    let input = lines(&["n 1", "n 2", "other", "n 3", "n 4"]);
    let out = summarize_lines(&input);
    let p = out.patterns.iter().find(|p| p.template == "n <NUM>").unwrap();
    assert_eq!(p.total_count, 4);
    assert_eq!(p.examples, vec!["n 1", "n 2", "n 3"]);
    let mut s = StreamingSummarizer::new();
    s.ingest_chunk(&lines(&["n 1", "n 2"]));
    s.ingest_chunk(&lines(&["other", "n 3", "n 4"]));
    let streamed = s.finalize();
    assert_eq!(streamed.patterns[0].examples, vec!["n 1", "n 2", "n 3"]);
}

#[test]
fn summary_spans_first_to_last_timestamp() {


    let input = lines(&[
        "2024-01-01T00:00:05Z start",
        "no time",
        "2024-01-01T00:00:01Z earlier",
        "Jan 01 00:00:09 host app: late",
    ]);
    let out = summarize_lines_in_year(&input, 2024);
    assert_eq!(out.summary.start, Some(Timestamp { secs: 1704067201, nanos: 0 }));
    assert_eq!(out.summary.end, Some(Timestamp { secs: 1704067209, nanos: 0 }));
    let none = summarize_lines_in_year(&lines(&["a", "b"]), 2024);
    assert_eq!(none.summary.start, None);
    assert_eq!(none.summary.end, None);
}

#[test]
fn templates_keep_minute_buckets_of_their_lines() {
    let mut input = Vec::new();
    for m in 0..5 {
        let n = if m == 2 { 5 } else { 1 };
        for s in 0..n {
            input.push(format!("2024-01-01T00:{:02}:{:02}Z tick", m, s));
        }
    }
    let out = summarize_lines_in_year(&input, 2024);
    assert_eq!(out.patterns.len(), 1);
    let base: i128 = 1_704_067_200;
    assert_eq!(
        out.patterns[0].minute_buckets,
        vec![(base, 1), (base + 60, 1), (base + 120, 5), (base + 180, 1), (base + 240, 1)]
    );
    let bursts = logoscope::temporal::bursts_from_buckets(&out.patterns[0].minute_buckets, 60, 3, 1);
    assert_eq!(bursts.len(), 1);
    assert_eq!(bursts[0].peak_rate, 5);
}

#[test]
fn patterns_include_source_breakdown() {
    let input = lines(&[
        r#"{"level":"info","time":"2024-01-01T00:00:00Z","service":"auth","host":"h1","op":"A","status":"ok"}"#,
        r#"{"level":"info","time":"2024-01-01T00:01:00Z","service":"auth","host":"h2","op":"A","status":"ok"}"#,
        r#"{"level":"info","time":"2024-01-01T00:02:00Z","service":"billing","host":"h3","action":"B","result":"done"}"#,
    ]);
    let out = summarize_lines(&input);
    assert!(!out.patterns.is_empty(), "Should have patterns");
    let mut found_multi_source = false;
    for p in &out.patterns {
        if p.services.len() > 0 || p.hosts.len() > 0 {
            found_multi_source = true;
            for (name, count) in &p.services {
                assert!(!name.is_empty(), "Service name should not be empty");
                assert!(*count > 0, "Service count should be positive");
            }
            for (name, count) in &p.hosts {
                assert!(!name.is_empty(), "Host name should not be empty");
                assert!(*count > 0, "Host count should be positive");
            }
        }
    }
    assert!(found_multi_source, "Should have source attribution data");
    let auth = out.patterns.iter().find(|p| p.total_count == 2).unwrap();
    assert_eq!(auth.services, vec![("auth".to_string(), 2)]);
    assert_eq!(auth.hosts, vec![("h1".to_string(), 1), ("h2".to_string(), 1)]);
}

#[test]
fn builds_basic_ai_summary() {
    let input = lines(&[
        "{\"level\":\"error\",\"time\":\"2024-01-01T00:00:00Z\",\"msg\":\"db fail\"}",
        "{\"level\":\"info\",\"time\":\"2024-01-01T00:01:00Z\",\"msg\":\"ok\"}",
        "{\"level\":\"error\",\"time\":\"2024-01-01T00:02:00Z\",\"msg\":\"db fail\"}",
    ]);
    let out = summarize_lines(&input);
    assert_eq!(out.summary.total_lines, 3);
    assert!(out.summary.unique_patterns >= 1);
    // compression ratio total / unique is at least 1
    assert!(out.summary.total_lines >= out.summary.unique_patterns);
    assert_eq!(out.summary.start, Some(Timestamp { secs: 1704067200, nanos: 0 }));
    assert_eq!(out.summary.end, Some(Timestamp { secs: 1704067320, nanos: 0 }));
}

#[test]
fn multi_file_analysis_combines_timespan_and_counts() {
    let f1 = [
        r#"{"level":"info","time":"2024-01-01T00:00:00Z","op":"a"}"#,
        r#"{"level":"info","time":"2024-01-01T00:02:00Z","op":"a"}"#,
    ];
    let f2 = [
        r#"{"level":"error","time":"2024-01-01T00:01:00Z","op":"b"}"#,
        r#"{"level":"error","time":"2024-01-01T00:03:00Z","op":"b"}"#,
    ];
    let mut all: Vec<&str> = Vec::new();
    all.extend(f1.iter().copied());
    all.extend(f2.iter().copied());
    let out = summarize_lines(&lines(&all));
    assert_eq!(out.summary.total_lines, 4);
    assert_eq!(out.summary.start, Some(Timestamp { secs: 1704067200, nanos: 0 }));
    assert_eq!(out.summary.end, Some(Timestamp { secs: 1704067380, nanos: 0 }));
    assert!(out.patterns.len() >= 1, "Should have at least one pattern");
    // compression ratio total / unique above 1
    assert!(out.summary.total_lines > out.summary.unique_patterns);
}

fn consistency_logs() -> Vec<String> {
    vec![
        // Test 1: Multiple parameters needing disambiguation
        "2025-01-15T10:30:45.123+01:00 [INFO] api_call request_id=12345 user_ip=192.168.1.1 session_hex=deadbeef admin_ip=10.0.0.1 response_code=200".to_string(),
        "2025-01-15T10:30:46.456+01:00 [INFO] api_call request_id=12346 user_ip=192.168.1.2 session_hex=cafebabe admin_ip=10.0.0.1 response_code=404".to_string(),

        // Test 2: Sequence detection - incrementing IDs
        "2025-01-15T10:30:47.789+01:00 [DEBUG] sequence_processing sequence_id=100 batch_id=1001".to_string(),
        "2025-01-15T10:30:48.012+01:00 [DEBUG] sequence_processing sequence_id=101 batch_id=1002".to_string(),
        "2025-01-15T10:30:49.345+01:00 [DEBUG] sequence_processing sequence_id=102 batch_id=1003".to_string(),
        "2025-01-15T10:30:50.678+01:00 [DEBUG] sequence_processing sequence_id=103 batch_id=1004".to_string(),
        "2025-01-15T10:30:51.901+01:00 [DEBUG] sequence_processing sequence_id=104 batch_id=1005".to_string(),

        // Test 3: Enhanced path detection - complex service paths
        "2025-01-15T10:30:52.234+01:00 [WARN] service_call path=syncmanager//usync/scheduled-full/check status=timeout".to_string(),
        "2025-01-15T10:30:53.567+01:00 [ERROR] service_call path=dataservice//v1/users/profile/update status=failed".to_string(),
        "2025-01-15T10:30:54.890+01:00 [INFO] service_call path=auth//oauth/token/validate status=success".to_string(),

        // Test 4: Null value detection variations
        "2025-01-15T10:30:55.123+01:00 [INFO] null_handling user_id=(null) session_id=null token=[null] active=true".to_string(),
        "2025-01-15T10:30:56.456+01:00 [INFO] null_handling user_id=12345 session_id=(null) token=null active=false".to_string(),

        // Test 5: Mixed complex scenarios
        "2025-01-15T10:30:57.789+01:00 [ERROR] complex_scenario count=15 duration=2.5GB latency=150ms success_rate=95.5% error_path=service//internal/health".to_string(),
        "2025-01-15T10:30:58.012+01:00 [ERROR] complex_scenario count=16 duration=3.1GB latency=175ms success_rate=92.3% error_path=service//internal/metrics".to_string(),

        // Test 6: JSON log format
        r#"{"timestamp":"2025-01-15T10:30:59.345+01:00","level":"INFO","msg":"json_test","request_id":123,"user_ip":"192.168.1.100","path":"api//v2/data"}"#.to_string(),
        r#"{"timestamp":"2025-01-15T10:31:00.678+01:00","level":"INFO","msg":"json_test","request_id":124,"user_ip":"192.168.1.101","path":"api//v2/users"}"#.to_string(),
    ]
}

#[test]
fn test_chunked_vs_non_chunked_consistency() {
    let logs = consistency_logs();
    let non_chunked_result = summarize_lines_in_year(&logs, 2025);
    let mut streaming_engine = StreamingSummarizer::with_year(2025);
    streaming_engine.ingest_chunk(&logs);
    let chunked_result = streaming_engine.finalize();
    assert_eq!(non_chunked_result.summary.total_lines, chunked_result.summary.total_lines);
    assert_eq!(non_chunked_result.summary.unique_patterns, chunked_result.summary.unique_patterns);
    assert_eq!(non_chunked_result.patterns.len(), chunked_result.patterns.len());
    let total = non_chunked_result.summary.total_lines as f64;
    for (a, b) in non_chunked_result.patterns.iter().zip(chunked_result.patterns.iter()) {
        assert_eq!(a.template, b.template);
        assert_eq!(a.total_count, b.total_count);
        let fa = a.total_count as f64 / total;
        let fb = b.total_count as f64 / total;
        assert!((fa - fb).abs() < 0.001);
        assert_eq!(a.params, b.params);
    }
    // and with small chunks
    let mut small = StreamingSummarizer::with_year(2025);
    for chunk in logs.chunks(3) {
        small.ingest_chunk(&chunk.to_vec());
    }
    let small_result = small.finalize();
    assert_eq!(small_result.summary.unique_patterns, non_chunked_result.summary.unique_patterns);
    for (a, b) in non_chunked_result.patterns.iter().zip(small_result.patterns.iter()) {
        assert_eq!(a.template, b.template);
        assert_eq!(a.total_count, b.total_count);
        assert_eq!(a.params, b.params);
        assert_eq!(a.minute_buckets, b.minute_buckets);
        assert_eq!(a.examples, b.examples);
    }
}
