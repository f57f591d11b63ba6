use logoscope::analyzers::{analyze_parameters, ParamAnomalyKind, ParamFieldStats, ParamValueCount};

fn stats(total: usize, values: &[(&str, usize)]) -> ParamFieldStats {
    ParamFieldStats {
        total,
        cardinality: values.len(),
        values: values.iter().map(|(v, c)| ParamValueCount { value: v.to_string(), count: *c }).collect(),
    }
}

#[test]
fn test_anomaly_detection_with_numbered_parameters() {
    let param_stats = vec![
        ("NUM".to_string(), stats(100, &[("42", 50), ("100", 30), ("200", 15), ("999", 3), ("1", 2)])),
        ("NUM_2".to_string(), stats(100, &[("8", 90), ("9", 8), ("10", 2)])),
    ];
    let anomalies = analyze_parameters(100, &param_stats);
    let found_concentration = anomalies.iter().any(|a| a.param == "NUM_2" && a.kind == ParamAnomalyKind::ValueConcentration);
    assert!(found_concentration, "Should detect value concentration in NUM_2");
    let outliers: Vec<&str> = anomalies
        .iter()
        .filter(|a| a.param == "NUM_2" && a.kind == ParamAnomalyKind::Outlier)
        .map(|a| a.value.as_str())
        .collect();
    assert_eq!(outliers, vec!["9", "10"]);
    assert!(!anomalies.iter().any(|a| a.param == "NUM"));
}

#[test]
fn single_ip_over_many_lines_is_a_security_alert() {
    let anomalies = analyze_parameters(150, &vec![("IP".to_string(), stats(150, &[("10.0.0.1", 150)]))]);
    assert_eq!(anomalies.len(), 1);
    assert_eq!(anomalies[0].kind, ParamAnomalyKind::SecurityAlert);
    assert_eq!(anomalies[0].value, "10.0.0.1");
    assert_eq!(anomalies[0].count, Some(150));
}

#[test]
fn few_distinct_values_over_many_lines() {
    let anomalies = analyze_parameters(200, &vec![("CODE".to_string(), stats(200, &[("a", 120), ("b", 80)]))]);
    assert_eq!(anomalies.len(), 1);
    assert_eq!(anomalies[0].kind, ParamAnomalyKind::LowCardinality);
    assert_eq!(anomalies[0].value, "2 unique values");
}

#[test]
fn time_parameters_are_not_analyzed() {
    let anomalies = analyze_parameters(100, &vec![("TIMESTAMP_2".to_string(), stats(100, &[("t", 95), ("u", 5)]))]);
    assert!(anomalies.is_empty());
}

#[test]
fn imbalanced_histogram_flags_rare_values() {
    let anomalies = analyze_parameters(
        40,
        &vec![("USER".to_string(), stats(40, &[("a", 30), ("b", 8), ("c", 1), ("d", 1)]))],
    );
    let rare: Vec<&str> = anomalies.iter().filter(|a| a.kind == ParamAnomalyKind::Outlier).map(|a| a.value.as_str()).collect();
    assert_eq!(rare, vec!["c", "d"]);
}
