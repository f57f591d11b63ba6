use logoscope::anomaly::{detect_pattern_anomalies, AnomalyKind};
use logoscope::drain_adapter::{to_display_template, to_generic_template};
use logoscope::param_extractor::{extract_kv_params, prewarm_regexes};
use logoscope::parser::{detect_format, LogFormat};
use logoscope::schema::{diff_fingerprints, SchemaChange};
use logoscope::smart_masking::parse_http_request;

fn s(x: &str) -> String {
    x.to_string()
}

#[test]
fn detects_new_and_rare_patterns() {
    let counts = vec![(s("A"), 990usize), (s("B"), 10usize)];
    let total = 1000usize;
    let baseline = vec![s("A")];
    // 2%
    let anomalies = detect_pattern_anomalies(&counts, total, &baseline, 2, 100);
    assert!(anomalies.iter().any(|a| matches!(a.kind, AnomalyKind::NewPattern) && a.template == "B"));
    assert!(anomalies.iter().any(|a| matches!(a.kind, AnomalyKind::RarePattern) && a.template == "B"));
    assert!(!anomalies.iter().any(|a| a.template == "A"));
}

#[test]
fn empty_baseline_marks_nothing_new() {
    let counts = vec![(s("A"), 5usize), (s("B"), 5usize)];
    let anomalies = detect_pattern_anomalies(&counts, 10, &Vec::new(), 1, 10);
    assert!(anomalies.is_empty());
}

#[test]
fn nothing_is_flagged_without_lines() {
    let counts = vec![(s("A"), 0usize)];
    assert!(detect_pattern_anomalies(&counts, 0, &vec![s("B")], 1, 10).is_empty());
}

#[test]
fn schema_diff_on_given_fingerprints() {
    let before = vec![(s("status"), s("int")), (s("user.id"), s("string"))];
    let after = vec![(s("retry_count"), s("int")), (s("status"), s("string")), (s("user.id"), s("int"))];
    let changes = diff_fingerprints(&before, &after);
    assert!(changes.iter().any(|c| matches!(c,
        SchemaChange::TypeChanged{ field, from_type, to_type }
        if field == "user.id" && from_type == "string" && to_type == "int")));
    assert!(changes.iter().any(|c| matches!(c,
        SchemaChange::FieldAdded{ field, new_type }
        if field == "retry_count" && new_type == "int")));
    assert!(!changes.iter().any(|c| matches!(c, SchemaChange::FieldRemoved{..})));
}

#[test]
fn schema_diff_reports_removed_fields_first() {
    let before = vec![(s("a"), s("int")), (s("b"), s("bool"))];
    let after = vec![(s("c"), s("string"))];
    let changes = diff_fingerprints(&before, &after);
    assert_eq!(changes.len(), 3);
    assert_eq!(changes[0], SchemaChange::FieldRemoved { field: s("a"), old_type: s("int") });
    assert_eq!(changes[1], SchemaChange::FieldRemoved { field: s("b"), old_type: s("bool") });
    assert_eq!(changes[2], SchemaChange::FieldAdded { field: s("c"), new_type: s("string") });
}

#[test]
fn test_http_request_parsing() {
    let (method, path, version) = parse_http_request("GET /api/v1/users HTTP/1.1");
    assert_eq!(method, "GET");
    assert_eq!(path, "/api/v1/users");
    assert_eq!(version, "HTTP/1.1");

    let (method, path, version) = parse_http_request("POST /submit?id=123&type=data HTTP/2.0");
    assert_eq!(method, "POST");
    assert_eq!(path, "/submit?id=123&type=data");
    assert_eq!(version, "HTTP/2.0");

    let (method, path, version) = parse_http_request("INVALID");
    assert_eq!(method, "INVALID");
    assert_eq!(path, "/");
    assert_eq!(version, "HTTP/1.0");

    let (method, path, version) = parse_http_request("");
    assert_eq!(method, "UNKNOWN");
    assert_eq!(path, "/");
    assert_eq!(version, "HTTP/1.0");
}

#[test]
fn test_kv_param_extraction() {
    let fields = vec![
        (s("client_ip"), s("192.168.1.99")),
        (s("status_code"), s("401")),
        (s("user_id"), s("admin")),
    ];
    let params = extract_kv_params(&fields);
    assert_eq!(params.get("CLIENT_IP").unwrap(), &vec!["192.168.1.99"]);
    assert_eq!(params.get("USER_ID").unwrap(), &vec!["admin"]);
    assert_eq!(params.get("STATUS_CODE").unwrap(), &vec!["401"]);
}

#[test]
fn kv_params_leave_source_fields_out() {
    let fields = vec![(s("host"), s("web-1")), (s("kubernetes.pod"), s("p")), (s("req.id"), s("7"))];
    let params = extract_kv_params(&fields);
    assert_eq!(params.len(), 1);
    assert_eq!(params.get("REQ_ID").unwrap(), &vec!["7"]);
}

#[test]
fn all_patterns_compile() {
    assert!(prewarm_regexes());
}

#[test]
fn generic_template_replaces_every_placeholder() {
    assert_eq!(to_generic_template("user = <USER> took <NUM_MS>"), "user = <*> took <*>");
    assert_eq!(to_display_template("a = <A>", "a=1"), "a = <A>");
}

#[test]
fn detects_json_lines() {
    assert_eq!(detect_format(r#"{"a": 1}"#), LogFormat::Json);
    assert_eq!(detect_format("plain text"), LogFormat::Plaintext);
}
