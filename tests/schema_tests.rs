use logoscope::schema::{diff_fingerprints, fingerprint_line, SchemaChange, SchemaError};
use logoscope::source::{extract_host_from_plaintext, extract_source};

fn get<'a>(fp: &'a [(String, String)], k: &str) -> Option<&'a String> {
    fp.iter().find(|(p, _)| p == k).map(|(_, t)| t)
}

#[test]
fn schema_fingerprint_basic_types() {
    let line = r#"{"level":"error","user":{"id":123,"name":"alice"},"status":"fail","active":true,"score":12.5,"tags":["a","b"]}"#;
    let fp = fingerprint_line(line).expect("fingerprint");
    assert_eq!(get(&fp, "level").unwrap(), "string");
    assert_eq!(get(&fp, "user.id").unwrap(), "int");
    assert_eq!(get(&fp, "user.name").unwrap(), "string");
    assert_eq!(get(&fp, "status").unwrap(), "string");
    assert_eq!(get(&fp, "active").unwrap(), "bool");
    assert_eq!(get(&fp, "score").unwrap(), "float");
    assert_eq!(get(&fp, "tags.0").unwrap(), "string");
}

#[test]
fn schema_diff_detects_changes() {
    let before = r#"{"user":{"id":"abc"},"status":1}"#;
    let after = r#"{"user":{"id":123},"status":"ok","retry_count":2}"#;
    let f_before = fingerprint_line(before).unwrap();
    let f_after = fingerprint_line(after).unwrap();
    let changes = diff_fingerprints(&f_before, &f_after);
    assert!(changes.iter().any(|c| matches!(c,
        SchemaChange::TypeChanged{ field, from_type, to_type }
        if field == "user.id" && from_type == "string" && to_type == "int")));
    assert!(changes.iter().any(|c| matches!(c,
        SchemaChange::FieldAdded{ field, new_type }
        if field == "retry_count" && new_type == "int")));
    assert!(!changes.iter().any(|c| matches!(c, SchemaChange::FieldRemoved{..})));
}

#[test]
fn fingerprint_errors() {
    assert_eq!(fingerprint_line("not json"), Err(SchemaError::Parse));
    assert_eq!(fingerprint_line("[1, 2]"), Err(SchemaError::NotJson));
}

#[test]
fn fingerprint_paths_are_sorted() {
    let fp = fingerprint_line(r#"{"b": null, "a": [true, {"c": 1.0}]}"#).unwrap();
    let paths: Vec<&str> = fp.iter().map(|(p, _)| p.as_str()).collect();
    assert_eq!(paths, vec!["a.0", "a.1.c", "b"]);
    assert_eq!(fp[1].1, "float");
    assert_eq!(fp[2].1, "null");
}

#[test]
fn extract_source_prefers_service_keys() {
    let fields = vec![
        ("app".to_string(), "api".to_string()),
        ("hostname".to_string(), "web-1".to_string()),
        ("service".to_string(), "billing".to_string()),
    ];
    let (svc, host) = extract_source(Some(&fields), "");
    assert_eq!(svc.as_deref(), Some("billing"));
    assert_eq!(host.as_deref(), Some("web-1"));
}

#[test]
fn syslog_lines_name_their_host() {
    assert_eq!(extract_host_from_plaintext("Sep 05 10:00:00 host-a app[1]: boom").as_deref(), Some("host-a"));
    assert_eq!(extract_host_from_plaintext("User 1 logged in from here"), None);
    let (svc, host) = extract_source(None, "Jan 1 00:00:01 db2 postgres: ok");
    assert_eq!(svc, None);
    assert_eq!(host.as_deref(), Some("db2"));
}
