use logoscope::param_extractor::{self, canonicalize_for_drain, canonicalize_kv_structure, has_kv_pairs};

#[test]
fn test_json_canonicalization() {
    let json_log1 = r#"{"api_id": "abc123", "api_name": "Test-A", "level": "debug", "msg": "Init", "mw": "KeyExpired", "org_id": "org456"}"#;
    let json_log2 = r#"{"api_id": "def789", "api_name": "Test-B", "level": "info", "msg": "Init", "mw": "JWTMiddleware", "org_id": "org789"}"#;
    let result1 = canonicalize_for_drain(json_log1);
    let result2 = canonicalize_for_drain(json_log2);
    assert_eq!(result1.masked_text, result2.masked_text);
    assert!(result1.masked_text.contains("api_id = <API_ID>"));
    assert!(result1.masked_text.contains("api_name = <API_NAME>"));
    assert!(result1.masked_text.contains("level = <LEVEL>"));
    assert!(result1.masked_text.contains("msg = <MSG>"));
    assert!(result1.masked_text.contains("mw = <MW>"));
    assert!(result1.masked_text.contains("org_id = <ORG_ID>"));
    assert_eq!(result1.extracted_params.get("API_ID").unwrap(), &vec!["abc123"]);
    assert_eq!(result2.extracted_params.get("API_ID").unwrap(), &vec!["def789"]);
}

#[test]
fn test_kv_canonicalization() {
    let kv_log1 = "api_id=abc123 api_name=Test-A level=debug msg=Init mw=KeyExpired org_id=org456";
    let kv_log2 = "api_id=def789 api_name=Test-B level=info msg=Init mw=JWTMiddleware org_id=org789";
    let result1 = canonicalize_for_drain(kv_log1);
    let result2 = canonicalize_for_drain(kv_log2);
    assert_eq!(result1.masked_text, result2.masked_text);
    assert!(result1.masked_text.contains("api_id = <API_ID>"));
    assert!(result1.masked_text.contains("api_name = <API_NAME>"));
    assert_eq!(result1.extracted_params.get("API_ID").unwrap(), &vec!["abc123"]);
    assert_eq!(result2.extracted_params.get("API_ID").unwrap(), &vec!["def789"]);
}

#[test]
fn test_unstructured_fallback() {
    let unstructured = "Error connecting to database at 192.168.1.1:5432 with timeout 30s";
    let result = canonicalize_for_drain(unstructured);
    assert!(result.masked_text.contains("<IP>"));
    assert!(result.masked_text.contains("<NUM>s"));
    assert!(result.extracted_params.contains_key("IP"));
    assert!(result.extracted_params.contains_key("NUM_S"));
}

#[test]
fn test_json_flattening() {
    let nested_json = r#"{"level": "info", "service": {"name": "api", "version": "1.0"}, "metrics": {"cpu": 75.5}}"#;
    let result = param_extractor::try_flatten_json(nested_json);
    assert!(result.is_some());
    let flattened = result.unwrap();
    let get = |k: &str| flattened.iter().find(|(p, _)| p == k).map(|(_, v)| v.clone()).unwrap();
    assert_eq!(get("level"), "info");
    assert_eq!(get("service.name"), "api");
    assert_eq!(get("service.version"), "1.0");
    assert_eq!(get("metrics.cpu"), "75.5");
}

#[test]
fn json_fields_come_out_sorted_with_arrays_by_length() {
    let fields = param_extractor::try_flatten_json(r#"{"b": [1, 2, 3], "a": {"z": null, "y": true}}"#).unwrap();
    let paths: Vec<&str> = fields.iter().map(|(p, _)| p.as_str()).collect();
    assert_eq!(paths, vec!["a.y", "a.z", "b"]);
    assert_eq!(fields[0].1, "true");
    assert_eq!(fields[1].1, "null");
    assert_eq!(fields[2].1, "array[3]");
}

#[test]
fn non_object_json_is_not_flattened() {
    assert!(param_extractor::try_flatten_json("[1, 2]").is_none());
    assert!(param_extractor::try_flatten_json("not json").is_none());
}

#[test]
fn source_fields_do_not_change_the_template() {
    let a = canonicalize_for_drain(r#"{"host": "web-1", "level": "info", "status": 200}"#);
    let b = canonicalize_for_drain(r#"{"host": "web-2", "level": "info", "status": 200}"#);
    assert_eq!(a.masked_text, b.masked_text);
    assert_eq!(a.masked_text, "level = <LEVEL> status = <STATUS>");
    assert!(!a.extracted_params.contains_key("HOST"));
}

#[test]
fn kv_rewrites_pairs_and_keeps_source_fields() {
    let r = canonicalize_kv_structure("user=bob, host=web-1 took-time=5, ok");
    assert_eq!(r.masked_text, "user = <USER>, host=web-1 took-time = <TIME>, ok");
    assert_eq!(r.extracted_params.get("USER").unwrap(), &vec!["bob"]);
}

#[test]
fn kv_detection_needs_a_word_before_equals() {
    assert!(has_kv_pairs("a=1"));
    assert!(!has_kv_pairs("=1"));
    assert!(!has_kv_pairs("a = 1"));
    assert!(!has_kv_pairs("no pairs"));
}

#[test]
fn canonicalization_is_repeatable() {
    let line = "job 12 finished in 30s on 10.0.0.7";
    let a = canonicalize_for_drain(line);
    let b = canonicalize_for_drain(line);
    assert_eq!(a.masked_text, b.masked_text);
    assert_eq!(a.extracted_params.keys(), b.extracted_params.keys());
}

#[test]
fn json_lines_with_surrounding_space_are_still_json() {
    let r = canonicalize_for_drain("   {\"level\": \"info\"}  ");
    assert_eq!(r.masked_text, "level = <LEVEL>");
}
