use logoscope::param_extractor::mask_and_extract;

#[test]
fn test_ip_masking_and_extraction() {
    let input = "User 192.168.1.99 failed login at 2024-01-01T14:20:01Z";
    let result = mask_and_extract(input);
    assert_eq!(result.masked_text, "User <IP> failed login at <TIMESTAMP>");
    assert!(result.extracted_params.contains_key("IP"));
    assert!(result.extracted_params.contains_key("TIMESTAMP"));
    assert_eq!(result.extracted_params.get("IP").unwrap(), &vec!["192.168.1.99"]);
    assert_eq!(result.extracted_params.get("TIMESTAMP").unwrap(), &vec!["2024-01-01T14:20:01Z"]);
}

#[test]
fn test_overlapping_patterns_priority() {
    let input = "Connection from 10.0.0.1 port 8080";
    let result = mask_and_extract(input);
    assert_eq!(result.masked_text, "Connection from <IP> port <NUM>");
    assert_eq!(result.extracted_params.get("IP").unwrap(), &vec!["10.0.0.1"]);
    assert_eq!(result.extracted_params.get("NUM").unwrap(), &vec!["8080"]);
}

#[test]
fn test_timestamp_priority() {
    let input = "Event at 2024-01-01T14:20:01Z with code 42";
    let result = mask_and_extract(input);
    assert_eq!(result.masked_text, "Event at <TIMESTAMP> with code <NUM>");
    assert_eq!(result.extracted_params.get("TIMESTAMP").unwrap(), &vec!["2024-01-01T14:20:01Z"]);
    assert_eq!(result.extracted_params.get("NUM").unwrap(), &vec!["42"]);
}

#[test]
fn test_multiple_ips() {
    let input = "Transfer from 192.168.1.1 to 192.168.1.2";
    let result = mask_and_extract(input);
    assert_eq!(result.masked_text, "Transfer from <IP> to <IP>");
    assert!(result.extracted_params.get("IP").unwrap().contains(&"192.168.1.1".to_string()));
    assert!(result.extracted_params.get("IP").unwrap().contains(&"192.168.1.2".to_string()));
}

#[test]
fn test_number_with_units() {
    let input = "Response time 150ms, size 2048KB";
    let result = mask_and_extract(input);
    assert_eq!(result.masked_text, "Response time <NUM>ms, size <NUM>KB");
    assert!(result.extracted_params.contains_key("NUM_MS"));
    assert!(result.extracted_params.contains_key("NUM_KB"));
}

#[test]
fn mask_and_extract_keeps_values_in_order_under_one_type() {
    let result = mask_and_extract("x 1 y 2 z 3");
    assert_eq!(result.masked_text, "x <NUM> y <NUM> z <NUM>");
    assert_eq!(result.extracted_params.get("NUM").unwrap(), &vec!["1", "2", "3"]);
    assert_eq!(result.extracted_params.len(), 1);
}

#[test]
fn mask_and_extract_leaves_plain_text_alone() {
    let result = mask_and_extract("nothing to see here");
    assert_eq!(result.masked_text, "nothing to see here");
    assert!(result.extracted_params.is_empty());
}
