use logoscope::analyzers::get_base_param_type;
use logoscope::extract::Cand;
use logoscope::param_extractor::{canonicalize_for_drain, mask_and_extract_with_disambiguation, mask_candidates};

#[test]
fn test_multiple_num_parameter_disambiguation() {
    let input = "Processing 42 items with priority 8 and timeout 300";
    let result = mask_and_extract_with_disambiguation(input);
    assert_eq!(result.masked_text, "Processing <NUM> items with priority <NUM_2> and timeout <NUM_3>");
    assert!(result.extracted_params.contains_key("NUM"));
    assert!(result.extracted_params.contains_key("NUM_2"));
    assert!(result.extracted_params.contains_key("NUM_3"));
    assert_eq!(result.extracted_params.get("NUM").unwrap(), &vec!["42"]);
    assert_eq!(result.extracted_params.get("NUM_2").unwrap(), &vec!["8"]);
    assert_eq!(result.extracted_params.get("NUM_3").unwrap(), &vec!["300"]);
}

#[test]
fn test_multiple_ip_parameter_disambiguation() {
    let input = "Transfer from 192.168.1.1 to 192.168.1.2 via 192.168.1.100";
    let result = mask_and_extract_with_disambiguation(input);
    assert_eq!(result.masked_text, "Transfer from <IP> to <IP_2> via <IP_3>");
    assert_eq!(result.extracted_params.get("IP").unwrap(), &vec!["192.168.1.1"]);
    assert_eq!(result.extracted_params.get("IP_2").unwrap(), &vec!["192.168.1.2"]);
    assert_eq!(result.extracted_params.get("IP_3").unwrap(), &vec!["192.168.1.100"]);
}

#[test]
fn test_mixed_parameter_disambiguation() {
    let input = "Connection from 10.0.0.1:8080 to 10.0.0.2:9090 took 150ms and processed 42 items";
    let result = mask_and_extract_with_disambiguation(input);
    assert_eq!(
        result.masked_text,
        "Connection from <IP>:<NUM> to <IP_2>:<NUM_2> took <NUM>ms and processed <NUM_3> items"
    );
    assert_eq!(result.extracted_params.get("IP").unwrap(), &vec!["10.0.0.1"]);
    assert_eq!(result.extracted_params.get("IP_2").unwrap(), &vec!["10.0.0.2"]);
    assert_eq!(result.extracted_params.get("NUM_MS").unwrap(), &vec!["150ms"]);
    assert_eq!(result.extracted_params.get("NUM").unwrap(), &vec!["8080"]);
    assert_eq!(result.extracted_params.get("NUM_2").unwrap(), &vec!["9090"]);
    assert_eq!(result.extracted_params.get("NUM_3").unwrap(), &vec!["42"]);
}

#[test]
fn test_single_parameter_unchanged() {
    let input = "Processing 42 items";
    let result = mask_and_extract_with_disambiguation(input);
    assert_eq!(result.masked_text, "Processing <NUM> items");
    assert_eq!(result.extracted_params.get("NUM").unwrap(), &vec!["42"]);
    assert!(!result.extracted_params.contains_key("NUM_2"));
}

#[test]
fn test_backward_compatibility() {
    let input = "User 192.168.1.99 failed login at 2024-01-01T14:20:01Z";
    let result = mask_and_extract_with_disambiguation(input);
    assert_eq!(result.masked_text, "User <IP> failed login at <TIMESTAMP>");
    assert_eq!(result.extracted_params.get("IP").unwrap(), &vec!["192.168.1.99"]);
    assert_eq!(result.extracted_params.get("TIMESTAMP").unwrap(), &vec!["2024-01-01T14:20:01Z"]);
}

#[test]
fn test_canonicalization_uses_disambiguation() {
    let input = "Processing 42 items with priority 8 and timeout 300";
    let result = canonicalize_for_drain(input);
    assert_eq!(result.masked_text, "Processing <NUM> items with priority <NUM_2> and timeout <NUM_3>");
    assert_eq!(result.extracted_params.get("NUM").unwrap(), &vec!["42"]);
    assert_eq!(result.extracted_params.get("NUM_2").unwrap(), &vec!["8"]);
    assert_eq!(result.extracted_params.get("NUM_3").unwrap(), &vec!["300"]);
}

#[test]
fn test_base_param_type_helper() {
    assert_eq!(get_base_param_type("NUM"), "NUM");
    assert_eq!(get_base_param_type("NUM_2"), "NUM");
    assert_eq!(get_base_param_type("NUM_10"), "NUM");
    assert_eq!(get_base_param_type("IP_3"), "IP");
    assert_eq!(get_base_param_type("HEX_4"), "HEX");
    assert_eq!(get_base_param_type("NUM_MS"), "NUM_MS");
    assert_eq!(get_base_param_type("TIMESTAMP"), "TIMESTAMP");
    assert_eq!(get_base_param_type("USER_ID"), "USER_ID");
}

#[test]
fn test_complex_real_world_example() {
    let input = "2024-01-15T10:30:45.123Z [INFO] API request from 192.168.1.100:8080 to endpoint /api/v1/users/42 returned status 200 in 150ms, processed 25 records, cache hit ratio 85%";
    let result = mask_and_extract_with_disambiguation(input);
    let expected_template = "<TIMESTAMP> [INFO] API request from <IP>:<NUM> to endpoint <PATH> returned status <NUM_2> in <NUM>ms, processed <NUM_3> records, cache hit ratio <NUM>%";
    assert_eq!(result.masked_text, expected_template);
    assert_eq!(result.extracted_params.get("TIMESTAMP").unwrap(), &vec!["2024-01-15T10:30:45.123Z"]);
    assert_eq!(result.extracted_params.get("IP").unwrap(), &vec!["192.168.1.100"]);
    assert_eq!(result.extracted_params.get("PATH").unwrap(), &vec!["/api/v1/users/42"]);
    assert_eq!(result.extracted_params.get("NUM").unwrap(), &vec!["8080"]);
    assert_eq!(result.extracted_params.get("NUM_2").unwrap(), &vec!["200"]);
    assert_eq!(result.extracted_params.get("NUM_3").unwrap(), &vec!["25"]);
    assert_eq!(result.extracted_params.get("NUM_MS").unwrap(), &vec!["150ms"]);
    assert_eq!(result.extracted_params.get("NUM_%").unwrap(), &vec!["85%"]);
}

#[test]
fn test_direct_disambiguation_function() {
    let test_cases = vec![
        "Processing 42 items and 42 more items for total 42 results",
        "IP 192.168.1.1 connected to 192.168.1.1 forwarding to 192.168.1.1",
        "Request 1234567890abcdef1234 handled by 1234567890abcdef1234 forwarding to 1234567890abcdef1234",
    ];
    for (i, input) in test_cases.iter().enumerate() {
        let result = mask_and_extract_with_disambiguation(input);
        let num_2_count = result.masked_text.matches("<NUM_2>").count();
        let num_3_count = result.masked_text.matches("<NUM_3>").count();
        let ip_2_count = result.masked_text.matches("<IP_2>").count();
        let ip_3_count = result.masked_text.matches("<IP_3>").count();
        let hex_2_count = result.masked_text.matches("<HEX_2>").count();
        let hex_3_count = result.masked_text.matches("<HEX_3>").count();
        if i == 0 {
            assert!(num_2_count > 0 || num_3_count > 0, "Expected positional disambiguation for identical numbers, got: {}", result.masked_text);
        }
        if i == 1 {
            assert!(ip_2_count > 0 || ip_3_count > 0, "Expected positional disambiguation for identical IPs, got: {}", result.masked_text);
        }
        if i == 2 {
            assert!(hex_2_count > 0 || hex_3_count > 0, "Expected positional disambiguation for identical hex values, got: {}", result.masked_text);
        }
    }
}

#[test]
fn debug_percentage_parsing() {
    let input = "cache hit ratio 85%";
    let result = mask_and_extract_with_disambiguation(input);
    assert!(result.extracted_params.contains_key("NUM_%"));
}

#[test]
fn numbered_placeholders_substitute_back_to_the_line() {
    let input = "x 7 y 8 z 9";
    let result = mask_and_extract_with_disambiguation(input);
    assert_eq!(result.masked_text, "x <NUM> y <NUM_2> z <NUM_3>");
    let mut back = result.masked_text.clone();
    for key in ["NUM", "NUM_2", "NUM_3"] {
        let v = &result.extracted_params.get(key).unwrap()[0];
        back = back.replacen(&format!("<{}>", key), v, 1);
    }
    assert_eq!(back, input);
}

#[test]
fn unit_types_are_not_numbered() {
    let result = mask_and_extract_with_disambiguation("took 5ms then 7ms");
    assert_eq!(result.masked_text, "took <NUM>ms then <NUM>ms");
    assert_eq!(result.extracted_params.get("NUM_MS").unwrap(), &vec!["5ms", "7ms"]);
}

#[test]
fn base_type_keeps_trailing_underscore_rule() {
    assert_eq!(get_base_param_type("NUM_"), "NUM");
    assert_eq!(get_base_param_type(""), "");
}

fn cand(start: usize, end: usize, tag: &str, rep: &str) -> Cand {
    Cand { start, end, tag: tag.chars().collect(), rep: rep.chars().collect() }
}

#[test]
fn earliest_then_longest_candidate_wins() {
    // "ab 12.5 x 7": a float at 3..7 and an integer at 3..5 overlap; the longer wins.
    let cands = vec![cand(3, 5, "NUM", "<NUM>"), cand(3, 7, "FLOAT", "<FLOAT>"), cand(10, 11, "NUM", "<NUM>")];
    let r = mask_candidates("ab 12.5 x 7", &cands, true);
    assert_eq!(r.masked_text, "ab <FLOAT> x <NUM>");
    assert_eq!(r.extracted_params.get("FLOAT").unwrap(), &vec!["12.5"]);
    assert_eq!(r.extracted_params.get("NUM").unwrap(), &vec!["7"]);
}

#[test]
fn equal_spans_go_to_the_earlier_pattern() {
    let cands = vec![cand(0, 3, "HEX", "<HEX>"), cand(0, 3, "NUM", "<NUM>"), cand(4, 7, "HEX", "<HEX>")];
    let r = mask_candidates("abc def", &cands, true);
    assert_eq!(r.masked_text, "<HEX> <HEX_2>");
    let r2 = mask_candidates("abc def", &cands, false);
    assert_eq!(r2.masked_text, "<HEX> <HEX>");
    assert_eq!(r2.extracted_params.get("HEX").unwrap(), &vec!["abc", "def"]);
}
