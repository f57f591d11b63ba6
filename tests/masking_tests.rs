use logoscope::masking::mask_text;
use logoscope::patterns::cluster_masked;

#[test]
fn masking_plaintext_basic_rules() {
    let input = "User 123 logged in from 192.168.1.1 at 2024-01-01T12:00:00Z contact john.doe@example.com";
    let masked = mask_text(input);
    assert_eq!(masked, "User <NUM> logged in from <IP> at <TIMESTAMP> contact <EMAIL>");
}

#[test]
fn masking_extended_rules_uuid_path_url_hex_b64() {
    let input = "uuid=550e8400-e29b-41d4-a716-446655440000 path=/var/log/app/error.log url=https://example.com/a?b=1 hex=deadbeefcafebabe b64=eyJmb28iOiJiYXIifQ==";
    let masked = mask_text(input);
    assert!(masked.contains("uuid=<UUID>"));
    assert!(masked.contains("path=<PATH>"));
    assert!(masked.contains("url=<URL>"));
    assert!(masked.contains("hex=<HEX>"));
    assert!(masked.contains("b64=<B64>"));
}

#[test]
fn test_integration_timestamp_masking() {
    let test_cases = [
        ("Server started at 2025-08-07T06:41:18.123456Z", "Server started at <TIMESTAMP>"),
        (
            "Request from 192.168.1.1 at 2024-12-09 14:30:45.999-0800 completed",
            "Request from <IP> at <TIMESTAMP> completed",
        ),
        (
            "Multiple times: 2025-01-01T10:00:00Z and 2025-01-01T11:00:00+01:00",
            "Multiple times: <TIMESTAMP> and <TIMESTAMP>",
        ),
    ];
    for (input, expected_pattern) in test_cases.iter() {
        let masked = mask_text(input);
        assert_eq!(&masked, expected_pattern, "Integration masking failed for: {}", input);
    }
}

#[test]
fn clusters_plaintext_masked_lines_into_templates() {
    let l1 = "User 123 logged in from 192.168.1.1 at 2024-01-01T12:00:00Z";
    let l2 = "User 456 logged in from 10.0.0.5 at 2024-01-01T14:00:00Z";
    let l3 = "User 789 logged out from 10.0.0.5 at 2024-01-01T14:05:00Z";
    let m1 = mask_text(l1);
    let m2 = mask_text(l2);
    let m3 = mask_text(l3);
    let clusters = cluster_masked(&[m1, m2, m3]);
    assert_eq!(clusters.len(), 2);
    let mut templates: Vec<_> = clusters.iter().map(|c| (&c.template, c.count)).collect();
    templates.sort_by_key(|(t, _)| t.as_str().to_owned());
    assert_eq!(templates[0].0.as_str(), "User <*> logged in from <*> at <*>");
    assert_eq!(templates[0].1, 2);
    assert_eq!(templates[1].0.as_str(), "User <*> logged out from <*> at <*>");
    assert_eq!(templates[1].1, 1);
}

#[test]
fn mask_text_keeps_unit_after_number() {
    assert_eq!(mask_text("took 150ms and 20 KB"), "took <NUM>ms and <NUM>KB");
}

#[test]
fn cluster_masked_orders_templates_and_counts_repeats() {
    let lines = vec!["b <NUM>".to_string(), "a <IP>".to_string(), "b <NUM>".to_string()];
    let clusters = cluster_masked(&lines);
    assert_eq!(clusters.len(), 2);
    assert_eq!(clusters[0].template, "a <*>");
    assert_eq!(clusters[0].count, 1);
    assert_eq!(clusters[1].template, "b <*>");
    assert_eq!(clusters[1].count, 2);
}
