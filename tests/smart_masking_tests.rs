use logoscope::param_extractor::canonicalize_for_drain;
use logoscope::smart_masking::{format_confidence, match_access_format, LogFormat};

#[test]
fn test_elb_smart_masking() {
    let line = r#"2024-03-05T11:09:51.074031Z awseb-e-m-AWSEBLoa-BKP6LS5P8QLF 172.30.1.251:48530 172.30.1.4:9000 0.000017 0.000791 0.000009 200 200 0 215 "GET http://teamauthapiproduction.cloud.tyk.io:9000/assets/plugins/FitVids/?918138%40 HTTP/1.0" "Mozilla/5.0 (Windows NT 10.0; Win64; x64) AppleWebKit/537.36 (KHTML, like Gecko) Chrome/117.0.0.0 Safari/537.36""#;
    let (result, format) = match_access_format(line).unwrap();
    assert!(matches!(format, LogFormat::ElasticLoadBalancer));
    assert!(format_confidence(format) > 90);
    let params = &result.extracted_params;
    assert!(params.contains_key("CLIENT_IP"));
    assert!(params.contains_key("HTTP_METHOD"));
    assert!(params.contains_key("USER_AGENT"));
    assert_eq!(params.get("CLIENT_IP").unwrap(), &vec!["172.30.1.251".to_string()]);
    assert_eq!(params.get("HTTP_METHOD").unwrap(), &vec!["GET".to_string()]);
    assert!(params.get("USER_AGENT").unwrap()[0].contains("Chrome"));
    assert_eq!(params.get("ELB_STATUS").unwrap(), &vec!["200".to_string()]);
    assert_eq!(params.get("TARGET_STATUS").unwrap(), &vec!["200".to_string()]);
}

#[test]
fn test_elb_different_user_agents() {
    let line = r#"2024-03-05T11:09:51.074031Z my-lb 10.0.0.1:12345 10.0.0.2:80 0.001 0.002 0.003 200 200 500 1024 "POST /api/data HTTP/1.1" "curl/7.68.0""#;
    let (result, format) = match_access_format(line).unwrap();
    assert!(matches!(format, LogFormat::ElasticLoadBalancer));
    assert_eq!(result.extracted_params.get("USER_AGENT").unwrap(), &vec!["curl/7.68.0".to_string()]);
    let line2 = r#"2024-03-05T11:09:51.074031Z my-lb 10.0.0.1:12345 10.0.0.2:80 0.001 0.002 0.003 200 200 500 1024 "GET /health HTTP/1.1" "HealthChecker/2.0""#;
    let (result2, _) = match_access_format(line2).unwrap();
    assert_eq!(result2.extracted_params.get("USER_AGENT").unwrap(), &vec!["HealthChecker/2.0".to_string()]);
}

#[test]
fn test_nginx_smart_masking() {
    let line = r#"192.168.1.100 - - [05/Mar/2024:11:09:51 +0000] "GET /api/v1/users HTTP/1.1" 200 1234 "https://example.com/dashboard" "Mozilla/5.0 (Windows NT 10.0; Win64; x64) AppleWebKit/537.36""#;
    let (result, format) = match_access_format(line).unwrap();
    assert!(matches!(format, LogFormat::NginxAccess));
    assert!(format_confidence(format) > 80);
    let params = &result.extracted_params;
    assert!(params.contains_key("CLIENT_IP"));
    assert!(params.contains_key("HTTP_METHOD"));
    assert!(params.contains_key("STATUS_CODE"));
    assert_eq!(params.get("CLIENT_IP").unwrap(), &vec!["192.168.1.100".to_string()]);
    assert_eq!(params.get("HTTP_METHOD").unwrap(), &vec!["GET".to_string()]);
    assert_eq!(params.get("STATUS_CODE").unwrap(), &vec!["200".to_string()]);
    assert_eq!(params.get("REQUEST_PATH").unwrap(), &vec!["/api/v1/users".to_string()]);
    assert_eq!(params.get("RESPONSE_SIZE").unwrap(), &vec!["1234".to_string()]);
    assert_eq!(params.get("REFERER").unwrap(), &vec!["https://example.com/dashboard".to_string()]);
}

#[test]
fn test_nginx_with_authenticated_user() {
    let line = r#"10.0.0.1 - john_doe [05/Mar/2024:11:09:51 +0000] "POST /api/upload HTTP/1.1" 201 512 "-" "MyApp/1.2.3""#;
    let (result, format) = match_access_format(line).unwrap();
    assert!(matches!(format, LogFormat::NginxAccess));
    let params = &result.extracted_params;
    assert_eq!(params.get("REMOTE_USER").unwrap(), &vec!["john_doe".to_string()]);
    assert_eq!(params.get("HTTP_METHOD").unwrap(), &vec!["POST".to_string()]);
    assert_eq!(params.get("STATUS_CODE").unwrap(), &vec!["201".to_string()]);
    assert!(!params.contains_key("REFERER"));
}

#[test]
fn test_apache_smart_masking() {
    let line = r#"127.0.0.1 - frank [10/Mar/2024:13:55:36 +0100] "GET /apache_pb.gif HTTP/1.0" 200 2326"#;
    let (result, format) = match_access_format(line).unwrap();
    assert!(matches!(format, LogFormat::ApacheAccess));
    assert!(format_confidence(format) > 80);
    let params = &result.extracted_params;
    assert_eq!(params.get("CLIENT_IP").unwrap(), &vec!["127.0.0.1".to_string()]);
    assert_eq!(params.get("REMOTE_USER").unwrap(), &vec!["frank".to_string()]);
    assert_eq!(params.get("HTTP_METHOD").unwrap(), &vec!["GET".to_string()]);
    assert_eq!(params.get("REQUEST_PATH").unwrap(), &vec!["/apache_pb.gif".to_string()]);
    assert_eq!(params.get("STATUS_CODE").unwrap(), &vec!["200".to_string()]);
    assert_eq!(params.get("RESPONSE_SIZE").unwrap(), &vec!["2326".to_string()]);
}

#[test]
fn test_apache_without_user() {
    let line = r#"203.0.113.12 - - [10/Mar/2024:13:55:36 +0100] "HEAD /index.html HTTP/1.1" 404 0"#;
    let (result, format) = match_access_format(line).unwrap();
    assert!(matches!(format, LogFormat::ApacheAccess));
    let params = &result.extracted_params;
    assert_eq!(params.get("CLIENT_IP").unwrap(), &vec!["203.0.113.12".to_string()]);
    assert_eq!(params.get("HTTP_METHOD").unwrap(), &vec!["HEAD".to_string()]);
    assert_eq!(params.get("STATUS_CODE").unwrap(), &vec!["404".to_string()]);
    assert!(!params.contains_key("REMOTE_USER"));
}

#[test]
fn elb_template_and_address_split() {
    let line = r#"2024-03-05T11:09:51.074031Z my-lb 1.2.3.4:80 5.6.7.8:443 0.1 0.2 0.3 200 200 100 200 "GET /test HTTP/1.1" "curl/7.0""#;
    let (result, format) = match_access_format(line).unwrap();
    assert_eq!(format_confidence(format), 95);
    assert!(result.masked_text.starts_with("<TIMESTAMP> <LOAD_BALANCER> <CLIENT_IP>:<CLIENT_PORT>"));
    assert_eq!(result.extracted_params.get("CLIENT_PORT").unwrap(), &vec!["80".to_string()]);
    assert_eq!(result.extracted_params.get("TARGET_ADDR").unwrap(), &vec!["5.6.7.8:443".to_string()]);
}

#[test]
fn short_or_plain_lines_match_no_format() {
    assert!(match_access_format("GET / 200").is_none());
    assert!(match_access_format("nothing but words here, no digits at all").is_none());
}

#[test]
fn canonicalization_uses_access_log_templates() {
    let line = r#"127.0.0.1 - frank [10/Mar/2024:13:55:36 +0100] "GET /apache_pb.gif HTTP/1.0" 200 2326"#;
    let r = canonicalize_for_drain(line);
    assert_eq!(r.masked_text, "<CLIENT_IP> - <REMOTE_USER> [<TIMESTAMP>] \"<HTTP_METHOD> <REQUEST_PATH> <HTTP_VERSION>\" <STATUS_CODE> <RESPONSE_SIZE>");
}
