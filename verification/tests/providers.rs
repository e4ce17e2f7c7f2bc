use hermes_monitor::providers::{
    key_check, key_check_status, partition_key_results, usage_query, KeyCheck, ProviderConfig,
    ProviderError, UsageQuery,
};
use hermes_monitor::StringHashMap;

fn map(pairs: &[(&str, &str)]) -> StringHashMap<String> {
    let mut m = StringHashMap::new();
    for (k, v) in pairs {
        m.insert(k.to_string(), v.to_string());
    }
    m
}

#[test]
fn test_from_map_reads_known_names() {
    let m = map(&[("openrouter", "k1"), ("opencode-zen", "k2"), ("other", "k3")]);
    let c = ProviderConfig::from_map(&m);
    assert_eq!(c.openrouter, Some("k1".to_string()));
    assert_eq!(c.anthropic, None);
    assert_eq!(c.openai, None);
    assert_eq!(c.opencode_zen, Some("k2".to_string()));
    assert_eq!(c.opencode_go, None);
}

#[test]
fn test_entries_skips_missing_and_blank_keys_in_fixed_order() {
    let m = map(&[
        ("opencode-go", "go-key"),
        ("openai", "   "),
        ("anthropic", " ant "),
        ("openrouter", ""),
    ]);
    let c = ProviderConfig::from_map(&m);
    let e = c.entries();
    assert_eq!(e, vec![("anthropic", " ant "), ("opencode-go", "go-key")]);
}

#[test]
fn test_entries_empty_config() {
    let c = ProviderConfig::from_map(&map(&[]));
    assert!(c.entries().is_empty());
}

#[test]
fn test_key_check_requests() {
    match key_check("openrouter", "k") {
        KeyCheck::Request(g) => {
            assert_eq!(g.url, "https://openrouter.ai/api/v1/auth/key");
            assert_eq!(g.headers, vec![("Authorization".to_string(), "Bearer k".to_string())]);
        }
        _ => panic!("expected a request"),
    }
    match key_check("anthropic", "k") {
        KeyCheck::Request(g) => {
            assert_eq!(g.url, "https://api.anthropic.com/v1/models");
            assert_eq!(
                g.headers,
                vec![
                    ("x-api-key".to_string(), "k".to_string()),
                    ("anthropic-version".to_string(), "2023-06-01".to_string())
                ]
            );
        }
        _ => panic!("expected a request"),
    }
    match key_check("openai", "k") {
        KeyCheck::Request(g) => assert_eq!(g.url, "https://api.openai.com/v1/models"),
        _ => panic!("expected a request"),
    }
}

#[test]
fn test_key_check_length_rule() {
    assert!(matches!(key_check("opencode-zen", "12345678901"), KeyCheck::Decided(Ok(()))));
    match key_check("opencode-go", "1234567890") {
        KeyCheck::Decided(Err(e)) => assert_eq!(e.to_string(), "Auth error: Key too short"),
        _ => panic!("expected a short key to fail"),
    }
    // The length is counted in bytes: six two-byte characters pass.
    assert!(matches!(key_check("opencode-go", "éééééé"), KeyCheck::Decided(Ok(()))));
    match key_check("mystery", "k") {
        KeyCheck::Decided(Err(e)) => assert_eq!(e.to_string(), "Unsupported: mystery"),
        _ => panic!("expected unsupported"),
    }
}

#[test]
fn test_key_check_status() {
    assert!(key_check_status(200).is_ok());
    assert!(key_check_status(299).is_ok());
    assert_eq!(key_check_status(401).unwrap_err().to_string(), "Auth error: Invalid API key");
    assert_eq!(key_check_status(403).unwrap_err().to_string(), "Network error: Status: 403");
    assert_eq!(key_check_status(300).unwrap_err().to_string(), "Network error: Status: 300");
}

#[test]
fn test_usage_query_plans() {
    match usage_query("openai", "k", "2024-05-01") {
        UsageQuery::OpenAi(g) => assert_eq!(
            g.url,
            "https://api.openai.com/v1/dashboard/billing/usage?start_date=2024-05-01&end_date=2024-05-01"
        ),
        _ => panic!("expected the OpenAI query"),
    }
    match usage_query("openrouter", "k", "2024-05-01") {
        UsageQuery::OpenRouter(g) => {
            assert_eq!(g.url, "https://openrouter.ai/api/v1/usage");
            assert_eq!(g.headers[0].1, "Bearer k");
        }
        _ => panic!("expected the OpenRouter query"),
    }
    match usage_query("anthropic", "k", "2024-05-01") {
        UsageQuery::Unsupported(e) => assert!(e.to_string().starts_with("Unsupported: Anthropic usage API")),
        _ => panic!("expected unsupported"),
    }
    assert!(matches!(usage_query("opencode-zen", "k", "d"), UsageQuery::Unsupported(_)));
    assert!(matches!(usage_query("opencode-go", "k", "d"), UsageQuery::Unsupported(_)));
}

#[test]
fn test_provider_keys_with_empty_keys() {
    let config = ProviderConfig::from_map(&map(&[]));
    let results: Vec<(String, Result<(), ProviderError>)> = config
        .entries()
        .iter()
        .map(|(n, _)| (n.to_string(), Ok(())))
        .collect();
    let (ok, failed) = partition_key_results(&results);
    assert_eq!(ok.len(), 0, "no keys provided, ok list should be empty");
    assert_eq!(failed.len(), 0, "no keys provided, failed list should be empty");
}

#[test]
fn test_partition_key_results() {
    let results = vec![
        ("openrouter".to_string(), Ok(())),
        ("anthropic".to_string(), Err(ProviderError::Auth("Invalid API key".to_string()))),
        ("opencode-go".to_string(), Ok(())),
    ];
    let (ok, failed) = partition_key_results(&results);
    assert_eq!(ok, vec!["openrouter".to_string(), "opencode-go".to_string()]);
    assert_eq!(failed, vec![("anthropic".to_string(), "Auth error: Invalid API key".to_string())]);
}

#[test]
fn test_usage_status_is_error() {
    assert!(!hermes_monitor::providers::usage_status_is_error(200));
    assert!(!hermes_monitor::providers::usage_status_is_error(302));
    assert!(hermes_monitor::providers::usage_status_is_error(400));
    assert!(hermes_monitor::providers::usage_status_is_error(429));
    assert!(hermes_monitor::providers::usage_status_is_error(599));
    assert!(!hermes_monitor::providers::usage_status_is_error(600));
}
