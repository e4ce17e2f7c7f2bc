use hermes_monitor::line_protocol::{escape_tag_value, format_rate_lines, format_usage_lines, join_lines};
use hermes_monitor::usage::{RateLimitRecord, UsageRecord};

#[test]
fn test_format_usage_lines_single() {
    let records = vec![UsageRecord {
        provider: "openrouter".to_string(),
        model: Some("haiku-3".to_string()),
        tokens_used: 1000,
        cost_usd: 0.002_f64.to_string(),
        ts: 1_700_000_000,
    }];
    let lines = format_usage_lines(&records);
    assert_eq!(lines.len(), 1);
    assert!(lines[0].contains("usage,provider=openrouter,model=haiku-3"));
    assert!(lines[0].contains("tokens_used=1000"));
    assert!(lines[0].contains("cost_usd=0.002"));
    // timestamp: 1_700_000_000 * 1_000_000_000 = 1700000000000000000
    assert!(lines[0].contains("1700000000000000000"));
}

#[test]
fn test_format_usage_lines_no_model() {
    let records = vec![UsageRecord {
        provider: "anthropic".to_string(),
        model: None,
        tokens_used: 500,
        cost_usd: 0.015_f64.to_string(),
        ts: 1_700_000_000,
    }];
    let lines = format_usage_lines(&records);
    assert!(lines[0].contains("model="));
    // model should be empty when None
    let model_part = lines[0].split("model=").nth(1).unwrap();
    assert!(model_part.starts_with(" "));
}

#[test]
fn test_format_usage_lines_empty() {
    let records: Vec<UsageRecord> = vec![];
    let lines = format_usage_lines(&records);
    assert!(lines.is_empty());
}

#[test]
fn test_format_usage_lines_multiple() {
    let records = vec![
        UsageRecord {
            provider: "openrouter".to_string(),
            model: None,
            tokens_used: 100,
            cost_usd: 0.001_f64.to_string(),
            ts: 1_700_000_000,
        },
        UsageRecord {
            provider: "anthropic".to_string(),
            model: None,
            tokens_used: 200,
            cost_usd: 0.002_f64.to_string(),
            ts: 1_700_000_001,
        },
    ];
    let lines = format_usage_lines(&records);
    assert_eq!(lines.len(), 2);
    assert!(lines[0].contains("provider=openrouter"));
    assert!(lines[1].contains("provider=anthropic"));
}

#[test]
fn test_format_rate_lines_single() {
    let records = vec![RateLimitRecord {
        provider: "openrouter".to_string(),
        model: Some("gpt-4o".to_string()),
        hard_limit: 10000,
        soft_limit: Some(5000),
        remaining: 7500,
        reset_ts: 1_700_000_100,
        ts: 1_700_000_000,
    }];
    let lines = format_rate_lines(&records);
    assert_eq!(lines.len(), 1);
    assert!(lines[0].contains("rate_limit,provider=openrouter,model=gpt-4o"));
    assert!(lines[0].contains("hard_limit=10000"));
    assert!(lines[0].contains("soft_limit=5000"));
    assert!(lines[0].contains("remaining=7500"));
    assert!(lines[0].contains("reset_ts=1700000100"));
}

#[test]
fn test_format_rate_lines_no_soft_limit() {
    let records = vec![RateLimitRecord {
        provider: "openai".to_string(),
        model: None,
        hard_limit: 5000,
        soft_limit: None,
        remaining: 3000,
        reset_ts: 1_700_000_100,
        ts: 1_700_000_000,
    }];
    let lines = format_rate_lines(&records);
    assert!(lines[0].contains("soft_limit=-1"));
}

#[test]
fn test_format_usage_lines_escapes_special_chars() {
    let records = vec![UsageRecord {
        provider: "my provider".to_string(),
        model: Some("haiku 3.5".to_string()),
        tokens_used: 1000,
        cost_usd: 0.002_f64.to_string(),
        ts: 1_700_000_000,
    }];
    let lines = format_usage_lines(&records);
    assert_eq!(lines.len(), 1);
    // Spaces in tag values must be escaped with backslash per InfluxDB line protocol
    assert!(lines[0].contains("provider=my\\ provider"), "provider not escaped: {}", lines[0]);
    assert!(lines[0].contains("model=haiku\\ 3.5"), "model not escaped: {}", lines[0]);
}

#[test]
fn test_format_rate_lines_escapes_special_chars() {
    let records = vec![RateLimitRecord {
        provider: "my provider".to_string(),
        model: Some("gpt=4o".to_string()),
        hard_limit: 10000,
        soft_limit: Some(5000),
        remaining: 7500,
        reset_ts: 1_700_000_100,
        ts: 1_700_000_000,
    }];
    let lines = format_rate_lines(&records);
    assert_eq!(lines.len(), 1);
    assert!(lines[0].contains("provider=my\\ provider"), "provider not escaped: {}", lines[0]);
    assert!(lines[0].contains("model=gpt\\=4o"), "model not escaped: {}", lines[0]);
}

#[test]
fn test_format_rate_lines_empty() {
    let records: Vec<RateLimitRecord> = vec![];
    let lines = format_rate_lines(&records);
    assert!(lines.is_empty());
}

#[test]
fn test_format_usage_line_exact() {
    let records = vec![UsageRecord {
        provider: "openrouter".to_string(),
        model: Some("haiku-3".to_string()),
        tokens_used: -7,
        cost_usd: 0.45_f64.to_string(),
        ts: -2,
    }];
    let lines = format_usage_lines(&records);
    assert_eq!(lines[0], "usage,provider=openrouter,model=haiku-3 tokens_used=-7,cost_usd=0.45 -2000000000");
}

#[test]
fn test_format_rate_line_exact() {
    let records = vec![RateLimitRecord {
        provider: "a,b".to_string(),
        model: None,
        hard_limit: i64::MAX,
        soft_limit: Some(i64::MIN),
        remaining: 0,
        reset_ts: 10,
        ts: 0,
    }];
    let lines = format_rate_lines(&records);
    assert_eq!(
        lines[0],
        "rate_limit,provider=a\\,b,model= hard_limit=9223372036854775807,soft_limit=-9223372036854775808,remaining=0,reset_ts=10 0"
    );
}

#[test]
fn test_escape_tag_value_each_special_char() {
    assert_eq!(escape_tag_value("a b,c=d\\e"), "a\\ b\\,c\\=d\\\\e");
    assert_eq!(escape_tag_value(""), "");
    assert_eq!(escape_tag_value("plain"), "plain");
    // Backslashes are doubled before the others are escaped, so nothing is escaped twice.
    assert_eq!(escape_tag_value("\\ "), "\\\\\\ ");
    assert_eq!(escape_tag_value("ünï cödé"), "ünï\\ cödé");
}

#[test]
fn test_join_lines() {
    assert_eq!(join_lines(&vec![]), "");
    assert_eq!(join_lines(&vec!["a".to_string()]), "a");
    assert_eq!(join_lines(&vec!["a".to_string(), "b".to_string(), "c".to_string()]), "a\nb\nc");
}

#[test]
fn test_escape_tag_value_is_injective_on_examples() {
    // Values that a naive escaping would confuse stay apart.
    let values = ["a\\ b", "a\\\\ b", "a b", "a\\", "a\\\\", "=", "\\="];
    for (i, x) in values.iter().enumerate() {
        for (j, y) in values.iter().enumerate() {
            assert_eq!(i == j, escape_tag_value(x) == escape_tag_value(y));
        }
    }
}
