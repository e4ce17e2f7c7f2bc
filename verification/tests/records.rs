use hermes_monitor::usage::{total_tokens, RateLimitRecord, UsageRecord};

fn make_usage_record(provider: &str, tokens: i64, cost: f64) -> UsageRecord {
    UsageRecord {
        provider: provider.to_string(),
        model: Some("test-model".to_string()),
        tokens_used: tokens,
        cost_usd: cost.to_string(),
        ts: 1_700_000_000,
    }
}

fn make_rate_record(provider: &str, hard: i64, remaining: i64) -> RateLimitRecord {
    RateLimitRecord {
        provider: provider.to_string(),
        model: Some("test-model".to_string()),
        hard_limit: hard,
        soft_limit: Some(hard / 2),
        remaining,
        reset_ts: 1_700_000_100,
        ts: 1_700_000_000,
    }
}

#[test]
fn test_usage_record_creation() {
    let rec = make_usage_record("openrouter", 1000, 0.002);
    assert_eq!(rec.provider, "openrouter");
    assert_eq!(rec.model, Some("test-model".to_string()));
    assert_eq!(rec.tokens_used, 1000);
    assert!((rec.cost_usd.parse::<f64>().unwrap() - 0.002).abs() < f64::EPSILON);
    assert_eq!(rec.ts, 1_700_000_000);
}

#[test]
fn test_usage_record_with_no_model() {
    let rec = UsageRecord {
        provider: "anthropic".to_string(),
        model: None,
        tokens_used: 500,
        cost_usd: 0.015_f64.to_string(),
        ts: 1_700_000_000,
    };
    assert_eq!(rec.model, None);
    assert_eq!(rec.provider, "anthropic");
}

#[test]
fn test_usage_record_clone() {
    let rec = make_usage_record("openai", 2000, 0.04);
    let cloned = rec.clone();
    assert_eq!(rec.provider, cloned.provider);
    assert_eq!(rec.tokens_used, cloned.tokens_used);
}

#[test]
fn test_usage_record_debug() {
    let rec = make_usage_record("openrouter", 1000, 0.002);
    let debug = format!("{:?}", rec);
    assert!(debug.contains("openrouter"));
}

#[test]
fn test_rate_limit_record_creation() {
    let rec = make_rate_record("openrouter", 10000, 7500);
    assert_eq!(rec.provider, "openrouter");
    assert_eq!(rec.hard_limit, 10000);
    assert_eq!(rec.soft_limit, Some(5000));
    assert_eq!(rec.remaining, 7500);
}

#[test]
fn test_rate_limit_record_no_soft_limit() {
    let rec = RateLimitRecord {
        provider: "openai".to_string(),
        model: None,
        hard_limit: 5000,
        soft_limit: None,
        remaining: 3000,
        reset_ts: 1_700_000_100,
        ts: 1_700_000_000,
    };
    assert_eq!(rec.soft_limit, None);
}

#[test]
fn test_rate_limit_record_clone() {
    let rec = make_rate_record("anthropic", 20000, 15000);
    let cloned = rec.clone();
    assert_eq!(rec.provider, cloned.provider);
    assert_eq!(rec.hard_limit, cloned.hard_limit);
    assert_eq!(rec.remaining, cloned.remaining);
}

#[test]
fn test_usage_record_zero_tokens() {
    let rec = UsageRecord {
        provider: "test".to_string(),
        model: None,
        tokens_used: 0,
        cost_usd: 0.0_f64.to_string(),
        ts: 0,
    };
    assert_eq!(rec.tokens_used, 0);
    assert!((rec.cost_usd.parse::<f64>().unwrap()).abs() < f64::EPSILON);
}

#[test]
fn test_rate_limit_record_zero_remaining() {
    let rec = RateLimitRecord {
        provider: "test".to_string(),
        model: None,
        hard_limit: 100,
        soft_limit: Some(50),
        remaining: 0,
        reset_ts: 0,
        ts: 0,
    };
    assert_eq!(rec.remaining, 0);
}

#[test]
fn test_total_tokens_adds_in_order() {
    assert_eq!(total_tokens(&[1000, 2000]), Some(3000));
    assert_eq!(total_tokens(&[]), Some(0));
    assert_eq!(total_tokens(&[15_000, 8_000, 12_000, 5_000, 3_000]), Some(43_000));
}

#[test]
fn test_total_tokens_overflow_is_none() {
    assert_eq!(total_tokens(&[i64::MAX, 1]), None);
    assert_eq!(total_tokens(&[i64::MIN, -1]), None);
    // A partial sum that overflows is refused even when a later count would bring it back.
    assert_eq!(total_tokens(&[i64::MAX, 1, -1]), None);
    assert_eq!(total_tokens(&[i64::MAX, -1, 1]), Some(i64::MAX));
}

#[test]
fn test_total_reported_tokens_reads_missing_as_zero() {
    assert_eq!(hermes_monitor::usage::total_reported_tokens(&[Some(10), None, Some(5)]), Some(15));
    assert_eq!(hermes_monitor::usage::total_reported_tokens(&[]), Some(0));
    assert_eq!(hermes_monitor::usage::total_reported_tokens(&[Some(i64::MAX), None, Some(1)]), None);
}
