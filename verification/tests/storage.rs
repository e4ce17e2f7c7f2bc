use hermes_monitor::storage::{InMemoryStorage, Storage};
use hermes_monitor::usage::{RateLimitRecord, UsageRecord};

fn make_record(provider: &str, tokens: i64) -> UsageRecord {
    UsageRecord {
        provider: provider.to_string(),
        model: None,
        tokens_used: tokens,
        cost_usd: 0.001_f64.to_string(),
        ts: 1_700_000_000,
    }
}

#[test]
fn test_inmemory_storage_push_and_drain() {
    let mut storage: InMemoryStorage<UsageRecord> = InMemoryStorage::new();
    assert_eq!(storage.len(), 0);

    storage.push(make_record("openrouter", 1000));
    assert_eq!(storage.len(), 1);

    storage.push(make_record("anthropic", 500));
    assert_eq!(storage.len(), 2);

    let drained = storage.drain();
    assert_eq!(drained.len(), 2);
    assert_eq!(drained[0].provider, "openrouter");
    assert_eq!(drained[1].provider, "anthropic");
    assert_eq!(storage.len(), 0);
}

#[test]
fn test_inmemory_storage_drain_empty() {
    let mut storage: InMemoryStorage<UsageRecord> = InMemoryStorage::new();
    let drained = storage.drain();
    assert!(drained.is_empty());
}

#[test]
fn test_inmemory_storage_capacity_eviction() {
    let mut storage: InMemoryStorage<UsageRecord> = InMemoryStorage::with_capacity(4);
    for i in 0..4 {
        storage.push(make_record(&format!("p-{}", i), 100));
    }
    assert_eq!(storage.len(), 4);

    // Pushing beyond capacity should evict the oldest
    storage.push(make_record("overflow", 999));
    assert_eq!(storage.len(), 4);

    let drained = storage.drain();
    assert!(!drained.iter().any(|r| r.provider == "p-0"));
    assert!(drained.iter().any(|r| r.provider == "overflow"));
}

#[test]
fn test_legacy_record_and_drain_usage() {
    let mut storage: InMemoryStorage<UsageRecord> = InMemoryStorage::default();
    storage.push(make_record("openrouter", 1000));
    storage.push(make_record("anthropic", 500));

    let drained = storage.drain();
    assert_eq!(drained.len(), 2);
    assert_eq!(drained[0].provider, "openrouter");
    assert_eq!(drained[1].provider, "anthropic");

    // After drain, the queue should be empty
    let drained_again = storage.drain();
    assert!(drained_again.is_empty());
}

#[test]
fn test_legacy_record_and_drain_rate() {
    let mut storage: InMemoryStorage<RateLimitRecord> = InMemoryStorage::default();
    let rate = RateLimitRecord {
        provider: "openrouter".to_string(),
        model: Some("haiku-3".to_string()),
        hard_limit: 10000,
        soft_limit: Some(5000),
        remaining: 7500,
        reset_ts: 1_700_000_100,
        ts: 1_700_000_000,
    };
    storage.push(rate.clone());

    let drained = storage.drain();
    assert_eq!(drained.len(), 1);
    assert_eq!(drained[0].provider, "openrouter");
    assert_eq!(drained[0].hard_limit, 10000);
}

#[test]
fn test_eviction_keeps_newest_in_order() {
    let mut storage: InMemoryStorage<u32> = InMemoryStorage::with_capacity(3);
    for i in 1..=7 {
        storage.push(i);
        assert!(storage.len() <= 3);
    }
    assert_eq!(storage.drain(), vec![5, 6, 7]);
    assert!(storage.is_empty());
}

#[test]
fn test_zero_capacity_never_evicts() {
    let mut storage: InMemoryStorage<u32> = InMemoryStorage::with_capacity(0);
    for i in 0..5 {
        storage.push(i);
    }
    assert_eq!(storage.len(), 5);
    assert_eq!(storage.drain(), vec![0, 1, 2, 3, 4]);
}

#[test]
fn test_default_capacity_is_1024() {
    let mut storage: InMemoryStorage<u32> = InMemoryStorage::new();
    for i in 0..1025 {
        storage.push(i);
    }
    assert_eq!(storage.len(), 1024);
    let drained = storage.drain();
    assert_eq!(drained[0], 1);
    assert_eq!(drained[1023], 1024);
    assert!(storage.is_empty());
}
