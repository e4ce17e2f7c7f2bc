use hermes_monitor::error::DashboardError;
use hermes_monitor::providers::ProviderError;

#[test]
fn test_error_display_write_failed() {
    let err = DashboardError::WriteFailed("connection refused".to_string());
    assert_eq!(err.to_string(), "InfluxDB write failed: connection refused");
}

#[test]
fn test_error_display_query_failed() {
    let err = DashboardError::QueryFailed("timeout".to_string());
    assert_eq!(err.to_string(), "InfluxDB query failed: timeout");
}

#[test]
fn test_error_display_config() {
    let err = DashboardError::Config("missing field".to_string());
    assert_eq!(err.to_string(), "Configuration error: missing field");
}

#[test]
fn test_error_display_storage() {
    let err = DashboardError::Storage("lock poisoned".to_string());
    assert_eq!(err.to_string(), "Storage error: lock poisoned");
}

#[test]
fn test_error_debug() {
    let err = DashboardError::WriteFailed("test".to_string());
    let debug = format!("{:?}", err);
    assert!(debug.contains("WriteFailed"));
}

#[test]
fn test_provider_error_messages() {
    assert_eq!(ProviderError::Network("down".to_string()).to_string(), "Network error: down");
    assert_eq!(ProviderError::Auth("Invalid API key".to_string()).to_string(), "Auth error: Invalid API key");
    assert_eq!(ProviderError::Parse("bad json".to_string()).to_string(), "Parse error: bad json");
    assert_eq!(ProviderError::Unsupported("x".to_string()).to_string(), "Unsupported: x");
}
