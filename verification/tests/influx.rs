use hermes_monitor::influx::{health_status_ok, health_url, influx_query, parse_influx_csv, InfluxConfig, InfluxUsageRow};
use hermes_monitor::usage::total_tokens;

fn total_cost(rows: &[InfluxUsageRow]) -> f64 {
    let total: f64 = rows.iter().map(|r| r.cost_usd.parse::<f64>().unwrap_or(0.0)).sum();
    (total * 100.0).round() / 100.0
}

fn tokens(rows: &[InfluxUsageRow]) -> Vec<i64> {
    rows.iter().map(|r| r.tokens_used).collect()
}

#[test]
fn test_parse_influx_csv_basic() {
    let csv = r#"
#datatype,string,long,string,long,double
#group,false,false,false,false,false
#default,_result,,,,
,result,table,provider,tokens_used,cost_usd
,,0,openrouter,15000,0.45
,,0,anthropic,8000,0.24
"#;

    let providers = parse_influx_csv(csv).unwrap();
    assert_eq!(providers.len(), 2);
    assert_eq!(providers[0].name, "openrouter");
    assert_eq!(providers[0].tokens_used, 15000);
    assert_eq!(providers[0].cost_usd.parse::<f64>().unwrap(), 0.45);
    assert_eq!(total_tokens(&tokens(&providers)), Some(23000));
    assert!((total_cost(&providers) - 0.69).abs() < 0.001);
}

#[test]
fn test_parse_influx_csv_empty() {
    let csv = r#"
#datatype,string,long,string,long,double
#group,false,false,false,false,false
,result,table,provider,tokens_used,cost_usd
"#;

    let providers = parse_influx_csv(csv).unwrap();
    assert_eq!(providers.len(), 0);
    assert_eq!(total_tokens(&tokens(&providers)), Some(0));
}

#[test]
fn test_parse_influx_csv_skips_zero_tokens() {
    let csv = r#"
,result,table,provider,tokens_used,cost_usd
,,0,openrouter,15000,0.45
,,0,bad_provider,0,0.0
"#;

    let providers = parse_influx_csv(csv).unwrap();
    assert_eq!(providers.len(), 1);
    assert_eq!(providers[0].name, "openrouter");
}

#[test]
fn test_parse_influx_csv_all_five_providers() {
    let csv = "result,table,provider,tokens_used,cost_usd
0,0,openrouter,15000,0.45
0,0,anthropic,8000,0.24
0,0,openai,12000,0.36
0,0,opencode zen,5000,0.15
0,0,opencode go,3000,0.09";

    let providers = parse_influx_csv(csv).unwrap();
    assert_eq!(providers.len(), 5);
    assert_eq!(total_tokens(&tokens(&providers)), Some(43000));
    assert!((total_cost(&providers) - 1.29).abs() < 0.001);
}

#[test]
fn test_parse_influx_csv_field_rules() {
    // Columns found by name in any order; fields trimmed; CRLF line ends;
    // unparsable or non-positive tokens and missing providers are skipped;
    // a short row simply lacks the later columns.
    let csv = "  cost_usd , provider ,tokens_used\r\n\
               1.5 ,  a ,  +12 \r\n\
               2.0, b, 12x\r\n\
               3.0, , 40\r\n\
               4.0, c, -3\r\n\
               5.0, d\r\n\
               , e, 99999999999999999999\r\n\
               , f, 7\r\n";
    let rows = parse_influx_csv(csv).unwrap();
    assert_eq!(rows.len(), 2);
    assert_eq!(rows[0].name, "a");
    assert_eq!(rows[0].tokens_used, 12);
    assert_eq!(rows[0].cost_usd, "1.5");
    assert_eq!(rows[1].name, "f");
    assert_eq!(rows[1].tokens_used, 7);
    assert_eq!(rows[1].cost_usd, "");
}

#[test]
fn test_parse_influx_csv_duplicate_column_uses_last() {
    let csv = "provider,tokens_used,tokens_used\nx,1,5\ny,5\n";
    let rows = parse_influx_csv(csv).unwrap();
    assert_eq!(rows.len(), 1);
    assert_eq!(rows[0].name, "x");
    assert_eq!(rows[0].tokens_used, 5);
}

#[test]
fn test_parse_influx_csv_no_header_columns() {
    let rows = parse_influx_csv("").unwrap();
    assert!(rows.is_empty());
    let rows = parse_influx_csv("a,b\nopenrouter,5\n").unwrap();
    assert!(rows.is_empty());
}

fn config() -> InfluxConfig {
    InfluxConfig {
        url: "http://localhost:8086".to_string(),
        org: "test".to_string(),
        bucket: "hermes_usage".to_string(),
        token: "secret".to_string(),
    }
}

#[test]
fn test_influx_query_request() {
    let q = influx_query(&config());
    assert_eq!(q.url, "http://localhost:8086/api/v2/query");
    assert_eq!(q.authorization, "Token secret");
    assert_eq!(
        q.flux,
        r#"from(bucket: "hermes_usage")
        |> range(start: -24h)
        |> filter(fn: (r) => r._measurement == "usage")
        |> pivot(rowKey:["_time"], columnKey: ["_field"], valueColumn: "_value")
        |> group(columns: ["provider"])
        |> sum()"#
    );
}

#[test]
fn test_health_check() {
    assert_eq!(health_url(&config()), "http://localhost:8086/health");
    assert!(health_status_ok(200));
    assert!(health_status_ok(204));
    assert!(health_status_ok(401));
    assert!(!health_status_ok(404));
    assert!(!health_status_ok(503));
    assert!(!health_status_ok(199));
}

#[test]
fn test_all_tauri_commands_exist() {
    // The InfluxDB query command is made of the request it sends and the
    // reading of the CSV it gets back; both must exist under these names.
    let _: fn(&InfluxConfig) -> _ = influx_query;
    let check: fn(&str) -> _ = parse_influx_csv;
    let _ = check;
}

#[test]
fn test_parse_influx_csv_ignores_inserted_comment_and_blank_lines() {
    let plain = "provider,tokens_used,cost_usd\nopenrouter,15000,0.45\nanthropic,8000,0.24";
    let noisy = "# note\n\n  \nprovider,tokens_used,cost_usd\n#x,1,1\nopenrouter,15000,0.45\n   # y\n\t\nanthropic,8000,0.24\n#";
    let a = parse_influx_csv(plain).unwrap();
    let b = parse_influx_csv(noisy).unwrap();
    assert_eq!(a.len(), b.len());
    for (x, y) in a.iter().zip(b.iter()) {
        assert_eq!(x.name, y.name);
        assert_eq!(x.tokens_used, y.tokens_used);
        assert_eq!(x.cost_usd, y.cost_usd);
    }
}

#[test]
fn test_query_status_ok() {
    assert!(hermes_monitor::influx::query_status_ok(200));
    assert!(hermes_monitor::influx::query_status_ok(299));
    assert!(!hermes_monitor::influx::query_status_ok(401));
    assert!(!hermes_monitor::influx::query_status_ok(500));
}
