use roxy::CandidateFilter;
use roxy::IpInfo;
use roxy::Registry;

fn record(url: &str, ip: &str, isp: &str, country: &str, latency: i32, code: &str) -> IpInfo {
    IpInfo {
        url: url.to_string(),
        ip: ip.to_string(),
        isp: isp.to_string(),
        country: country.to_string(),
        latency,
        code: code.to_string(),
    }
}

#[test]
fn upsert_same_key_twice_keeps_one_row() {
    let mut reg = Registry::new();
    reg.upsert_discovered(record("http://p1:8000", "1.1.1.1", "ispA", "Germany", 0, "DE"));
    reg.upsert_discovered(record("http://p1:8000", "1.1.1.1", "ispB", "France", 99, "FR"));
    assert_eq!(reg.len(), 1);
    let row = reg.get(0);
    assert_eq!(row.isp, "ispA");
    assert_eq!(row.country, "Germany");
    assert_eq!(row.code, "DE");
    assert_eq!(row.latency, 0);
}

#[test]
fn upsert_distinct_keys_appends() {
    let mut reg = Registry::new();
    reg.upsert_discovered(record("http://p1:8000", "1.1.1.1", "a", "X", 0, "XX"));
    reg.upsert_discovered(record("http://p1:8000", "2.2.2.2", "b", "Y", 0, "YY"));
    reg.upsert_discovered(record("http://p2:8000", "1.1.1.1", "c", "Z", 0, "ZZ"));
    assert_eq!(reg.len(), 3);
}

#[test]
fn update_latency_touches_only_matching_row() {
    let mut reg = Registry::new();
    reg.upsert_discovered(record("http://p1:8000", "1.1.1.1", "a", "X", 0, "XX"));
    reg.upsert_discovered(record("http://p2:8000", "2.2.2.2", "b", "Y", 7, "YY"));
    reg.update_latency("1.1.1.1", 42);
    assert_eq!(reg.get(0).latency, 42);
    assert_eq!(reg.get(1).latency, 7);
    assert_eq!(reg.get(0).isp, "a");
    reg.update_latency("9.9.9.9", 5);
    assert_eq!(reg.get(0).latency, 42);
    assert_eq!(reg.get(1).latency, 7);
}

#[test]
fn list_all_projects_every_ip() {
    let mut reg = Registry::new();
    reg.upsert_discovered(record("http://p1:8000", "1.1.1.1", "a", "X", 0, "XX"));
    reg.upsert_discovered(record("http://p2:8000", "2.2.2.2", "b", "Y", 0, "YY"));
    let ips = reg.list_all();
    assert_eq!(ips.len(), 2);
    assert_eq!(ips[0].ip, "1.1.1.1");
    assert_eq!(ips[1].ip, "2.2.2.2");
}

#[test]
fn query_orders_ascending_and_bounds() {
    let mut reg = Registry::new();
    reg.upsert_discovered(record("http://p1:8000", "1.1.1.1", "a", "X", 50, "XX"));
    reg.upsert_discovered(record("http://p2:8000", "2.2.2.2", "b", "Y", 10, "YY"));
    reg.upsert_discovered(record("http://p3:8000", "3.3.3.3", "c", "Z", 300, "ZZ"));
    reg.upsert_discovered(record("http://p4:8000", "4.4.4.4", "d", "W", 0, "WW"));
    reg.upsert_discovered(record("http://p5:8000", "5.5.5.5", "e", "V", -5, "VV"));
    reg.upsert_discovered(record("http://p6:8000", "6.6.6.6", "f", "U", 20, "UU"));
    let filter = CandidateFilter {
        max_latency: 300,
        required_code: None,
        exclude_code: None,
        limit: 2,
    };
    let out = reg.query_candidates(&filter);
    assert_eq!(out.len(), 2);
    assert_eq!(out[0].latency, 10);
    assert_eq!(out[1].latency, 20);
}

#[test]
fn query_rejects_empty_identity() {
    let mut reg = Registry::new();
    reg.upsert_discovered(record("", "1.1.1.1", "a", "X", 10, "XX"));
    reg.upsert_discovered(record("http://p2:8000", "", "b", "Y", 10, "YY"));
    let filter = CandidateFilter {
        max_latency: 300,
        required_code: None,
        exclude_code: None,
        limit: 10,
    };
    let out = reg.query_candidates(&filter);
    assert!(out.is_empty());
}

#[test]
fn query_filters_by_country_code() {
    let mut reg = Registry::new();
    reg.upsert_discovered(record("http://p1:8000", "1.1.1.1", "a", "Germany", 50, "DE"));
    reg.upsert_discovered(record("http://p2:8000", "2.2.2.2", "b", "Japan", 10, "JP"));
    let required = CandidateFilter {
        max_latency: 300,
        required_code: Some("DE".to_string()),
        exclude_code: None,
        limit: 10,
    };
    let out = reg.query_candidates(&required);
    assert_eq!(out.len(), 1);
    assert_eq!(out[0].code, "DE");
    let excluded = CandidateFilter {
        max_latency: 300,
        required_code: None,
        exclude_code: Some("JP".to_string()),
        limit: 10,
    };
    let out = reg.query_candidates(&excluded);
    assert_eq!(out.len(), 1);
    assert_eq!(out[0].code, "DE");
}
