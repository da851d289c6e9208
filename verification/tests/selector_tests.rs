use roxy::IpInfo;
use roxy::Registry;
use roxy::Router;
use roxy::Strategy;
use roxy::route::parse_strategy;

fn record(url: &str, ip: &str, latency: i32, code: &str) -> IpInfo {
    IpInfo {
        url: url.to_string(),
        ip: ip.to_string(),
        isp: "isp".to_string(),
        country: "country".to_string(),
        latency,
        code: code.to_string(),
    }
}

fn unmeasured_pool() -> Registry {
    let mut reg = Registry::new();
    reg.upsert_discovered(record("http://p1:8000", "1.1.1.1", 0, "DE"));
    reg.upsert_discovered(record("http://p2:8000", "2.2.2.2", -3, "DE"));
    reg.upsert_discovered(record("http://p3:8000", "3.3.3.3", 300, "DE"));
    reg.upsert_discovered(record("http://p4:8000", "4.4.4.4", 400, "DE"));
    reg
}

#[test]
fn no_strategy_returns_out_of_bounds_records() {
    let reg = unmeasured_pool();
    let router = Router::new();
    assert!(router.get_best_proxy(&reg).is_none());
    assert!(router.get_random_proxy(&reg).is_none());
    assert!(router.get_proxy_by_country(&reg, "de").is_none());
    assert!(router.get_binance_proxy(&reg).is_none());
}

#[test]
fn strategies_accept_only_selectable_records() {
    let mut reg = unmeasured_pool();
    reg.upsert_discovered(record("http://p5:8000", "5.5.5.5", 50, "DE"));
    let router = Router::new();
    assert_eq!(router.get_best_proxy(&reg).unwrap().ip, "5.5.5.5");
    assert_eq!(router.get_random_proxy(&reg).unwrap().ip, "5.5.5.5");
    assert_eq!(router.get_proxy_by_country(&reg, "de").unwrap().ip, "5.5.5.5");
    assert_eq!(router.get_binance_proxy(&reg).unwrap().ip, "5.5.5.5");
}

#[test]
fn min_latency_picks_the_fastest() {
    let mut reg = Registry::new();
    reg.upsert_discovered(record("http://p1:8000", "1.1.1.1", 120, "US"));
    reg.upsert_discovered(record("http://p2:8000", "2.2.2.2", 30, "FR"));
    reg.upsert_discovered(record("http://p3:8000", "3.3.3.3", 80, "DE"));
    let router = Router::new();
    let best = router.get_best_proxy(&reg).unwrap();
    assert_eq!(best.ip, "2.2.2.2");
    assert_eq!(best.latency, 30);
}

#[test]
fn country_matches_upper_cased_input_exactly() {
    let mut reg = Registry::new();
    reg.upsert_discovered(record("http://p1:8000", "1.1.1.1", 10, "de"));
    reg.upsert_discovered(record("http://p2:8000", "2.2.2.2", 50, "DE"));
    let router = Router::new();
    // the stored lower-case "de" never matches: the input is upper-cased
    let picked = router.get_proxy_by_country(&reg, "de").unwrap();
    assert_eq!(picked.ip, "2.2.2.2");
    let picked = router.get_proxy_by_country(&reg, "DE").unwrap();
    assert_eq!(picked.ip, "2.2.2.2");
    let picked = router.get_proxy_by_country(&reg, "dE").unwrap();
    assert_eq!(picked.ip, "2.2.2.2");
    assert!(router.get_proxy_by_country(&reg, "fr").is_none());
}

#[test]
fn binance_never_returns_jp() {
    let mut reg = Registry::new();
    reg.upsert_discovered(record("http://p1:8000", "1.1.1.1", 5, "JP"));
    reg.upsert_discovered(record("http://p2:8000", "2.2.2.2", 50, "US"));
    reg.upsert_discovered(record("http://p3:8000", "3.3.3.3", 60, "SG"));
    let router = Router::new();
    for _ in 0..100 {
        let picked = router.get_binance_proxy(&reg).unwrap();
        assert_ne!(picked.code, "JP");
    }
}

#[test]
fn random_selection_is_roughly_uniform() {
    let mut reg = Registry::new();
    reg.upsert_discovered(record("http://p1:8000", "1.1.1.1", 10, "US"));
    reg.upsert_discovered(record("http://p2:8000", "2.2.2.2", 11, "US"));
    reg.upsert_discovered(record("http://p3:8000", "3.3.3.3", 12, "US"));
    reg.upsert_discovered(record("http://p4:8000", "4.4.4.4", 13, "US"));
    reg.upsert_discovered(record("http://p5:8000", "5.5.5.5", 14, "US"));
    let router = Router::new();
    let mut counts = [0usize; 5];
    let trials: usize = 2000;
    for _ in 0..trials {
        let picked = router.get_random_proxy(&reg).unwrap();
        let idx = (picked.latency - 10) as usize;
        counts[idx] += 1;
    }
    // expected 400 per record; allow a wide statistical margin
    for &c in counts.iter() {
        assert!(c > 200, "a record was drawn only {} times of {}", c, trials);
        assert!(c < 600, "a record was drawn {} times of {}", c, trials);
    }
}

#[test]
fn binance_samples_outside_jp_uniformly() {
    let mut reg = Registry::new();
    reg.upsert_discovered(record("http://p1:8000", "1.1.1.1", 5, "JP"));
    reg.upsert_discovered(record("http://p2:8000", "2.2.2.2", 10, "US"));
    reg.upsert_discovered(record("http://p3:8000", "3.3.3.3", 11, "SG"));
    let router = Router::new();
    let mut us = 0usize;
    let mut sg = 0usize;
    for _ in 0..1000 {
        let picked = router.get_binance_proxy(&reg).unwrap();
        if picked.code == "US" {
            us += 1;
        } else if picked.code == "SG" {
            sg += 1;
        } else {
            panic!("unexpected code {}", picked.code);
        }
    }
    assert!(us > 300 && us < 700, "US drawn {} times of 1000", us);
    assert!(sg > 300 && sg < 700, "SG drawn {} times of 1000", sg);
}

#[test]
fn unknown_strategy_name_parses_to_min_latency() {
    assert_eq!(parse_strategy("bogus"), Strategy::MinLatency);
    assert_eq!(parse_strategy(""), Strategy::MinLatency);
    assert_eq!(parse_strategy("Random"), Strategy::MinLatency);
    assert_eq!(parse_strategy("random"), Strategy::Random);
    assert_eq!(parse_strategy("country"), Strategy::Country);
    assert_eq!(parse_strategy("binance"), Strategy::Binance);
}

#[test]
fn unknown_strategy_behaves_as_min_latency() {
    let mut reg = Registry::new();
    reg.upsert_discovered(record("http://p1:8000", "1.1.1.1", 120, "US"));
    reg.upsert_discovered(record("http://p2:8000", "2.2.2.2", 30, "FR"));
    let router = Router::new();
    let via_unknown = router
        .select(&reg, parse_strategy("bogus"), None)
        .unwrap();
    let via_min = router
        .select(&reg, Strategy::MinLatency, None)
        .unwrap();
    assert_eq!(via_unknown.url, via_min.url);
    assert_eq!(via_unknown.url, "http://p2:8000");
}
