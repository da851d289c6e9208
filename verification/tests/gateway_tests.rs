use roxy::Header;
use roxy::IpInfo;
use roxy::Registry;
use roxy::Router;
use roxy::api::GatewayOutcome;
use roxy::api::build_outbound_headers;
use roxy::api::parse_strategy_from_headers;
use roxy::api::parse_strategy_from_request;
use roxy::api::resolve_target;
use roxy::api::route_request;

fn header(name: &str, value: &str) -> Header {
    Header { name: name.to_string(), value: value.to_string() }
}

fn record(url: &str, ip: &str, latency: i32, code: &str) -> IpInfo {
    IpInfo {
        url: url.to_string(),
        ip: ip.to_string(),
        isp: "isp".to_string(),
        country: "country".to_string(),
        latency,
        code: code.to_string(),
    }
}

#[test]
fn header_strategy_with_country_splits() {
    let headers = vec![header("X-Proxy-Strategy", "country/DE")];
    let (strategy, country) = parse_strategy_from_headers(&headers);
    assert_eq!(strategy, "country");
    assert_eq!(country.as_deref(), Some("DE"));
}

#[test]
fn header_strategy_alone_has_no_country() {
    let headers = vec![header("x-proxy-strategy", "binance")];
    let (strategy, country) = parse_strategy_from_headers(&headers);
    assert_eq!(strategy, "binance");
    assert!(country.is_none());
}

#[test]
fn country_header_alone_forces_country_strategy() {
    let headers = vec![header("X-Proxy-Country", "JP")];
    let (strategy, country) = parse_strategy_from_headers(&headers);
    assert_eq!(strategy, "country");
    assert_eq!(country.as_deref(), Some("JP"));
}

#[test]
fn missing_headers_default_to_min_latency() {
    let headers: Vec<Header> = Vec::new();
    let (strategy, country) = parse_strategy_from_headers(&headers);
    assert_eq!(strategy, "minlatency");
    assert!(country.is_none());
}

#[test]
fn header_names_match_in_any_case() {
    let headers = vec![header("x-ProXy-StrAtegy", "random")];
    let (strategy, country) = parse_strategy_from_headers(&headers);
    assert_eq!(strategy, "random");
    assert!(country.is_none());
}

#[test]
fn legacy_path_wins_over_headers() {
    let headers = vec![header("X-Proxy-Strategy", "binance")];
    let (strategy, country) = parse_strategy_from_request(&headers, "/proxy/country/de");
    assert_eq!(strategy, "country");
    assert_eq!(country.as_deref(), Some("de"));
}

#[test]
fn empty_path_segments_are_absent() {
    let headers: Vec<Header> = Vec::new();
    let (strategy, country) = parse_strategy_from_request(&headers, "/proxy/random/");
    assert_eq!(strategy, "random");
    assert!(country.is_none());
    let (strategy, _) = parse_strategy_from_request(&headers, "/proxy//de");
    assert_eq!(strategy, "minlatency");
}

#[test]
fn absolute_form_is_forced_to_https() {
    let resolved = resolve_target("http://example.com/x", None).unwrap();
    assert_eq!(resolved, "https://example.com/x");
    let resolved = resolve_target("https://example.com/x", None).unwrap();
    assert_eq!(resolved, "https://example.com/x");
}

#[test]
fn scheme_matching_ignores_case() {
    let resolved = resolve_target("HTTP://example.com/x", None).unwrap();
    assert_eq!(resolved, "https://example.com/x");
    let resolved = resolve_target("HtTpS://example.com/x", None).unwrap();
    assert_eq!(resolved, "https://example.com/x");
}

#[test]
fn foreign_scheme_cannot_be_dispatched() {
    let host = "example.com".to_string();
    assert!(resolve_target("ftp://files.example/x", Some(&host)).is_none());
    assert!(resolve_target("ws://files.example/x", None).is_none());
    let reg = one_proxy_registry();
    let router = Router::new();
    let headers = vec![header("Host", "example.com")];
    let outcome = route_request(&router, &reg, false, "ftp://files.example/x", "/x", &headers);
    match outcome {
        GatewayOutcome::Reject { status } => assert_eq!(status, 400),
        _ => panic!("expected a rejection"),
    }
}

#[test]
fn relative_form_synthesizes_from_host() {
    let host = "example.com".to_string();
    let resolved = resolve_target("/a/b?q=1", Some(&host)).unwrap();
    assert_eq!(resolved, "https://example.com/a/b?q=1");
    assert!(resolve_target("/a/b", None).is_none());
}

#[test]
fn outbound_headers_never_carry_the_strip_list() {
    let headers = vec![
        header("HOST", "example.com"),
        header("Accept", "application/json"),
        header("Proxy-Authorization", "Basic Zm9vOmJhcg=="),
        header("x-proxy-strategy", "random"),
        header("X-Proxy-Country", "DE"),
        header("Connection", "keep-alive"),
        header("PROXY-CONNECTION", "keep-alive"),
        header("Content-Length", "12"),
        header("User-Agent", "curl"),
    ];
    let out = build_outbound_headers(&headers);
    assert_eq!(out.len(), 2);
    assert_eq!(out[0].name, "Accept");
    assert_eq!(out[1].name, "User-Agent");
}

fn one_proxy_registry() -> Registry {
    let mut reg = Registry::new();
    reg.upsert_discovered(record("http://p1:8000", "1.1.1.1", 40, "US"));
    reg
}

#[test]
fn country_without_candidates_is_503() {
    let reg = one_proxy_registry();
    let router = Router::new();
    let headers = vec![header("Host", "example.com"), header("X-Proxy-Strategy", "country/DE")];
    let outcome = route_request(&router, &reg, false, "/x", "/x", &headers);
    match outcome {
        GatewayOutcome::Reject { status } => assert_eq!(status, 503),
        _ => panic!("expected a rejection"),
    }
}

#[test]
fn country_without_code_is_400() {
    let reg = one_proxy_registry();
    let router = Router::new();
    let headers = vec![header("Host", "example.com"), header("X-Proxy-Strategy", "country")];
    let outcome = route_request(&router, &reg, false, "/x", "/x", &headers);
    match outcome {
        GatewayOutcome::Reject { status } => assert_eq!(status, 400),
        _ => panic!("expected a rejection"),
    }
}

#[test]
fn relative_without_host_is_400() {
    let reg = one_proxy_registry();
    let router = Router::new();
    let headers: Vec<Header> = Vec::new();
    let outcome = route_request(&router, &reg, false, "/x", "/x", &headers);
    match outcome {
        GatewayOutcome::Reject { status } => assert_eq!(status, 400),
        _ => panic!("expected a rejection"),
    }
}

#[test]
fn forward_goes_to_https_origin_with_stripped_headers() {
    let reg = one_proxy_registry();
    let router = Router::new();
    let headers = vec![
        header("Host", "ignored.example"),
        header("Accept", "text/plain"),
        header("proxy-authorization", "Basic Zm9vOmJhcg=="),
    ];
    let outcome = route_request(
        &router,
        &reg,
        false,
        "http://example.com/x",
        "/x",
        &headers,
    );
    match outcome {
        GatewayOutcome::Forward { proxy, url, headers: out } => {
            assert_eq!(url, "https://example.com/x");
            assert_eq!(proxy.url, "http://p1:8000");
            assert_eq!(out.len(), 1);
            assert_eq!(out[0].name, "Accept");
        },
        _ => panic!("expected a forward"),
    }
}

#[test]
fn no_upstream_at_all_is_503() {
    let reg = Registry::new();
    let router = Router::new();
    let headers = vec![header("Host", "example.com")];
    let outcome = route_request(&router, &reg, false, "/x", "/x", &headers);
    match outcome {
        GatewayOutcome::Reject { status } => assert_eq!(status, 503),
        _ => panic!("expected a rejection"),
    }
}

#[test]
fn connect_acknowledges_through_fastest_upstream() {
    let mut reg = Registry::new();
    reg.upsert_discovered(record("http://p1:8000", "1.1.1.1", 40, "US"));
    reg.upsert_discovered(record("http://p2:8000", "2.2.2.2", 10, "SG"));
    let router = Router::new();
    let headers: Vec<Header> = Vec::new();
    let outcome = route_request(&router, &reg, true, "example.com:443", "", &headers);
    match outcome {
        GatewayOutcome::ConnectEstablished { proxy } => assert_eq!(proxy.ip, "2.2.2.2"),
        _ => panic!("expected a CONNECT acknowledgement"),
    }
}

#[test]
fn connect_without_upstream_is_503() {
    let reg = Registry::new();
    let router = Router::new();
    let headers: Vec<Header> = Vec::new();
    let outcome = route_request(&router, &reg, true, "example.com:443", "", &headers);
    match outcome {
        GatewayOutcome::Reject { status } => assert_eq!(status, 503),
        _ => panic!("expected a rejection"),
    }
}

#[test]
fn bogus_strategy_routes_like_min_latency() {
    let mut reg = Registry::new();
    reg.upsert_discovered(record("http://p1:8000", "1.1.1.1", 40, "US"));
    reg.upsert_discovered(record("http://p2:8000", "2.2.2.2", 10, "SG"));
    let router = Router::new();
    let bogus = vec![header("Host", "example.com"), header("X-Proxy-Strategy", "bogus")];
    let none: Vec<Header> = vec![header("Host", "example.com")];
    let via_bogus = route_request(&router, &reg, false, "/x", "/x", &bogus);
    let via_default = route_request(&router, &reg, false, "/x", "/x", &none);
    let url_of = |o: GatewayOutcome| match o {
        GatewayOutcome::Forward { proxy, .. } => proxy.url,
        _ => panic!("expected a forward"),
    };
    assert_eq!(url_of(via_bogus), url_of(via_default));
}
