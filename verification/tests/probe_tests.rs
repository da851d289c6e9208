use roxy::IpInfo;
use roxy::IpList;
use roxy::ProbeError;
use roxy::Registry;
use roxy::latency::MAX_CONCURRENT;
use roxy::latency::parse_ping_latency;
use roxy::latency::plan_sweep;

fn record(url: &str, ip: &str, latency: i32) -> IpInfo {
    IpInfo {
        url: url.to_string(),
        ip: ip.to_string(),
        isp: "isp".to_string(),
        country: "country".to_string(),
        latency,
        code: "XX".to_string(),
    }
}

#[test]
fn parse_reads_truncated_milliseconds() {
    let out = "64 bytes from 8.8.8.8: icmp_seq=1 ttl=117 time=23.4 ms";
    assert_eq!(parse_ping_latency(out), Ok(23));
}

#[test]
fn parse_reads_integer_time() {
    assert_eq!(parse_ping_latency("time=7 ms"), Ok(7));
}

#[test]
fn parse_without_marker_is_unreachable() {
    let out = "PING 10.0.0.1 (10.0.0.1) 56(84) bytes of data.\n\n--- 10.0.0.1 ping statistics ---\n1 packets transmitted, 0 received, 100% packet loss";
    assert_eq!(parse_ping_latency(out), Err(ProbeError::Unreachable));
}

#[test]
fn parse_marker_without_digit_is_unreachable() {
    assert_eq!(parse_ping_latency("time=abc ms"), Err(ProbeError::Unreachable));
}

#[test]
fn parse_failed_line_moves_to_the_next() {
    assert_eq!(parse_ping_latency("rtt time=x ms\nrtt time=41.9 ms"), Ok(41));
}

#[test]
fn parse_never_rescans_a_failed_line() {
    // the second marker of a failed line is not read
    assert_eq!(
        parse_ping_latency("time=bad time=7 ms"),
        Err(ProbeError::Unreachable)
    );
    assert_eq!(parse_ping_latency("time=bad time=7 ms\ntime=8.2 ms"), Ok(8));
}

#[test]
fn parse_exponent_is_not_a_decimal() {
    assert_eq!(parse_ping_latency("time=1e3 ms"), Err(ProbeError::Unreachable));
}

#[test]
fn parse_trailing_garbage_is_no_time() {
    assert_eq!(parse_ping_latency("time=5x ms"), Err(ProbeError::Unreachable));
}

#[test]
fn parse_leading_dot_is_no_time() {
    assert_eq!(parse_ping_latency("time=.5 ms"), Err(ProbeError::Unreachable));
}

#[test]
fn parse_empty_fraction_truncates() {
    assert_eq!(parse_ping_latency("time=12. ms"), Ok(12));
}

#[test]
fn parse_takes_the_first_time() {
    assert_eq!(parse_ping_latency("time=12.0 ms\nextra time=99.9 ms"), Ok(12));
}

#[test]
fn parse_overlong_value_fails() {
    assert_eq!(
        parse_ping_latency("time=99999999999999999999 ms"),
        Err(ProbeError::ParseFailure)
    );
}

#[test]
fn parse_leading_zeros_stay_small() {
    assert_eq!(parse_ping_latency("time=000000000012 ms"), Ok(12));
}

#[test]
fn sweep_covers_a_short_list_in_one_wave() {
    let ips: Vec<IpList> = (0..3)
        .map(|i| IpList { ip: format!("10.0.0.{}", i) })
        .collect();
    let plan = plan_sweep(&ips, 0);
    assert_eq!(plan.len(), 3);
    assert_eq!(plan[0], "10.0.0.0");
    assert_eq!(plan[2], "10.0.0.2");
    assert!(plan_sweep(&ips, 3).is_empty());
}

#[test]
fn sweep_waves_cap_concurrency_and_cover_every_address() {
    let ips: Vec<IpList> = (0..120)
        .map(|i| IpList { ip: format!("10.0.{}.{}", i / 100, i % 100) })
        .collect();
    let mut covered: Vec<String> = Vec::new();
    let mut start: usize = 0;
    loop {
        let wave = plan_sweep(&ips, start);
        if wave.is_empty() {
            break;
        }
        // the hard cap on probes in flight at once
        assert!(wave.len() <= MAX_CONCURRENT);
        start += wave.len();
        covered.extend(wave);
    }
    // every tracked address is probed, in registry order
    assert_eq!(covered.len(), 120);
    for (i, ip) in covered.iter().enumerate() {
        assert_eq!(*ip, ips[i].ip);
    }
}

#[test]
fn sweep_wave_boundaries_tile_the_list() {
    let ips: Vec<IpList> = (0..70)
        .map(|i| IpList { ip: format!("10.1.0.{}", i) })
        .collect();
    let first = plan_sweep(&ips, 0);
    let second = plan_sweep(&ips, MAX_CONCURRENT);
    assert_eq!(first.len(), MAX_CONCURRENT);
    assert_eq!(second.len(), 20);
    assert_eq!(first[0], "10.1.0.0");
    assert_eq!(second[0], "10.1.0.50");
    assert_eq!(second[19], "10.1.0.69");
    assert!(plan_sweep(&ips, 70).is_empty());
}

#[test]
fn interrupted_sweep_keeps_committed_updates_only() {
    let mut reg = Registry::new();
    reg.upsert_discovered(record("http://p1:8000", "1.1.1.1", 0));
    reg.upsert_discovered(record("http://p2:8000", "2.2.2.2", 0));
    reg.upsert_discovered(record("http://p3:8000", "3.3.3.3", 0));
    // two probes finished before the sweep deadline; the third never reported
    reg.update_latency("1.1.1.1", 21);
    reg.update_latency("2.2.2.2", 34);
    assert_eq!(reg.get(0).latency, 21);
    assert_eq!(reg.get(1).latency, 34);
    assert_eq!(reg.get(2).latency, 0);
    assert_eq!(reg.get(2).url, "http://p3:8000");
}
