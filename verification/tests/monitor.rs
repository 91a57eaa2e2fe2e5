use marstart_link::address::{IpAddr, Ipv4Addr, Ipv6Addr, SocketAddr, SocketAddrV4, SocketAddrV6};
use marstart_link::metrics::MetricsStore;
use marstart_link::monitor::{default_fallback_port, MonitorConfig, MonitorService, MonitorTarget};
use marstart_link::multipath::{MultipathHeader, MAGIC};
use marstart_link::net_probe::{
    connect_result, echo_millis, echo_timeout, probe_for, Probe, ProbeResult,
};
use marstart_link::scalar::Scalar;
use std::time::Duration;

fn sc(x: f32) -> Scalar {
    Scalar { bits: x.to_bits() }
}

fn target(id: &str, a: u8, b: u8, c: u8, d: u8) -> MonitorTarget {
    MonitorTarget {
        id: id.to_string(),
        addr: IpAddr::V4(Ipv4Addr::new(a, b, c, d)),
        fallback_port: 443,
    }
}

#[test]
fn set_targets_creates_metric_slots() {
    let mut svc = MonitorService::new(MetricsStore::new());
    svc.set_targets(vec![target("a", 1, 1, 1, 1)]);
    assert!(svc.metrics().list_targets().contains(&"a".to_string()));
}

#[test]
fn set_targets_removes_orphans() {
    let mut svc = MonitorService::new(MetricsStore::new());
    svc.set_targets(vec![target("a", 1, 1, 1, 1)]);
    svc.set_targets(vec![target("b", 8, 8, 8, 8)]);
    let ids = svc.metrics().list_targets();
    assert!(!ids.contains(&"a".to_string()));
    assert!(ids.contains(&"b".to_string()));
}

#[test]
fn interval_floor_enforced() {
    let mut svc = MonitorService::new(MetricsStore::new());
    svc.set_interval(10, 10);
    let s = svc.snapshot_state();
    assert!(s.interval_ms >= 50);
}

#[test]
fn interval_floor_is_exact() {
    let mut svc = MonitorService::new(MetricsStore::new());
    assert_eq!(svc.snapshot_state().interval_ms, 1000);
    assert_eq!(svc.probe_timeout_ms(), 800);
    svc.set_interval(49, 51);
    assert_eq!(svc.snapshot_state().interval_ms, 50);
    assert_eq!(svc.probe_timeout_ms(), 51);
    let usual = MonitorConfig::default();
    assert_eq!(usual.interval_ms, 1000);
    assert!(usual.targets.is_empty());
    assert_eq!(default_fallback_port(), 443);
}

#[test]
fn starting_twice_is_no_news() {
    let mut svc = MonitorService::new(MetricsStore::new());
    assert!(svc.start());
    assert!(!svc.start());
    assert!(svc.snapshot_state().running);
    svc.stop();
    assert!(!svc.snapshot_state().running);
    assert!(svc.start());
}

#[test]
fn a_round_of_probes_is_recorded() {
    let mut svc = MonitorService::new(MetricsStore::new());
    svc.set_targets(vec![target("a", 1, 1, 1, 1), target("b", 8, 8, 8, 8)]);
    let tick = svc.record(
        &vec![("a".to_string(), Some(sc(12.0))), ("b".to_string(), None)],
        77,
    );
    assert_eq!(tick.timestamp_ms, 77);
    assert_eq!(tick.samples.len(), 2);
    assert_eq!(tick.samples[0].target_id, "a");
    assert_eq!(tick.samples[0].sample.rtt_ms, Some(sc(12.0)));
    assert_eq!(tick.samples[1].sample.rtt_ms, None);
    assert_eq!(svc.metrics().samples("a").len(), 1);
    assert_eq!(svc.metrics().samples("b")[0].timestamp_ms, 77);
}

#[test]
fn a_target_that_stays_keeps_its_samples() {
    let mut svc = MonitorService::new(MetricsStore::new());
    svc.set_targets(vec![target("a", 1, 1, 1, 1), target("b", 8, 8, 8, 8)]);
    svc.record(&vec![("a".to_string(), Some(sc(1.0)))], 1);
    svc.set_targets(vec![target("a", 1, 1, 1, 1), target("c", 9, 9, 9, 9)]);
    assert_eq!(svc.metrics().samples("a").len(), 1);
    assert_eq!(
        svc.metrics().list_targets(),
        vec!["a".to_string(), "c".to_string()]
    );
}

#[test]
fn header_layout_is_fixed() {
    let h = MultipathHeader::new(
        0x0102_0304,
        Ipv4Addr::new(10, 0, 0, 1),
        0x1122,
        Ipv4Addr::new(192, 168, 1, 2),
        0xfffe,
    );
    assert_eq!(
        h.as_bytes(),
        vec![
            0x47, 0x41, 1, 2, 3, 4, 10, 0, 0, 1, 0x11, 0x22, 192, 168, 1, 2, 0xff, 0xfe
        ]
    );
    assert_eq!(MAGIC, 0x4741);
}

#[test]
fn header_round_trips() {
    let h = MultipathHeader::new(
        u32::MAX,
        Ipv4Addr::new(1, 2, 3, 4),
        65535,
        Ipv4Addr::new(255, 0, 255, 0),
        1,
    );
    let mut packet = h.as_bytes();
    packet.extend_from_slice(&[9, 9, 9]);
    let back = MultipathHeader::parse(&packet).unwrap();
    assert_eq!(back.get_seq(), u32::MAX);
    assert_eq!(back.get_src_ip(), Ipv4Addr::new(1, 2, 3, 4));
    assert_eq!(back.get_src_port(), 65535);
    assert_eq!(back.get_dst_ip(), Ipv4Addr::new(255, 0, 255, 0));
    assert_eq!(back.get_dst_port(), 1);
    assert_eq!(back.as_bytes(), packet[..18].to_vec());
}

#[test]
fn short_or_foreign_packets_have_no_header() {
    let bytes = MultipathHeader::new(1, Ipv4Addr::new(0, 0, 0, 0), 2, Ipv4Addr::new(0, 0, 0, 0), 3)
        .as_bytes();
    assert!(MultipathHeader::parse(&bytes[..17]).is_none());
    assert!(MultipathHeader::parse(&[]).is_none());
    let mut foreign = bytes.clone();
    foreign[1] = 0x42;
    assert!(MultipathHeader::parse(&foreign).is_none());
    assert!(MultipathHeader::parse(&bytes).is_some());
}

#[test]
fn probe_results() {
    assert!(ProbeResult::ok(Duration::from_millis(5)).is_ok());
    assert!(!ProbeResult::lost().is_ok());
    assert_eq!(
        connect_result(true, Duration::from_millis(3)).rtt,
        Some(Duration::from_millis(3))
    );
    assert!(!connect_result(false, Duration::from_millis(3)).is_ok());
}

#[test]
fn probe_choice_follows_the_address() {
    let v4 = Ipv4Addr::new(1, 1, 1, 1);
    let v6 = Ipv6Addr { bits: 1 };
    assert_eq!(probe_for(IpAddr::V4(v4), 80, true), Probe::Echo(v4));
    assert_eq!(
        probe_for(IpAddr::V4(v4), 80, false),
        Probe::Connect(SocketAddr::V4(SocketAddrV4 { ip: v4, port: 80 }))
    );
    assert_eq!(
        probe_for(IpAddr::V6(v6), 53, true),
        Probe::Connect(SocketAddr::V6(SocketAddrV6 {
            ip: v6,
            port: 53,
            flowinfo: 0,
            scope_id: 0
        }))
    );
}

#[test]
fn echo_numbers() {
    assert_eq!(echo_timeout(500), 500);
    assert_eq!(echo_timeout(u32::MAX as u128), u32::MAX);
    assert_eq!(echo_timeout(u32::MAX as u128 + 1), u32::MAX);
    assert_eq!(echo_millis(1, 23), Some(23));
    assert_eq!(echo_millis(0, 23), None);
}

#[test]
fn no_targets_need_no_window() {
    let mut svc = MonitorService::new(MetricsStore::with_window(0));
    svc.set_targets(vec![]);
    assert!(svc.snapshot_state().targets.is_empty());
    let tick = svc.record(&vec![], 7);
    assert_eq!(tick.timestamp_ms, 7);
    assert!(tick.samples.is_empty());
}
