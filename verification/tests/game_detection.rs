use marstart_link::arith::Op;
use marstart_link::game_detection::{DetectionReason, GameDetector, GameProfile};
use marstart_link::scalar::Scalar;

fn sc(x: f32) -> Scalar {
    Scalar { bits: x.to_bits() }
}

fn fl(s: Scalar) -> f32 {
    f32::from_bits(s.bits)
}

fn unit(op: Op) -> Scalar {
    match op {
        Op::Plus(a, b) => sc(fl(a) + fl(b)),
        Op::Minus(a, b) => sc(fl(a) - fl(b)),
        Op::Times(a, b) => sc(fl(a) * fl(b)),
        Op::Over(a, b) => sc(fl(a) / fl(b)),
        Op::Root(a) => sc(fl(a).sqrt()),
        Op::Whole(n) => sc(n as f32),
    }
}

#[test]
fn idle_signal_when_no_activity() {
    let mut det = GameDetector::new();
    let sig = det.compute_signal(&unit, 1_700_000_000_000);
    assert!(!sig.detected);
    assert_eq!(fl(sig.confidence), 0.0);
    assert_eq!(sig.reason, DetectionReason::Idle);
}

#[test]
fn process_match_triggers_signal() {
    let mut det = GameDetector::new();
    det.set_cached_matches(vec!["cs2.exe".to_string()]);
    let sig = det.compute_signal(&unit, 1_700_000_000_000);
    assert!(sig.detected);
    assert_eq!(sig.game_id.as_deref(), Some("cs2"));
    assert_eq!(sig.game_name.as_deref(), Some("Counter-Strike 2"));
    assert!(fl(sig.confidence) >= 0.5);
    assert_eq!(sig.reason, DetectionReason::Process);
}

#[test]
fn udp_burst_triggers_signal() {
    let mut det = GameDetector::new();
    let now = 1_700_000_000_000;
    for i in 0..50i64 {
        det.observe_udp_at(27015, 100, now - i);
    }
    let sig = det.compute_signal(&unit, 1_700_000_000_000);
    assert!(sig.detected);
    assert_eq!(sig.game_id.as_deref(), Some("cs2"));
    assert_eq!(sig.reason, DetectionReason::UdpBurst);
    assert!(fl(sig.confidence) >= 0.5);
}

#[test]
fn both_signals_increase_confidence() {
    let mut det = GameDetector::new();
    det.set_cached_matches(vec!["cs2.exe".to_string()]);
    let now = 1_700_000_000_000;
    for i in 0..50i64 {
        det.observe_udp_at(27015, 100, now - i);
    }
    let sig = det.compute_signal(&unit, 1_700_000_000_000);
    assert!(sig.detected);
    assert!(fl(sig.confidence) >= 0.95);
    assert_eq!(sig.reason, DetectionReason::Both);
}

#[test]
fn burst_window_prunes_old_packets() {
    let mut det = GameDetector::new();
    let now = 1_700_000_000_000;
    for _ in 0..50 {
        det.observe_udp_at(27015, 100, now - 2000);
    }
    let sig = det.compute_signal(&unit, 1_700_000_000_000);
    assert!(!sig.detected);
}

#[test]
fn burst_outside_port_range_does_not_count() {
    let mut det = GameDetector::new();
    let now = 1_700_000_000_000;
    for i in 0..50i64 {
        det.observe_udp_at(30000, 100, now - i);
    }
    let sig = det.compute_signal(&unit, 1_700_000_000_000);
    assert!(!sig.detected);
}

#[test]
fn burst_above_max_size_does_not_count() {
    let mut det = GameDetector::new();
    let now = 1_700_000_000_000;
    for i in 0..50i64 {
        det.observe_udp_at(27015, 1000, now - i);
    }
    let sig = det.compute_signal(&unit, 1_700_000_000_000);
    assert!(!sig.detected);
}

#[test]
fn custom_profile_can_be_registered() {
    let mut det = GameDetector::new();
    let custom = GameProfile {
        id: "test_game".to_string(),
        name: "Test Game".to_string(),
        process_names: vec!["test.exe".to_string()],
        udp_ports: vec![12345],
        burst_threshold_pps: sc(5.0),
        max_packet_size: 500,
    };
    det.register_profile(custom);
    let now = 1_700_000_000_000;
    for i in 0..10i64 {
        det.observe_udp_at(12345, 200, now - i);
    }
    let sig = det.compute_signal(&unit, 1_700_000_000_000);
    assert_eq!(sig.game_id.as_deref(), Some("test_game"));
}

#[test]
fn custom_profile_replaces_existing_with_same_id() {
    let mut det = GameDetector::new();
    let mut p = det.list_profiles().into_iter().find(|p| p.id == "cs2").unwrap();
    p.burst_threshold_pps = sc(999.0);
    det.register_profile(p);
    let profile = det.list_profiles().into_iter().find(|p| p.id == "cs2").unwrap();
    assert!((fl(profile.burst_threshold_pps) - 999.0).abs() < 0.01);
}

#[test]
fn scan_throttles_within_one_second() {
    let mut det = GameDetector::new();
    assert_eq!(det.scan_count(), 0);
    det.scan_processes(1_700_000_000_000, || Vec::new());
    assert_eq!(det.scan_count(), 1);
    det.scan_processes(1_700_000_000_000 + 10, || Vec::new());
    assert_eq!(det.scan_count(), 1);
}

#[test]
fn unregister_profile_removes_it() {
    let mut det = GameDetector::new();
    assert!(det.list_profiles().iter().any(|p| p.id == "cs2"));
    assert!(det.unregister_profile("cs2"));
    assert!(!det.list_profiles().iter().any(|p| p.id == "cs2"));
    assert!(!det.unregister_profile("cs2"));
}

#[test]
fn current_returns_last_signal() {
    let mut det = GameDetector::new();
    assert!(!det.current().detected);
    det.set_cached_matches(vec!["cs2.exe".to_string()]);
    let _ = det.compute_signal(&unit, 1_700_000_000_000);
    assert!(det.current().detected);
    assert_eq!(det.current().game_id.as_deref(), Some("cs2"));
}

#[test]
fn scan_finds_processes_whatever_their_case() {
    let mut det = GameDetector::new();
    let found = det.scan_processes(1_700_000_000_000, || {
        vec!["explorer.exe".to_string(), "CS2.EXE".to_string()]
    });
    assert_eq!(found.len(), 1);
    assert_eq!(found[0].to_lowercase(), "cs2.exe");
    let sig = det.compute_signal(&unit, 1_700_000_000_000);
    assert_eq!(sig.game_id.as_deref(), Some("cs2"));
}

#[test]
fn scan_runs_again_after_a_second() {
    let mut det = GameDetector::new();
    det.scan_processes(1_700_000_000_000, || Vec::new());
    det.scan_processes(1_700_000_000_999, || Vec::new());
    assert_eq!(det.scan_count(), 1);
    det.scan_processes(1_700_000_001_000, || Vec::new());
    assert_eq!(det.scan_count(), 2);
}

#[test]
fn a_game_can_be_forced() {
    let mut det = GameDetector::new();
    det.force_active("cs2");
    let sig = det.compute_signal(&unit, 1_700_000_000_000);
    assert!(sig.detected);
    assert_eq!(sig.reason, DetectionReason::Process);
    det.force_active("no such game");
    assert!(!det.compute_signal(&unit, 1_700_000_000_000).detected);
}

#[test]
fn stale_packets_behind_a_fresh_one_do_not_count() {
    let now = 1_700_000_000_000;
    let mut det = GameDetector::new();
    det.observe_udp_at(27015, 100, now);
    for _ in 0..39 {
        det.observe_udp_at(27015, 100, now - 2000);
    }
    let sig = det.compute_signal(&unit, now);
    assert!(!sig.detected);
    assert_eq!(sig.reason, DetectionReason::Idle);
    assert_eq!(fl(sig.confidence), 0.0);
    for _ in 0..38 {
        det.observe_udp_at(27015, 100, now - 1000);
    }
    assert!(!det.compute_signal(&unit, now).detected);
    det.observe_udp_at(27015, 100, now - 1000);
    let sig = det.compute_signal(&unit, now);
    assert!(sig.detected);
    assert_eq!(sig.reason, DetectionReason::UdpBurst);
    assert!(!det.compute_signal(&unit, now + 1).detected);
}
