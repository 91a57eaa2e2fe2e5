use marstart_link::address::{Ipv4Addr, SocketAddr, SocketAddrV4};
use marstart_link::arith::Op;
use marstart_link::metrics::{MetricsStore, PingSample};
use marstart_link::profiles::EndpointSpec;
use marstart_link::routes::{EvalReason, RouteManager};
use marstart_link::scalar::Scalar;
use marstart_link::snapshot::{Health, RouteSnapshotEngine};

fn sc(x: f32) -> Scalar {
    Scalar { bits: x.to_bits() }
}

fn fl(s: Scalar) -> f32 {
    f32::from_bits(s.bits)
}

fn unit(op: Op) -> Scalar {
    match op {
        Op::Plus(a, b) => sc(fl(a) + fl(b)),
        Op::Minus(a, b) => sc(fl(a) - fl(b)),
        Op::Times(a, b) => sc(fl(a) * fl(b)),
        Op::Over(a, b) => sc(fl(a) / fl(b)),
        Op::Root(a) => sc(fl(a).sqrt()),
        Op::Whole(n) => sc(n as f32),
    }
}

fn specs(items: &[(&str, f32)]) -> Vec<EndpointSpec> {
    items
        .iter()
        .map(|(id, w)| EndpointSpec {
            id: (*id).to_string(),
            addr: SocketAddr::V4(SocketAddrV4 {
                ip: Ipv4Addr::new(127, 0, 0, 1),
                port: 0,
            }),
            label: (*id).to_string(),
            weight: sc(*w),
        })
        .collect()
}

fn make(items: &[(&str, f32)]) -> (RouteManager, MetricsStore, RouteSnapshotEngine) {
    let mut mgr = RouteManager::new();
    mgr.set_candidates(specs(items));
    (mgr, MetricsStore::new(), RouteSnapshotEngine::new(0))
}

fn push_ok(m: &mut MetricsStore, id: &str, rtt_ms: f32) {
    m.push(
        id,
        PingSample {
            rtt_ms: Some(sc(rtt_ms)),
            timestamp_ms: 1_700_000_000_000,
        },
    );
}

fn push_lost(m: &mut MetricsStore, id: &str) {
    m.push(
        id,
        PingSample {
            rtt_ms: None,
            timestamp_ms: 1_700_000_000_000,
        },
    );
}

fn seed_good(m: &mut MetricsStore, id: &str, rtt: f32) {
    for _ in 0..10 {
        push_ok(m, id, rtt);
    }
}

fn seed_bad(m: &mut MetricsStore, id: &str) {
    for _ in 0..3 {
        push_ok(m, id, 30.0);
    }
    for _ in 0..7 {
        push_lost(m, id);
    }
}

fn set_targets_and_pump(snap: &mut RouteSnapshotEngine, metrics: &MetricsStore, ids: &[&str]) {
    snap.set_targets(ids.iter().map(|s| s.to_string()).collect());
    let _ = snap.refresh_now(&unit, metrics, 0);
}

#[test]
fn set_candidates_populates_state() {
    let (mgr, _, snap) = make(&[("a", 1.0), ("b", 2.0)]);
    let s = mgr.state(&snap);
    assert_eq!(s.candidates.len(), 2);
}

#[test]
fn remove_candidate_clears_stale_manual() {
    let (mut mgr, _, snap) = make(&[("a", 1.0), ("b", 1.0)]);
    mgr.select_manual("a").unwrap();
    assert!(mgr.state(&snap).manual_override.is_some());
    mgr.set_candidates(specs(&[("b", 1.0)]));
    assert!(mgr.state(&snap).manual_override.is_none());
}

#[test]
fn select_manual_rejects_unknown_id() {
    let (mut mgr, _, _) = make(&[("a", 1.0)]);
    assert!(mgr.select_manual("z").is_err());
}

#[test]
fn weighted_score_prefers_higher_weight() {
    let (mut mgr, mut metrics, mut snap) = make(&[("a", 1.0), ("b", 2.0)]);
    set_targets_and_pump(&mut snap, &metrics, &["a", "b"]);
    seed_good(&mut metrics, "a", 50.0);
    seed_good(&mut metrics, "b", 50.0);
    let _ = snap.refresh_now(&unit, &metrics, 0);
    let ev = mgr.evaluate(&unit, &snap, 5_000_100);
    let a = ev.scores.iter().find(|s| s.id == "a").unwrap();
    let b = ev.scores.iter().find(|s| s.id == "b").unwrap();
    assert!(fl(b.weighted_score) < fl(a.weighted_score));
    assert_eq!(ev.recommended.as_deref(), Some("b"));
}

#[test]
fn evaluate_picks_lowest_weighted_among_healthy() {
    let (mut mgr, mut metrics, mut snap) = make(&[("a", 1.0), ("b", 1.0)]);
    set_targets_and_pump(&mut snap, &metrics, &["a", "b"]);
    seed_good(&mut metrics, "a", 30.0);
    seed_good(&mut metrics, "b", 80.0);
    let _ = snap.refresh_now(&unit, &metrics, 0);
    let ev = mgr.evaluate(&unit, &snap, 5_000_100);
    assert_eq!(ev.recommended.as_deref(), Some("a"));
}

#[test]
fn evaluate_skips_bad_routes() {
    let (mut mgr, mut metrics, mut snap) = make(&[("good", 1.0), ("bad", 1.0)]);
    set_targets_and_pump(&mut snap, &metrics, &["good", "bad"]);
    seed_good(&mut metrics, "good", 30.0);
    seed_bad(&mut metrics, "bad");
    let _ = snap.refresh_now(&unit, &metrics, 0);
    let ev = mgr.evaluate(&unit, &snap, 5_000_100);
    assert_eq!(ev.recommended.as_deref(), Some("good"));
}

#[test]
fn evaluate_falls_back_when_all_bad() {
    let (mut mgr, mut metrics, mut snap) = make(&[("a", 1.0), ("b", 1.0)]);
    set_targets_and_pump(&mut snap, &metrics, &["a", "b"]);
    seed_bad(&mut metrics, "a");
    seed_bad(&mut metrics, "b");
    let _ = snap.refresh_now(&unit, &metrics, 0);
    let ev = mgr.evaluate(&unit, &snap, 5_000_100);
    assert!(ev.recommended.is_some());
}

#[test]
fn manual_override_beats_auto() {
    let (mut mgr, mut metrics, mut snap) = make(&[("a", 1.0), ("b", 1.0)]);
    set_targets_and_pump(&mut snap, &metrics, &["a", "b"]);
    seed_good(&mut metrics, "a", 30.0);
    seed_good(&mut metrics, "b", 80.0);
    let _ = snap.refresh_now(&unit, &metrics, 0);
    mgr.select_manual("b").unwrap();
    let ev = mgr.evaluate(&unit, &snap, 5_000_100);
    assert_eq!(ev.recommended.as_deref(), Some("b"));
    assert_eq!(ev.reason, EvalReason::ManualOverride);
}

#[test]
fn clear_manual_reverts_to_auto() {
    let (mut mgr, mut metrics, mut snap) = make(&[("a", 1.0), ("b", 1.0)]);
    set_targets_and_pump(&mut snap, &metrics, &["a", "b"]);
    seed_good(&mut metrics, "a", 30.0);
    seed_good(&mut metrics, "b", 80.0);
    let _ = snap.refresh_now(&unit, &metrics, 0);
    mgr.select_manual("b").unwrap();
    let ev = mgr.evaluate(&unit, &snap, 5_000_100);
    assert_eq!(ev.recommended.as_deref(), Some("b"));
    mgr.clear_manual();
    let ev = mgr.evaluate(&unit, &snap, 5_000_100);
    assert_eq!(ev.recommended.as_deref(), Some("a"));
}

#[test]
fn commit_updates_current_and_idempotent() {
    let (mut mgr, mut metrics, mut snap) = make(&[("a", 1.0)]);
    set_targets_and_pump(&mut snap, &metrics, &["a"]);
    seed_good(&mut metrics, "a", 30.0);
    let _ = snap.refresh_now(&unit, &metrics, 0);
    assert!(mgr.current(&snap).is_none());
    mgr.commit(&mut snap, Some("a".into()), 5_000_000);
    assert_eq!(mgr.current(&snap).as_deref(), Some("a"));
    let t1 = mgr.state(&snap).last_switch_ms;
    mgr.commit(&mut snap, Some("a".into()), 5_000_000);
    let t2 = mgr.state(&snap).last_switch_ms;
    assert_eq!(t1, t2);
}

#[test]
fn cooldown_blocks_recommended_switch() {
    let (mut mgr, mut metrics, mut snap) = make(&[("a", 1.0), ("b", 1.0)]);
    set_targets_and_pump(&mut snap, &metrics, &["a", "b"]);
    seed_good(&mut metrics, "a", 30.0);
    seed_good(&mut metrics, "b", 80.0);
    let _ = snap.refresh_now(&unit, &metrics, 0);
    mgr.set_cooldown_ms(10_000);
    mgr.commit(&mut snap, Some("a".into()), 5_000_000);
    seed_good(&mut metrics, "b", 10.0);
    let _ = snap.refresh_now(&unit, &metrics, 0);
    let ev = mgr.evaluate(&unit, &snap, 5_000_100);
    assert_eq!(ev.recommended.as_deref(), Some("b"));
    assert_eq!(ev.reason, EvalReason::CooldownBlocked);
}

#[test]
fn mod_emergency_bypass_when_current_is_bad() {
    let (mut mgr, mut metrics, mut snap) = make(&[("a", 1.0), ("b", 1.0)]);
    set_targets_and_pump(&mut snap, &metrics, &["a", "b"]);
    seed_good(&mut metrics, "a", 30.0);
    seed_good(&mut metrics, "b", 80.0);
    let _ = snap.refresh_now(&unit, &metrics, 0);
    mgr.set_cooldown_ms(10_000);
    mgr.commit(&mut snap, Some("a".into()), 5_000_000);
    for _ in 0..30 {
        push_lost(&mut metrics, "a");
    }
    for _ in 0..4 {
        let _ = snap.refresh_now(&unit, &metrics, 0);
    }
    assert_eq!(mgr.health_of(&snap, "a"), Health::Bad);
    let ev = mgr.evaluate(&unit, &snap, 5_000_100);
    assert_eq!(ev.recommended.as_deref(), Some("b"));
    assert_eq!(ev.reason, EvalReason::EmergencyBypass);
}

#[test]
fn health_of_delegates_to_snapshot() {
    let (mut mgr, mut metrics, mut snap) = make(&[("a", 1.0)]);
    set_targets_and_pump(&mut snap, &metrics, &["a"]);
    seed_good(&mut metrics, "a", 30.0);
    let _ = snap.refresh_now(&unit, &metrics, 0);
    assert_eq!(mgr.health_of(&snap, "a"), Health::Good);
    assert_eq!(mgr.health_of(&snap, "missing"), Health::Unknown);
}

#[test]
fn no_change_when_recommended_equals_current() {
    let (mut mgr, mut metrics, mut snap) = make(&[("a", 1.0)]);
    set_targets_and_pump(&mut snap, &metrics, &["a"]);
    seed_good(&mut metrics, "a", 30.0);
    let _ = snap.refresh_now(&unit, &metrics, 0);
    mgr.commit(&mut snap, Some("a".into()), 5_000_000);
    let ev = mgr.evaluate(&unit, &snap, 5_000_100);
    assert_eq!(ev.reason, EvalReason::NoChange);
}

#[test]
fn unknown_route_is_named_in_the_error() {
    let (mut mgr, _, _) = make(&[("a", 1.0)]);
    assert_eq!(mgr.select_manual("z"), Err("unknown route id: z".to_string()));
}

#[test]
fn no_candidates_no_recommendation() {
    let (mgr, _, snap) = make(&[]);
    let ev = mgr.evaluate(&unit, &snap, 0);
    assert_eq!(ev.reason, EvalReason::NoCandidates);
    assert!(ev.recommended.is_none());
    assert!(ev.scores.is_empty());
}

#[test]
fn cooldown_runs_from_the_last_switch() {
    let (mut mgr, _, mut snap) = make(&[("a", 1.0)]);
    mgr.set_cooldown_ms(1000);
    mgr.commit(&mut snap, Some("a".into()), 5000);
    assert!(!mgr.can_switch(5999));
    assert!(mgr.can_switch(6000));
    assert!(!mgr.can_switch(4000));
    assert_eq!(mgr.cooldown_ms(), 1000);
}

#[test]
fn last_candidate_with_an_id_counts() {
    let (mgr, _, _) = make(&[("a", 1.0), ("b", 1.0), ("a", 3.0)]);
    let all = mgr.candidates();
    assert_eq!(all.len(), 2);
    assert_eq!(all[0].id, "a");
    assert_eq!(fl(all[0].weight), 3.0);
}

#[test]
fn weight_has_a_floor() {
    let (mgr, _, _) = make(&[("a", 0.0)]);
    assert!(fl(mgr.candidates()[0].weight) > 0.0);
}
