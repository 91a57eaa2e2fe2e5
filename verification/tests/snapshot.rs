use marstart_link::arith::Op;
use marstart_link::metrics::{MetricsStore, PingSample};
use marstart_link::scalar::Scalar;
use marstart_link::snapshot::{
    compute_score, derive_health, Health, RouteSnapshotEngine, MAX_INTERVAL_MS, MIN_INTERVAL_MS,
};

fn sc(x: f32) -> Scalar {
    Scalar { bits: x.to_bits() }
}

fn fl(s: Scalar) -> f32 {
    f32::from_bits(s.bits)
}

fn unit(op: Op) -> Scalar {
    match op {
        Op::Plus(a, b) => sc(fl(a) + fl(b)),
        Op::Minus(a, b) => sc(fl(a) - fl(b)),
        Op::Times(a, b) => sc(fl(a) * fl(b)),
        Op::Over(a, b) => sc(fl(a) / fl(b)),
        Op::Root(a) => sc(fl(a).sqrt()),
        Op::Whole(n) => sc(n as f32),
    }
}

fn push_ok(m: &mut MetricsStore, id: &str, rtt_ms: f32) {
    m.push(
        id,
        PingSample {
            rtt_ms: Some(sc(rtt_ms)),
            timestamp_ms: 1_700_000_000_000,
        },
    );
}

fn push_lost(m: &mut MetricsStore, id: &str) {
    m.push(
        id,
        PingSample {
            rtt_ms: None,
            timestamp_ms: 1_700_000_000_000,
        },
    );
}

#[test]
fn score_lower_for_better_rtt() {
    let mut m = MetricsStore::new();
    push_ok(&mut m, "good", 10.0);
    push_ok(&mut m, "bad", 100.0);
    let a = m.aggregated(&unit, "good").unwrap();
    let b = m.aggregated(&unit, "bad").unwrap();
    assert!(fl(compute_score(&unit, &a)) < fl(compute_score(&unit, &b)));
}

#[test]
fn score_infinite_when_no_rtt() {
    let mut m = MetricsStore::new();
    push_lost(&mut m, "x");
    let agg = m.aggregated(&unit, "x").unwrap();
    assert!(fl(compute_score(&unit, &agg)).is_infinite());
}

#[test]
fn health_bad_under_high_loss() {
    let mut m = MetricsStore::new();
    for _ in 0..5 {
        push_ok(&mut m, "x", 30.0);
    }
    for _ in 0..5 {
        push_lost(&mut m, "x");
    }
    let agg = m.aggregated(&unit, "x").unwrap();
    assert!(fl(agg.loss_ratio) > 0.10);
    assert_eq!(derive_health(&agg), Health::Bad);
}

#[test]
fn health_degraded_under_moderate_loss() {
    let mut m = MetricsStore::new();
    for _ in 0..19 {
        push_ok(&mut m, "x", 30.0);
    }
    push_lost(&mut m, "x");
    let agg = m.aggregated(&unit, "x").unwrap();
    assert!(fl(agg.loss_ratio) > 0.03);
    assert!(fl(agg.loss_ratio) < 0.10);
    assert_eq!(derive_health(&agg), Health::Degraded);
}

#[test]
fn health_hysteresis_resists_flicker() {
    let mut m = MetricsStore::new();
    let mut eng = RouteSnapshotEngine::new(0);
    eng.set_targets(vec!["x".to_string()]);
    for _ in 0..100 {
        push_ok(&mut m, "x", 20.0);
    }
    let s1 = eng.refresh_now(&unit, &m, 0);
    assert_eq!(s1.health_of("x"), Health::Good);
    for _ in 0..5 {
        push_lost(&mut m, "x");
    }
    let s2 = eng.refresh_now(&unit, &m, 0);
    assert_eq!(s2.health_of("x"), Health::Good);
    let s3 = eng.refresh_now(&unit, &m, 0);
    assert_eq!(s3.health_of("x"), Health::Good);
    let s4 = eng.refresh_now(&unit, &m, 0);
    assert_eq!(s4.health_of("x"), Health::Degraded);
}

#[test]
fn hysteresis_no_prev_means_no_hysteresis() {
    let mut m = MetricsStore::new();
    let mut eng = RouteSnapshotEngine::new(0);
    eng.set_targets(vec!["x".to_string()]);
    for _ in 0..10 {
        push_lost(&mut m, "x");
    }
    let s = eng.refresh_now(&unit, &m, 0);
    assert_eq!(s.health_of("x"), Health::Bad);
}

#[test]
fn set_selected_round_trips() {
    let mut m = MetricsStore::new();
    let mut eng = RouteSnapshotEngine::new(0);
    eng.set_targets(vec!["a".to_string(), "b".to_string()]);
    eng.set_selected(Some("a".to_string()));
    let snap = eng.refresh_now(&unit, &m, 0);
    assert_eq!(snap.selected.as_deref(), Some("a"));
}

#[test]
fn set_interval_clamps() {
    let mut m = MetricsStore::new();
    let mut eng = RouteSnapshotEngine::new(0);
    eng.set_interval_ms(5);
    assert!(eng.interval_ms() >= MIN_INTERVAL_MS);
    eng.set_interval_ms(10_000);
    assert!(eng.interval_ms() <= MAX_INTERVAL_MS);
}

#[test]
fn empty_targets_yields_empty_snapshot() {
    let mut m = MetricsStore::new();
    let mut eng = RouteSnapshotEngine::new(0);
    let snap = eng.refresh_now(&unit, &m, 0);
    assert!(snap.routes.is_empty());
    assert!(snap.selected.is_none());
}

#[test]
fn healthy_includes_good_and_degraded_only() {
    let mut m = MetricsStore::new();
    let mut eng = RouteSnapshotEngine::new(0);
    eng.set_targets(vec!["g".into(), "d".into(), "b".into(), "u".into()]);
    for _ in 0..10 {
        push_ok(&mut m, "g", 20.0);
        push_ok(&mut m, "d", 130.0);
        push_ok(&mut m, "b", 20.0);
        push_lost(&mut m, "b");
    }
    let snap = eng.refresh_now(&unit, &m, 0);
    let mut ids: Vec<String> = snap.healthy().into_iter().map(|(id, _)| id).collect();
    ids.sort();
    assert_eq!(ids, vec!["d".to_string(), "g".to_string()]);
}

#[test]
fn score_is_the_weighted_sum() {
    let mut m = MetricsStore::new();
    push_ok(&mut m, "x", 10.0);
    push_ok(&mut m, "x", 30.0);
    let agg = m.aggregated(&unit, "x").unwrap();
    assert_eq!(fl(compute_score(&unit, &agg)), 60.0);
    push_lost(&mut m, "x");
    push_lost(&mut m, "x");
    let agg = m.aggregated(&unit, "x").unwrap();
    assert_eq!(fl(compute_score(&unit, &agg)), 560.0);
}

#[test]
fn a_route_that_got_faster_counts_as_fast() {
    let mut m = MetricsStore::new();
    let mut eng = RouteSnapshotEngine::new(0);
    eng.set_targets(vec!["down".to_string(), "up".to_string()]);
    push_ok(&mut m, "down", 30.0);
    push_ok(&mut m, "down", 10.0);
    push_ok(&mut m, "up", 10.0);
    push_ok(&mut m, "up", 30.0);
    let snap = eng.refresh_now(&unit, &m, 0);
    assert_eq!(fl(snap.route("down").unwrap().score), 50.0);
    assert_eq!(fl(snap.route("up").unwrap().score), 60.0);
    let agg = m.aggregated(&unit, "down").unwrap();
    assert_eq!(fl(compute_score(&unit, &agg)), 60.0);
}

#[test]
fn interval_limits_are_exact() {
    let mut eng = RouteSnapshotEngine::new(0);
    eng.set_interval_ms(0);
    assert_eq!(eng.interval_ms(), MIN_INTERVAL_MS);
    eng.set_interval_ms(u64::MAX);
    assert_eq!(eng.interval_ms(), MAX_INTERVAL_MS);
    eng.set_interval_ms(MIN_INTERVAL_MS + 1);
    assert_eq!(eng.interval_ms(), MIN_INTERVAL_MS + 1);
}

#[test]
fn a_change_of_route_is_told_once() {
    let m = MetricsStore::new();
    let mut eng = RouteSnapshotEngine::new(0);
    let first = eng.refresh_now(&unit, &m, 1);
    assert!(!eng.announce(&first));
    eng.set_selected(Some("a".to_string()));
    let second = eng.refresh_now(&unit, &m, 2);
    assert!(eng.announce(&second));
    assert!(!eng.announce(&second));
    assert_eq!(eng.current().timestamp_ms, 2);
}

#[test]
fn a_target_that_stays_keeps_its_class() {
    let mut m = MetricsStore::new();
    let mut eng = RouteSnapshotEngine::new(0);
    eng.set_targets(vec!["x".to_string()]);
    for _ in 0..100 {
        push_ok(&mut m, "x", 20.0);
    }
    eng.refresh_now(&unit, &m, 0);
    for _ in 0..5 {
        push_lost(&mut m, "x");
    }
    eng.set_targets(vec!["y".to_string(), "x".to_string()]);
    let s = eng.refresh_now(&unit, &m, 0);
    assert_eq!(s.health_of("x"), Health::Good);
    assert_eq!(s.health_of("y"), Health::Unknown);
    assert_eq!(s.routes.len(), 2);
    assert!(s.route("x").is_some());
    assert!(s.route("z").is_none());
}
