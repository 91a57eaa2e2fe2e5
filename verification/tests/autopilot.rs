use marstart_link::arith::Op;
use marstart_link::autopilot::policy::{FsmState, PolicyConfig};
use marstart_link::autopilot::{Autopilot, AutopilotIntent, DecisionReason};
use marstart_link::game_detection::{DetectionReason, GameSignal};
use marstart_link::metrics::{MetricsStore, PingSample};
use marstart_link::scalar::Scalar;
use marstart_link::snapshot::{Health, RouteSnapshot, Snapshot};

fn sc(x: f32) -> Scalar {
    Scalar { bits: x.to_bits() }
}

fn fl(s: Scalar) -> f32 {
    f32::from_bits(s.bits)
}

fn unit(op: Op) -> Scalar {
    match op {
        Op::Plus(a, b) => sc(fl(a) + fl(b)),
        Op::Minus(a, b) => sc(fl(a) - fl(b)),
        Op::Times(a, b) => sc(fl(a) * fl(b)),
        Op::Over(a, b) => sc(fl(a) / fl(b)),
        Op::Root(a) => sc(fl(a).sqrt()),
        Op::Whole(n) => sc(n as f32),
    }
}

fn no_cooldown_cfg() -> PolicyConfig {
    PolicyConfig {
        game_mode_cooldown_ms: 0,
        recovery_cooldown_ms: 0,
        stable_cooldown_ms: 0,
        degraded_cooldown_ms: 0,
        game_mode_margin: sc(0.0),
        stable_margin: sc(0.0),
        other_margin: sc(0.0),
        degraded_margin: sc(0.0),
        hysteresis_streak: 1,
    }
}

fn route(id: &str, score: f32, health: Health) -> RouteSnapshot {
    RouteSnapshot {
        route_id: id.to_string(),
        score: sc(score),
        health,
        latest_rtt_ms: None,
        avg_rtt_ms: None,
        jitter_ms: sc(0.0),
        loss_ratio: sc(0.0),
        stability: sc(0.0),
        samples: 0,
    }
}

fn snap(routes: Vec<RouteSnapshot>, selected: Option<&str>) -> Snapshot {
    Snapshot {
        routes,
        selected: selected.map(String::from),
        timestamp_ms: 1_700_000_000_000,
    }
}

fn idle_game() -> GameSignal {
    GameSignal {
        detected: false,
        game_id: None,
        game_name: None,
        confidence: sc(0.0),
        reason: DetectionReason::Idle,
        timestamp_ms: 0,
    }
}

fn active_game(confidence: f32) -> GameSignal {
    GameSignal {
        detected: true,
        game_id: Some("cs2".to_string()),
        game_name: Some("Counter-Strike 2".to_string()),
        confidence: sc(confidence),
        reason: DetectionReason::Both,
        timestamp_ms: 0,
    }
}

fn push_ok(m: &mut MetricsStore, id: &str, rtt: f32) {
    m.push(
        id,
        PingSample {
            rtt_ms: Some(sc(rtt)),
            timestamp_ms: 1_700_000_000_000,
        },
    );
}

fn make_ap() -> (Autopilot, MetricsStore) {
    let mut ap = Autopilot::new();
    ap.set_policy(no_cooldown_cfg());
    (ap, MetricsStore::new())
}

#[test]
fn emits_hold_when_no_candidates() {
    let (mut ap, metrics) = make_ap();
    let d = ap.update(&unit, &metrics, &snap(vec![], None), &idle_game(), 10, 20);
    assert_eq!(d.intent, AutopilotIntent::Hold);
    assert_eq!(d.reason, DecisionReason::NoCandidates);
}

#[test]
fn emits_hold_when_already_on_best() {
    let (mut ap, metrics) = make_ap();
    let routes = vec![
        route("a", 50.0, Health::Good),
        route("b", 100.0, Health::Good),
    ];
    let d = ap.update(&unit, &metrics, &snap(routes, Some("a")), &idle_game(), 10, 20);
    assert_eq!(d.intent, AutopilotIntent::Hold);
    assert_eq!(d.reason, DecisionReason::AlreadyOnBest);
}

#[test]
fn emits_switch_with_improvement() {
    let (mut ap, metrics) = make_ap();
    let routes = vec![
        route("a", 200.0, Health::Good),
        route("b", 50.0, Health::Good),
    ];
    let d = ap.update(&unit, &metrics, &snap(routes, Some("a")), &idle_game(), 10, 20);
    assert_eq!(d.intent, AutopilotIntent::Switch);
    assert_eq!(d.to_route.as_deref(), Some("b"));
    assert_eq!(d.reason, DecisionReason::Improvement);
}

#[test]
fn emergency_bypass_when_current_is_bad() {
    let (mut ap, metrics) = make_ap();
    let routes = vec![
        route("a", 200.0, Health::Bad),
        route("b", 50.0, Health::Good),
    ];
    let d = ap.update(&unit, &metrics, &snap(routes, Some("a")), &idle_game(), 10, 20);
    assert_eq!(d.intent, AutopilotIntent::Switch);
    assert_eq!(d.reason, DecisionReason::EmergencyBypass);
}

#[test]
fn game_mode_emits_game_mode_switch() {
    let (mut ap, metrics) = make_ap();
    let routes = vec![
        route("a", 200.0, Health::Good),
        route("b", 50.0, Health::Good),
    ];
    let d = ap.update(&unit, &metrics, &snap(routes, Some("a")), &active_game(0.8), 10, 20);
    assert_eq!(d.intent, AutopilotIntent::Switch);
    assert_eq!(d.reason, DecisionReason::GameModeSwitch);
    assert_eq!(d.fsm_state, FsmState::GameMode);
}

#[test]
fn cooldown_blocks_when_policy_says_so() {
    let (mut ap, metrics) = make_ap();
    ap.set_policy(PolicyConfig::default());
    let routes = vec![
        route("a", 200.0, Health::Good),
        route("b", 50.0, Health::Good),
    ];
    let d = ap.update(&unit, &metrics, &snap(routes, Some("a")), &idle_game(), 10, 20);
    assert_eq!(d.intent, AutopilotIntent::Hold);
    assert!(matches!(
        d.reason,
        DecisionReason::CooldownActive | DecisionReason::HysteresisPending
    ));
}

#[test]
fn stable_no_improvement_blocks() {
    let (mut ap, metrics) = make_ap();
    ap.set_policy(PolicyConfig {
        stable_margin: sc(0.5),
        ..no_cooldown_cfg()
    });
    let routes = vec![
        route("a", 100.0, Health::Good),
        route("b", 90.0, Health::Good),
    ];
    let d = ap.update(&unit, &metrics, &snap(routes, Some("a")), &idle_game(), 10, 20);
    assert_eq!(d.intent, AutopilotIntent::Hold);
    assert_eq!(d.reason, DecisionReason::StableNoImprovement);
    let verdict = d.verdict.as_ref().expect("verdict present on hold");
    assert!(
        fl(verdict.improvement) < fl(verdict.margin),
        "improvement={} should be < margin={}",
        fl(verdict.improvement),
        fl(verdict.margin)
    );
    assert!(verdict.streak >= verdict.streak_needed);
    assert!(verdict.elapsed_since_switch_ms >= verdict.cooldown_ms);
}

#[test]
fn streak_resets_when_recommended_changes() {
    let (mut ap, metrics) = make_ap();
    let routes1 = vec![
        route("a", 50.0, Health::Good),
        route("b", 100.0, Health::Good),
    ];
    let _ = ap.update(&unit, &metrics, &snap(routes1, None), &idle_game(), 10, 20);
    let s1 = ap.state(10);
    let routes2 = vec![
        route("a", 200.0, Health::Good),
        route("b", 50.0, Health::Good),
    ];
    let _ = ap.update(&unit, &metrics, &snap(routes2, Some("a")), &idle_game(), 10, 20);
    let s2 = ap.state(10);
    assert!(s2.streak <= s1.streak + 1);
}

#[test]
fn stability_recorded_from_metrics() {
    let (mut ap, mut metrics) = make_ap();
    for _ in 0..10 {
        push_ok(&mut metrics, "a", 20.0);
    }
    let routes = vec![route("a", 50.0, Health::Good)];
    let _ = ap.update(&unit, &metrics, &snap(routes, None), &idle_game(), 10, 20);
    assert!(fl(ap.stability_of(&unit, "a")) > 0.5);
}

#[test]
fn fsm_recovery_after_game_mode_ends() {
    let (mut ap, metrics) = make_ap();
    let routes = vec![route("a", 50.0, Health::Good)];
    let _ = ap.update(&unit, &metrics, &snap(routes.clone(), None), &active_game(0.8), 10, 20);
    assert_eq!(ap.state(10).state, FsmState::GameMode);
    let d = ap.update(&unit, &metrics, &snap(routes, None), &idle_game(), 10, 20);
    assert_eq!(d.fsm_state, FsmState::Recovery);
}

#[test]
fn degraded_current_uses_degraded_margin() {
    let (mut ap, metrics) = make_ap();
    ap.set_policy(PolicyConfig {
        stable_margin: sc(0.30),
        degraded_margin: sc(0.05),
        other_margin: sc(0.30),
        ..no_cooldown_cfg()
    });
    let routes_good = vec![
        route("a", 100.0, Health::Degraded),
        route("b", 90.0, Health::Good),
    ];
    let d = ap.update(&unit, &metrics, &snap(routes_good, Some("a")), &idle_game(), 10, 20);
    assert_eq!(d.intent, AutopilotIntent::Switch);
    let verdict = d.verdict.as_ref().unwrap();
    assert!(
        fl(verdict.margin) < 0.30,
        "degraded margin should be lower than stable"
    );
}
