use marstart_link::address::{IpAddr, Ipv4Addr};
use marstart_link::arith::Op;
use marstart_link::loadbalance::{FlowKey, LbStrategy, LoadBalancer};
use marstart_link::metrics::{MetricsStore, PingSample};
use marstart_link::name_map::NameMap;
use marstart_link::scalar::Scalar;
use marstart_link::snapshot::{Health, RouteSnapshotEngine};
use std::collections::HashMap;

fn sc(x: f32) -> Scalar {
    Scalar { bits: x.to_bits() }
}

fn fl(s: Scalar) -> f32 {
    f32::from_bits(s.bits)
}

fn unit(op: Op) -> Scalar {
    match op {
        Op::Plus(a, b) => sc(fl(a) + fl(b)),
        Op::Minus(a, b) => sc(fl(a) - fl(b)),
        Op::Times(a, b) => sc(fl(a) * fl(b)),
        Op::Over(a, b) => sc(fl(a) / fl(b)),
        Op::Root(a) => sc(fl(a).sqrt()),
        Op::Whole(n) => sc(n as f32),
    }
}

fn push_ok(m: &mut MetricsStore, id: &str, rtt_ms: f32) {
    m.push(
        id,
        PingSample {
            rtt_ms: Some(sc(rtt_ms)),
            timestamp_ms: 1_700_000_000_000,
        },
    );
}

fn push_lost(m: &mut MetricsStore, id: &str) {
    m.push(
        id,
        PingSample {
            rtt_ms: None,
            timestamp_ms: 1_700_000_000_000,
        },
    );
}

fn seed_good(m: &mut MetricsStore, id: &str, rtt: f32) {
    for _ in 0..10 {
        push_ok(m, id, rtt);
    }
}

fn make_lb(route_ids: &[&str]) -> (LoadBalancer, MetricsStore, RouteSnapshotEngine) {
    let mut snap = RouteSnapshotEngine::new(0);
    snap.set_targets(route_ids.iter().map(|s| s.to_string()).collect());
    (LoadBalancer::new(), MetricsStore::new(), snap)
}

fn flow(seed: u8) -> FlowKey {
    FlowKey {
        src_ip: IpAddr::V4(Ipv4Addr::new(10, 0, 0, seed)),
        src_port: 1000 + seed as u16,
        dst_ip: IpAddr::V4(Ipv4Addr::new(1, 1, 1, 1)),
        dst_port: 443,
        proto: 6,
    }
}

fn force_bad(metrics: &mut MetricsStore, snap: &mut RouteSnapshotEngine, id: &str) {
    for _ in 0..30 {
        push_lost(metrics, id);
    }
    for _ in 0..4 {
        let _ = snap.refresh_now(&unit, metrics, 0);
    }
    assert_eq!(snap.current().health_of(id), Health::Bad);
}

#[test]
fn sticky_reregister_returns_same_route() {
    let (mut lb, mut metrics, mut snap) = make_lb(&["a", "b", "c"]);
    seed_good(&mut metrics, "a", 20.0);
    seed_good(&mut metrics, "b", 30.0);
    seed_good(&mut metrics, "c", 40.0);
    let _ = snap.refresh_now(&unit, &metrics, 0);
    let f = flow(1);
    let b1 = lb.register_flow(&unit, f, snap.current(), 5).expect("should bind");
    let b2 = lb.register_flow(&unit, f, snap.current(), 5).expect("should be sticky");
    assert_eq!(b1.route_id, b2.route_id);
    assert_eq!(lb.state().bindings_count, 1);
}

#[test]
fn rebind_bad_moves_flow_to_healthy_route() {
    let (mut lb, mut metrics, mut snap) = make_lb(&["a", "b"]);
    seed_good(&mut metrics, "a", 20.0);
    seed_good(&mut metrics, "b", 30.0);
    let _ = snap.refresh_now(&unit, &metrics, 0);
    let f = flow(1);
    let binding = lb.register_flow(&unit, f, snap.current(), 5).unwrap();
    assert_eq!(binding.route_id, "a");
    force_bad(&mut metrics, &mut snap, "a");
    let r = lb.rebind_bad(&unit, snap.current(), 6);
    assert_eq!(r.rebound, 1);
    assert_eq!(r.dropped, 0);
    let flows = lb.list_flows();
    assert_eq!(flows.len(), 1);
    assert_eq!(flows[0].route_id, "b");
}

#[test]
fn rebind_bad_drops_when_no_alternative() {
    let (mut lb, mut metrics, mut snap) = make_lb(&["a"]);
    seed_good(&mut metrics, "a", 20.0);
    let _ = snap.refresh_now(&unit, &metrics, 0);
    lb.register_flow(&unit, flow(1), snap.current(), 5).unwrap();
    force_bad(&mut metrics, &mut snap, "a");
    let r = lb.rebind_bad(&unit, snap.current(), 6);
    assert_eq!(r.rebound, 0);
    assert_eq!(r.dropped, 1);
    assert_eq!(lb.state().bindings_count, 0);
}

#[test]
fn rebind_bad_noop_when_all_healthy() {
    let (mut lb, mut metrics, mut snap) = make_lb(&["a", "b"]);
    seed_good(&mut metrics, "a", 20.0);
    seed_good(&mut metrics, "b", 30.0);
    let _ = snap.refresh_now(&unit, &metrics, 0);
    lb.register_flow(&unit, flow(1), snap.current(), 5).unwrap();
    lb.register_flow(&unit, flow(2), snap.current(), 5).unwrap();
    let r = lb.rebind_bad(&unit, snap.current(), 6);
    assert_eq!(r.rebound, 0);
    assert_eq!(r.dropped, 0);
    assert_eq!(lb.state().bindings_count, 2);
}

#[test]
fn round_robin_cycles_through_routes() {
    let (mut lb, mut metrics, mut snap) = make_lb(&["a", "b", "c"]);
    seed_good(&mut metrics, "a", 20.0);
    seed_good(&mut metrics, "b", 30.0);
    seed_good(&mut metrics, "c", 40.0);
    let _ = snap.refresh_now(&unit, &metrics, 0);
    lb.set_strategy(LbStrategy::RoundRobin);
    let mut counts: HashMap<String, usize> = HashMap::new();
    for i in 0..6 {
        let f = flow(i + 1);
        if let Some(b) = lb.register_flow(&unit, f, snap.current(), 5) {
            *counts.entry(b.route_id).or_insert(0) += 1;
        }
    }
    assert_eq!(counts.len(), 3, "RR should hit all 3 routes across 6 flows");
}

#[test]
fn least_latency_picks_lowest_score() {
    let (mut lb, mut metrics, mut snap) = make_lb(&["a", "b", "c"]);
    seed_good(&mut metrics, "a", 50.0);
    seed_good(&mut metrics, "b", 20.0);
    seed_good(&mut metrics, "c", 100.0);
    let _ = snap.refresh_now(&unit, &metrics, 0);
    lb.set_strategy(LbStrategy::LeastLatency);
    for i in 0..5 {
        let f = flow(i + 1);
        let b = lb.register_flow(&unit, f, snap.current(), 5).unwrap();
        assert_eq!(b.route_id, "b");
    }
}

#[test]
fn weighted_hash_same_flow_same_route() {
    let (mut lb, mut metrics, mut snap) = make_lb(&["a", "b", "c"]);
    seed_good(&mut metrics, "a", 20.0);
    seed_good(&mut metrics, "b", 30.0);
    seed_good(&mut metrics, "c", 40.0);
    let _ = snap.refresh_now(&unit, &metrics, 0);
    lb.set_strategy(LbStrategy::WeightedHash);
    let f = flow(7);
    let b1 = lb.register_flow(&unit, f, snap.current(), 5).unwrap();
    let b2 = lb.register_flow(&unit, f, snap.current(), 5).unwrap();
    assert_eq!(b1.route_id, b2.route_id);
}

#[test]
fn weighted_hash_weight_zero_excludes_route() {
    let (mut lb, mut metrics, mut snap) = make_lb(&["a", "b"]);
    seed_good(&mut metrics, "a", 20.0);
    seed_good(&mut metrics, "b", 30.0);
    let _ = snap.refresh_now(&unit, &metrics, 0);
    let mut weights: NameMap<Scalar> = NameMap::new();
    weights.insert("a".to_string(), sc(0.0));
    weights.insert("b".to_string(), sc(1.0));
    lb.set_route_weights(weights);
    lb.set_strategy(LbStrategy::WeightedHash);
    for i in 0..10 {
        let f = flow(i + 1);
        let b = lb.register_flow(&unit, f, snap.current(), 5).expect("bind exists");
        assert_eq!(b.route_id, "b", "flow {} landed on a (weight 0)", i);
    }
}

#[test]
fn unregister_flow_removes_binding() {
    let (mut lb, mut metrics, mut snap) = make_lb(&["a"]);
    seed_good(&mut metrics, "a", 20.0);
    let _ = snap.refresh_now(&unit, &metrics, 0);
    let f = flow(1);
    lb.register_flow(&unit, f, snap.current(), 5).unwrap();
    assert_eq!(lb.state().bindings_count, 1);
    assert!(lb.unregister_flow(&f));
    assert_eq!(lb.state().bindings_count, 0);
    assert!(!lb.unregister_flow(&f));
}

#[test]
fn turns_go_round_in_order() {
    let (mut lb, mut metrics, mut snap) = make_lb(&["a", "b", "c"]);
    seed_good(&mut metrics, "a", 20.0);
    seed_good(&mut metrics, "b", 30.0);
    seed_good(&mut metrics, "c", 40.0);
    let _ = snap.refresh_now(&unit, &metrics, 0);
    lb.set_strategy(LbStrategy::RoundRobin);
    assert_eq!(lb.strategy(), LbStrategy::RoundRobin);
    let mut seen: Vec<String> = Vec::new();
    for i in 0..6 {
        seen.push(lb.register_flow(&unit, flow(i + 1), snap.current(), 5).unwrap().route_id);
    }
    assert_eq!(seen[0], seen[3]);
    assert_eq!(seen[1], seen[4]);
    assert_eq!(seen[2], seen[5]);
}

#[test]
fn no_route_no_binding() {
    let (mut lb, _, snap) = make_lb(&[]);
    assert!(lb.register_flow(&unit, flow(1), snap.current(), 5).is_none());
    assert_eq!(lb.state().bindings_count, 0);
}

#[test]
fn equal_hashes_choose_equal_routes() {
    let (_, mut metrics, mut snap) = make_lb(&["a", "b", "c"]);
    seed_good(&mut metrics, "a", 20.0);
    seed_good(&mut metrics, "b", 30.0);
    seed_good(&mut metrics, "c", 40.0);
    let _ = snap.refresh_now(&unit, &metrics, 0);
    for hash in [0u64, 1, 77, u64::MAX / 2, u64::MAX] {
        let mut one = LoadBalancer::new();
        let mut two = LoadBalancer::new();
        one.set_strategy(LbStrategy::WeightedHash);
        two.set_strategy(LbStrategy::WeightedHash);
        let a = one.register_hashed(&unit, flow(1), snap.current(), hash, 5).unwrap();
        let b = two.register_hashed(&unit, flow(2), snap.current(), hash, 5).unwrap();
        assert_eq!(a.route_id, b.route_id);
        assert_eq!(a.created_at_ms, 5);
    }
}

#[test]
fn hashing_spreads_the_flows() {
    let (mut lb, mut metrics, mut snap) = make_lb(&["a", "b"]);
    seed_good(&mut metrics, "a", 20.0);
    seed_good(&mut metrics, "b", 20.0);
    let _ = snap.refresh_now(&unit, &metrics, 0);
    lb.set_strategy(LbStrategy::WeightedHash);
    let mut counts: HashMap<String, usize> = HashMap::new();
    for i in 0..200 {
        let b = lb.register_flow(&unit, flow(i), snap.current(), 5).unwrap();
        *counts.entry(b.route_id).or_insert(0) += 1;
    }
    assert_eq!(counts.len(), 2);
    assert_eq!(lb.list_flows().len(), 200);
}
