use marstart_link::arith::Op;
use marstart_link::autopilot::stability::{StabilityHistory, StabilitySample};
use marstart_link::metrics::aggregate;
use marstart_link::metrics::{MetricsStore, PingSample};
use marstart_link::ringbuf::RingBuffer;
use marstart_link::scalar::Scalar;

fn sc(x: f32) -> Scalar {
    Scalar { bits: x.to_bits() }
}

fn fl(s: Scalar) -> f32 {
    f32::from_bits(s.bits)
}

fn unit(op: Op) -> Scalar {
    match op {
        Op::Plus(a, b) => sc(fl(a) + fl(b)),
        Op::Minus(a, b) => sc(fl(a) - fl(b)),
        Op::Times(a, b) => sc(fl(a) * fl(b)),
        Op::Over(a, b) => sc(fl(a) / fl(b)),
        Op::Root(a) => sc(fl(a).sqrt()),
        Op::Whole(n) => sc(n as f32),
    }
}

#[test]
fn push_and_snapshot_order() {
    let mut r = RingBuffer::new(3);
    r.push(1);
    r.push(2);
    r.push(3);
    assert_eq!(r.snapshot(), vec![1, 2, 3]);
}

#[test]
fn overflow_overwrites_oldest() {
    let mut r = RingBuffer::new(3);
    r.push(1);
    r.push(2);
    r.push(3);
    r.push(4);
    r.push(5);
    assert_eq!(r.snapshot(), vec![3, 4, 5]);
    assert_eq!(r.len(), 3);
}

#[test]
fn clear_resets_state() {
    let mut r = RingBuffer::new(3);
    r.push(1);
    r.push(2);
    r.clear();
    assert!(r.is_empty());
    assert_eq!(r.snapshot(), Vec::<i32>::new());
}

#[test]
fn capacity_survives_overflow_and_clear() {
    let mut r = RingBuffer::new(2);
    assert_eq!(r.capacity(), 2);
    for i in 0..7 {
        r.push(i);
    }
    assert_eq!(r.snapshot(), vec![5, 6]);
    r.clear();
    assert_eq!(r.capacity(), 2);
    r.push(9);
    assert_eq!(r.snapshot(), vec![9]);
}

fn s(rtt: Option<f32>) -> PingSample {
    PingSample {
        rtt_ms: rtt.map(sc),
        timestamp_ms: 1_700_000_000_000,
    }
}

#[test]
fn loss_ratio_computes() {
    let samples = vec![s(Some(10.0)), s(None), s(Some(20.0)), s(None)];
    assert!((fl(aggregate::loss_ratio(&unit, &samples)) - 0.5).abs() < 1e-6);
}

#[test]
fn jitter_skips_lost() {
    let samples = vec![s(Some(10.0)), s(None), s(Some(20.0)), s(Some(15.0))];
    assert!((fl(aggregate::jitter_ms(&unit, &samples)) - 7.5).abs() < 1e-6);
}

#[test]
fn stability_perfect_when_clean() {
    let stab = fl(aggregate::stability(&unit, sc(0.0), sc(0.0)));
    assert!((stab - 1.0).abs() < 1e-6);
}

#[test]
fn stability_drops_with_loss() {
    let a = fl(aggregate::stability(&unit, sc(0.0), sc(0.0)));
    let b = fl(aggregate::stability(&unit, sc(0.0), sc(0.5)));
    assert!(b < a);
}

#[test]
fn stability_is_the_weighted_complement() {
    assert_eq!(fl(aggregate::stability(&unit, sc(25.0), sc(0.5))), 0.5);
    assert_eq!(fl(aggregate::stability(&unit, sc(500.0), sc(7.0))), 0.0);
    assert_eq!(fl(aggregate::stability(&unit, sc(50.0), sc(0.0))), 0.5);
}

#[test]
fn store_aggregates_per_target() {
    let mut m = MetricsStore::with_window(8);
    let now = 1_700_000_000_000;
    m.push("eu", PingSample::ok(sc(20.0), now));
    m.push("eu", PingSample::lost(now));
    m.push("eu", PingSample::ok(sc(40.0), now));
    m.push("us", PingSample::ok(sc(100.0), now));

    let eu = m.aggregated(&unit, "eu").unwrap();
    assert_eq!(eu.samples, 3);
    assert!((fl(eu.loss_ratio) - (1.0 / 3.0)).abs() < 1e-3);
    let us = m.aggregated(&unit, "us").unwrap();
    assert_eq!(us.samples, 1);
    assert_eq!(fl(us.loss_ratio), 0.0);
}

#[test]
fn store_remove_clears_target() {
    let mut m = MetricsStore::new();
    m.push("x", s(Some(5.0)));
    assert!(m.aggregated(&unit, "x").is_some());
    m.remove_target("x");
    assert!(m.aggregated(&unit, "x").is_none());
}

#[test]
fn figures_of_a_window() {
    let mut m = MetricsStore::with_window(3);
    m.push("x", s(Some(900.0)));
    m.push("x", s(Some(10.0)));
    m.push("x", s(Some(30.0)));
    m.push("x", s(None));
    let a = m.aggregated(&unit, "x").unwrap();
    assert_eq!(a.target_id, "x");
    assert_eq!(a.latest_rtt_ms, None);
    assert_eq!(a.avg_rtt_ms.map(fl), Some(20.0));
    assert_eq!(a.min_rtt_ms.map(fl), Some(10.0));
    assert_eq!(a.max_rtt_ms.map(fl), Some(30.0));
    assert_eq!(fl(a.jitter_ms), 20.0);
    assert_eq!(a.samples, 3);
    assert_eq!(a.window, 3);
    assert_eq!(m.samples("x").len(), 3);
    assert!(m.samples("y").is_empty());
    m.clear_target("x");
    assert!(m.samples("x").is_empty());
    assert_eq!(m.aggregated(&unit, "x").unwrap().avg_rtt_ms, None);
}

#[test]
fn targets_are_listed_in_order() {
    let mut m = MetricsStore::new();
    m.ensure_target("b");
    m.ensure_target("a");
    m.ensure_target("b");
    assert_eq!(m.list_targets(), vec!["a".to_string(), "b".to_string()]);
    let all = m.aggregated_all(&unit);
    assert_eq!(all.len(), 2);
    assert_eq!(all[0].target_id, "a");
}

fn sample(rtt: Option<f32>, offset_ms: i64) -> StabilitySample {
    StabilitySample {
        rtt_ms: sc(rtt.unwrap_or(0.0)),
        loss: rtt.is_none(),
        ts_ms: 1_700_000_000_000 - offset_ms,
    }
}

#[test]
fn empty_returns_neutral() {
    let h = StabilityHistory::new();
    assert!((fl(h.stability_index(&unit, "x")) - 0.5).abs() < 0.01);
}

#[test]
fn few_samples_returns_neutral() {
    let mut h = StabilityHistory::new();
    h.record("x", sample(Some(20.0), 0));
    h.record("x", sample(Some(20.0), 100));
    assert!((fl(h.stability_index(&unit, "x")) - 0.5).abs() < 0.01);
}

#[test]
fn stable_rtts_yield_high_index() {
    let mut h = StabilityHistory::new();
    for i in 0..5 {
        h.record("x", sample(Some(20.0), i * 100));
    }
    let idx = fl(h.stability_index(&unit, "x"));
    assert!(idx > 0.7, "expected high index, got {idx}");
}

#[test]
fn high_loss_yields_low_index() {
    let mut h = StabilityHistory::new();
    h.record("x", sample(None, 0));
    h.record("x", sample(None, 100));
    h.record("x", sample(None, 200));
    h.record("x", sample(None, 300));
    h.record("x", sample(None, 400));
    let idx = fl(h.stability_index(&unit, "x"));
    assert!(idx < 0.1, "expected very low index, got {idx}");
}

#[test]
fn high_cv_yields_low_index() {
    let mut h = StabilityHistory::new();
    for (i, rtt) in [10.0, 100.0, 10.0, 100.0, 10.0].iter().enumerate() {
        h.record("x", sample(Some(*rtt), i as i64 * 100));
    }
    let idx = fl(h.stability_index(&unit, "x"));
    assert!(idx < 0.5, "expected low index, got {idx}");
}

#[test]
fn ring_buffer_caps_at_capacity() {
    let mut h = StabilityHistory::with_cap(3);
    for i in 0..10 {
        h.record("x", sample(Some(20.0), i * 100));
    }
    assert_eq!(h.len("x"), 3);
}

#[test]
fn steady_but_rising_times_cost_a_little() {
    let mut h = StabilityHistory::new();
    h.record("x", sample(Some(100.0), 0));
    h.record("x", sample(Some(101.0), 100));
    h.record("x", sample(Some(102.0), 200));
    let mean = 101.0f32;
    let cv = (2.0f32 / 3.0).sqrt() / mean;
    let expected = 1.0 - (cv * 4.0 * 0.6 + 0.0 * 0.3 + (1.0f32 / 5.0) * 0.1);
    assert!((fl(h.stability_index(&unit, "x")) - expected).abs() < 1e-5);
    h.clear("x");
    assert_eq!(h.len("x"), 0);
    assert_eq!(fl(h.stability_index(&unit, "x")), 0.5);
}

#[test]
fn lost_ping_becomes_a_lost_sample() {
    let lost = StabilitySample::from_ping(&PingSample::lost(7));
    assert!(lost.loss);
    assert_eq!(lost.ts_ms, 7);
    let ok = StabilitySample::from_ping(&PingSample::ok(sc(12.5), 8));
    assert!(!ok.loss);
    assert_eq!(fl(ok.rtt_ms), 12.5);
}

#[test]
fn a_window_never_outgrows_its_length() {
    let mut m = MetricsStore::with_window(3);
    for i in 0..5i64 {
        m.push("x", PingSample::ok(sc(i as f32), i));
        let a = m.aggregated(&unit, "x").unwrap();
        assert!(a.samples <= a.window);
        assert_eq!(a.window, 3);
    }
    assert_eq!(m.aggregated(&unit, "x").unwrap().samples, 3);
    assert_eq!(m.samples("x")[0].timestamp_ms, 2);
    let mut r = RingBuffer::new(2);
    assert_eq!(r.capacity(), 2);
    for i in 0..5 {
        r.push(i);
    }
    assert_eq!(r.snapshot(), vec![3, 4]);
    assert_eq!(r.len(), 2);
}

#[test]
fn the_index_has_its_extremes() {
    let mut h = StabilityHistory::new();
    assert_eq!(fl(h.stability_index(&unit, "x")), 0.5);
    for i in 0..2 {
        h.record("x", sample(Some(20.0), i));
        assert_eq!(fl(h.stability_index(&unit, "x")), 0.5);
    }
    for i in 2..12 {
        h.record("x", sample(Some(20.0), i));
        assert_eq!(fl(h.stability_index(&unit, "x")), 1.0);
        h.record("y", sample(None, i));
    }
    assert_eq!(fl(h.stability_index(&unit, "y")), 0.0);
    h.clear("y");
    assert_eq!(fl(h.stability_index(&unit, "x")), 1.0);
}
