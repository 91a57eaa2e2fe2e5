//! What a snapshot says of its routes.

use crate::arith::{result, Op};
use crate::metrics::{AggregatedView, StoreView};
use crate::name_map::lists;
use crate::scalar::{lemma_code_orders, Scalar};
use crate::snapshot::{
    classes_now, health_from, healthy_routes, held_interval, reading, retargeted, routes_now,
    score_of, settled, Health, RouteView, SnapshotView, TrackedTarget,
};
use crate::text::lemma_text_less_irreflexive;
use vstd::prelude::*;

verus! {

// ---------------------------------------------------------------------------
// Health
// ---------------------------------------------------------------------------

/// Whether a figure lies above a limit.
pub open spec fn beyond(x: Scalar, limit: Scalar) -> bool {
    !x.nan() && x.value() > limit.value()
}

/// The class of a target by its figures. Nothing is known without samples. It is
/// bad with no answer, with more than a tenth lost, or with a mean time above 200
/// ms; else degraded with more than three hundredths lost, a mean time above 120
/// ms, or a jitter above 30 ms; else good.
pub proof fn law_health_by_limits(a: AggregatedView)
    ensures
        ({
            let tenth = Scalar { bits: 0x3dcc_cccd };
            let three_hundredths = Scalar { bits: 0x3cf5_c28f };
            let (ms_30, ms_120, ms_200) = (
                Scalar { bits: 0x41f0_0000 },
                Scalar { bits: 0x42f0_0000 },
                Scalar { bits: 0x4348_0000 },
            );
            let bad = a.avg_rtt_ms is None || beyond(a.loss_ratio, tenth) || beyond(
                a.avg_rtt_ms->0,
                ms_200,
            );
            let weak = beyond(a.loss_ratio, three_hundredths) || beyond(a.jitter_ms, ms_30)
                || beyond(a.avg_rtt_ms->0, ms_120);
            &&& a.samples == 0 <==> health_from(a) == Health::Unknown
            &&& health_from(a) == Health::Bad <==> a.samples != 0 && bad
            &&& health_from(a) == Health::Degraded <==> a.samples != 0 && !bad && weak
            &&& health_from(a) == Health::Good <==> a.samples != 0 && !bad && !weak
        }),
{
}

/// How bad a class is.
pub open spec fn badness(h: Health) -> int {
    match h {
        Health::Unknown => 0,
        Health::Good => 1,
        Health::Degraded => 2,
        Health::Bad => 3,
    }
}

/// Whether one number is at most another.
pub open spec fn at_most(x: Scalar, y: Scalar) -> bool {
    !x.nan() && !y.nan() && x.value() <= y.value()
}

/// Worse figures never make for a better class.
pub proof fn law_worse_figures_never_help(a: AggregatedView, b: AggregatedView)
    requires
        a.samples != 0,
        b.samples != 0,
        at_most(a.loss_ratio, b.loss_ratio),
        at_most(a.jitter_ms, b.jitter_ms),
        b.avg_rtt_ms is Some ==> a.avg_rtt_ms is Some && at_most(a.avg_rtt_ms->0, b.avg_rtt_ms->0),
    ensures
        badness(health_from(a)) <= badness(health_from(b)),
{
    law_health_by_limits(a);
    law_health_by_limits(b);
    lemma_code_orders(0x3cf5_c28f, 0x3dcc_cccd);
    lemma_code_orders(0x42f0_0000, 0x4348_0000);
}

// ---------------------------------------------------------------------------
// Settling
// ---------------------------------------------------------------------------

/// A settled class outlives two readings in a row that differ from it, whatever
/// they are; the third such reading becomes the class.
pub proof fn law_third_reading_counts(prev: TrackedTarget, a: Health, b: Health, c: Health)
    requires
        prev.health != Health::Unknown,
        prev.streak == 0,
        a != prev.health,
        b != prev.health,
        c != prev.health,
    ensures
        ({
            let one = settled(prev, a);
            let two = settled(one, b);
            let three = settled(two, c);
            &&& one.health == prev.health
            &&& two.health == prev.health
            &&& three == TrackedTarget { health: c, streak: 0 }
        }),
{
}

/// A reading that agrees in between starts the count anew.
pub proof fn law_agreement_starts_anew(prev: TrackedTarget, a: Health, b: Health, c: Health)
    requires
        prev.health != Health::Unknown,
        prev.streak == 0,
        a != prev.health,
        b != prev.health,
        c != prev.health,
    ensures
        settled(settled(settled(settled(prev, a), prev.health), b), c).health == prev.health,
        settled(settled(settled(settled(prev, a), b), prev.health), c).health == prev.health,
{
}

// ---------------------------------------------------------------------------
// Scores
// ---------------------------------------------------------------------------

/// The sum of a time, twice the jitter and a thousandfold the loss, as a unit
/// gives it.
pub open spec fn cost<F: Fn(Op) -> Scalar>(
    unit: F,
    rtt: Scalar,
    jitter: Scalar,
    loss: Scalar,
) -> Scalar {
    result(
        unit,
        Op::Plus(
            result(
                unit,
                Op::Plus(rtt, result(unit, Op::Times(jitter, Scalar { bits: 0x4000_0000 }))),
            ),
            result(unit, Op::Times(loss, Scalar { bits: 0x447a_0000 })),
        ),
    )
}

/// The score over a window is the cost of the mean time, of an infinite one where
/// there is none.
pub proof fn law_score_over_window<F: Fn(Op) -> Scalar>(unit: F, a: AggregatedView)
    ensures
        score_of(unit, a) == cost(
            unit,
            match a.avg_rtt_ms {
                Some(t) => t,
                None => Scalar { bits: 0x7f80_0000 },
            },
            a.jitter_ms,
            a.loss_ratio,
        ),
{
}

// ---------------------------------------------------------------------------
// Snapshots
// ---------------------------------------------------------------------------

/// Every target has one route in a snapshot and nothing else has: with its settled
/// class, its figures as they are, and its score, the cost of the mean time or, if
/// that is lower, of the latest one. A target without a window has an infinite
/// score and no figures.
pub proof fn law_snapshot_of_targets<F: Fn(Op) -> Scalar>(
    unit: F,
    store: StoreView,
    targets: Map<Seq<char>, TrackedTarget>,
    snap: SnapshotView,
    id: Seq<char>,
)
    requires
        routes_now(unit, store, classes_now(unit, store, targets), snap),
    ensures
        targets.dom().contains(id) <==> exists|i: int|
            0 <= i < snap.routes.len() && (#[trigger] snap.routes[i]).route_id == id,
        forall|i: int, j: int|
            0 <= i < j < snap.routes.len() ==> (#[trigger] snap.routes[i]).route_id != (
            #[trigger] snap.routes[j]).route_id,
        forall|i: int|
            0 <= i < snap.routes.len() && (#[trigger] snap.routes[i]).route_id == id ==> {
                let r = snap.routes[i];
                let now = match store.figures(unit, id) {
                    Some(a) => health_from(a),
                    None => Health::Unknown,
                };
                &&& r.health == settled(targets[id], now).health
                &&& match store.figures(unit, id) {
                    Some(a) => {
                        &&& r.latest_rtt_ms == a.latest_rtt_ms
                        &&& r.avg_rtt_ms == a.avg_rtt_ms
                        &&& r.jitter_ms == a.jitter_ms
                        &&& r.loss_ratio == a.loss_ratio
                        &&& r.stability == a.stability
                        &&& r.samples == a.samples
                        &&& r.score == cost(
                            unit,
                            match (a.avg_rtt_ms, a.latest_rtt_ms) {
                                (None, _) => Scalar { bits: 0x7f80_0000 },
                                (Some(mean), None) => mean,
                                (Some(mean), Some(latest)) => if !latest.nan() && !mean.nan()
                                    && latest.value() < mean.value() {
                                    latest
                                } else {
                                    mean
                                },
                            },
                            a.jitter_ms,
                            a.loss_ratio,
                        )
                    },
                    None => {
                        &&& r.score == Scalar { bits: 0x7f80_0000 }
                        &&& r.latest_rtt_ms is None
                        &&& r.avg_rtt_ms is None
                        &&& r.jitter_ms == Scalar { bits: 0 }
                        &&& r.loss_ratio == Scalar { bits: 0 }
                        &&& r.stability == Scalar { bits: 0 }
                        &&& r.samples == 0
                    },
                }
            },
{
    let classes = classes_now(unit, store, targets);
    let names = snap.ids();
    assert(lists(names, classes.dom()));
    assert(classes.dom().contains(id) <==> targets.dom().contains(id));
    if targets.dom().contains(id) {
        assert(names.contains(id));
        let i = names.index_of(id);
        assert(snap.routes[i].route_id == id);
    }
    if exists|i: int| 0 <= i < snap.routes.len() && (#[trigger] snap.routes[i]).route_id == id {
        let i = choose|i: int|
            0 <= i < snap.routes.len() && (#[trigger] snap.routes[i]).route_id == id;
        assert(names[i] == id);
        assert(names.contains(id));
    }
    assert forall|i: int, j: int| 0 <= i < j < snap.routes.len() implies (
    #[trigger] snap.routes[i]).route_id != (#[trigger] snap.routes[j]).route_id by {
        assert(names[i] == snap.routes[i].route_id && names[j] == snap.routes[j].route_id);
        lemma_text_less_irreflexive(names[i]);
    }
    assert forall|i: int|
        0 <= i < snap.routes.len() && (#[trigger] snap.routes[i]).route_id == id implies classes[id]
        == settled(targets[id], reading(unit, store, id)) by {
        assert(names[i] == id);
        assert(names.contains(id));
    }
}

/// New targets: exactly those listed are there; one that was there before keeps its
/// class and its count, and a new one starts without a class.
pub proof fn law_targets_keep_their_class(
    targets: Map<Seq<char>, TrackedTarget>,
    ids: Seq<Seq<char>>,
    id: Seq<char>,
)
    ensures
        ({
            let next = retargeted(targets, ids);
            &&& next.dom().contains(id) <==> exists|i: int| 0 <= i < ids.len() && #[trigger] ids[i] == id
            &&& next.dom().contains(id) && targets.dom().contains(id) ==> next[id] == targets[id]
            &&& next.dom().contains(id) && !targets.dom().contains(id) ==> next[id]
                == TrackedTarget { health: Health::Unknown, streak: 0 }
        }),
{
    if exists|i: int| 0 <= i < ids.len() && #[trigger] ids[i] == id {
        let i = choose|i: int| 0 <= i < ids.len() && #[trigger] ids[i] == id;
        assert(ids.contains(ids[i]));
    }
}

/// The routes that can carry traffic are the good and the degraded ones, in order,
/// each with its score.
pub proof fn law_healthy_routes(routes: Seq<RouteView>)
    ensures
        healthy_routes(routes) == routes.filter(
            |r: RouteView| r.health == Health::Good || r.health == Health::Degraded,
        ).map_values(|r: RouteView| (r.route_id, r.score)),
    decreases routes.len(),
{
    reveal(Seq::filter);
    let f = |r: RouteView| r.health == Health::Good || r.health == Health::Degraded;
    let g = |r: RouteView| (r.route_id, r.score);
    if routes.len() > 0 {
        let rest = routes.drop_last();
        law_healthy_routes(rest);
        if f(routes.last()) {
            assert(routes.filter(f) == rest.filter(f).push(routes.last()));
            assert(routes.filter(f).map_values(g) =~= rest.filter(f).map_values(g).push(
                g(routes.last()),
            ));
        } else {
            assert(routes.filter(f) == rest.filter(f));
        }
    } else {
        assert(healthy_routes(routes) =~= routes.filter(f).map_values(g));
    }
}

/// Pictures are taken every 100 to 250 ms: an interval in these bounds stays as it
/// is, and the nearer bound stands for any other.
pub proof fn law_interval_is_held(ms: u64)
    ensures
        100 <= held_interval(ms) <= 250,
        100 <= ms <= 250 ==> held_interval(ms) == ms,
        ms < 100 ==> held_interval(ms) == 100,
        ms > 250 ==> held_interval(ms) == 250,
{
}

} // verus!
