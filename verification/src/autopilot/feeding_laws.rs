//! What the autopilot takes in of the samples.

use super::stability::{HistoryView, StabilitySample};
use super::{recorded_all, to_record, PilotView};
use crate::metrics::{PingSample, StoreView};
use crate::scalar::Scalar;
use crate::snapshot::RouteView;
use vstd::prelude::*;

verus! {

/// The last so many of some samples.
pub open spec fn latest(s: Seq<StabilitySample>, n: int) -> Seq<StabilitySample> {
    if s.len() <= n {
        s
    } else {
        s.skip(s.len() - n)
    }
}

/// What some probes say of a route.
pub open spec fn taken(samples: Seq<PingSample>) -> Seq<StabilitySample> {
    samples.map_values(
        |s: PingSample| StabilitySample {
            rtt_ms: if s.rtt_ms is Some {
                s.rtt_ms->0
            } else {
                Scalar { bits: 0 }
            },
            loss: s.rtt_ms is None,
            ts_ms: s.timestamp_ms,
        },
    )
}

proof fn lemma_recorded_all(h: HistoryView, id: Seq<char>, samples: Seq<PingSample>, other: Seq<char>)
    requires
        h.cap > 0,
        h.of(id).len() <= h.cap,
        other != id,
    ensures
        ({
            let n = recorded_all(h, id, samples);
            &&& n.cap == h.cap
            &&& n.of(id) == latest(h.of(id) + taken(samples), h.cap)
            &&& n.of(other) == h.of(other)
        }),
    decreases samples.len(),
{
    if samples.len() == 0 {
        assert(h.of(id) + taken(samples) =~= h.of(id));
    } else {
        let rest = samples.drop_last();
        lemma_recorded_all(h, id, rest, other);
        let mid = recorded_all(h, id, rest);
        let x = StabilitySample::of_ping(samples.last());
        let before = h.of(id) + taken(rest);
        assert(taken(samples) =~= taken(rest).push(x));
        assert(h.of(id) + taken(samples) =~= before.push(x));
        assert(mid.of(id) == latest(before, h.cap));
        assert(mid.recorded(id, x).of(id) =~= latest(before.push(x), h.cap));
    }
}

/// Feeding one route records, behind what its history has, the samples that are
/// new, and keeps the latest of all these. It notes the moment of the latest sample.
/// A route without samples, or whose latest is older than the one noted, is left
/// alone, and so is every other route.
pub proof fn law_route_is_fed(p: PilotView, store: StoreView, id: Seq<char>, other: Seq<char>)
    requires
        p.stability.cap > 0,
        p.stability.of(id).len() <= p.stability.cap,
        other != id,
    ensures
        ({
            let samples = store.samples(id);
            let n = p.fed_one(store, id);
            let stale = samples.len() == 0 || (p.last_recorded_ts.dom().contains(id)
                && samples.last().timestamp_ms < p.last_recorded_ts[id]);
            &&& stale ==> n == p
            &&& !stale ==> {
                &&& n.stability.of(id) == latest(
                    p.stability.of(id) + taken(
                        to_record(
                            samples,
                            if p.last_recorded_ts.dom().contains(id) {
                                Some(p.last_recorded_ts[id])
                            } else {
                                None
                            },
                        ),
                    ),
                    p.stability.cap,
                )
                &&& n.last_recorded_ts.dom().contains(id)
                &&& n.last_recorded_ts[id] == samples.last().timestamp_ms
            }
            &&& n.stability.of(other) == p.stability.of(other)
            &&& n.last_recorded_ts.dom().contains(other) <==> p.last_recorded_ts.dom().contains(
                other,
            )
            &&& p.last_recorded_ts.dom().contains(other) ==> n.last_recorded_ts[other]
                == p.last_recorded_ts[other]
            &&& n.stability.cap == p.stability.cap
            &&& n.policy == p.policy
        }),
{
    lemma_recorded_all(p.stability, id, to_record(store.samples(id), p.last_ts(id)), other);
}

/// Whether no two routes have the same name.
pub open spec fn apart(routes: Seq<RouteView>) -> bool {
    forall|i: int, j: int|
        0 <= i < j < routes.len() ==> (#[trigger] routes[i]).route_id != (
        #[trigger] routes[j]).route_id
}

proof fn lemma_fed_elsewhere(p: PilotView, store: StoreView, routes: Seq<RouteView>, id: Seq<char>)
    requires
        p.stability.cap > 0,
        forall|k: Seq<char>| #[trigger] p.stability.of(k).len() <= p.stability.cap,
        forall|i: int| 0 <= i < routes.len() ==> (#[trigger] routes[i]).route_id != id,
    ensures
        ({
            let n = p.fed(store, routes);
            &&& n.stability.of(id) == p.stability.of(id)
            &&& n.last_ts(id) == p.last_ts(id)
        }),
    decreases routes.len(),
{
    if routes.len() > 0 {
        let rest = routes.drop_last();
        assert forall|i: int| 0 <= i < rest.len() implies (#[trigger] rest[i]).route_id != id by {
            assert(rest[i] == routes[i]);
        }
        lemma_fed_elsewhere(p, store, rest, id);
        lemma_fed_bounded(p, store, rest);
        let last = routes[routes.len() - 1].route_id;
        law_route_is_fed(p.fed(store, rest), store, last, id);
    }
}

proof fn lemma_fed_bounded(p: PilotView, store: StoreView, routes: Seq<RouteView>)
    requires
        p.stability.cap > 0,
        forall|k: Seq<char>| #[trigger] p.stability.of(k).len() <= p.stability.cap,
    ensures
        ({
            let n = p.fed(store, routes);
            &&& n.stability.cap == p.stability.cap
            &&& forall|k: Seq<char>| #[trigger] n.stability.of(k).len() <= p.stability.cap
        }),
    decreases routes.len(),
{
    if routes.len() > 0 {
        let mid = p.fed(store, routes.drop_last());
        let last = routes.last().route_id;
        lemma_fed_bounded(p, store, routes.drop_last());
        let n = p.fed(store, routes);
        assert forall|k: Seq<char>| #[trigger] n.stability.of(k).len() <= p.stability.cap by {
            assert(mid.stability.of(k).len() <= p.stability.cap);
            assert(mid.stability.of(last).len() <= p.stability.cap);
            if k != last {
                law_route_is_fed(mid, store, last, k);
            } else {
                let far = last.push('x');
                assert(far.len() != last.len());
                law_route_is_fed(mid, store, last, far);
            }
        }
        let far = last.push('x');
        assert(far.len() != last.len());
        assert(mid.stability.of(last).len() <= p.stability.cap);
        law_route_is_fed(mid, store, last, far);
    }
}

/// Every route of a snapshot is fed, each as if it were the only one.
pub proof fn law_every_route_is_fed(p: PilotView, store: StoreView, routes: Seq<RouteView>, i: int)
    requires
        p.stability.cap > 0,
        forall|k: Seq<char>| #[trigger] p.stability.of(k).len() <= p.stability.cap,
        apart(routes),
        0 <= i < routes.len(),
    ensures
        ({
            let id = routes[i].route_id;
            let n = p.fed(store, routes);
            &&& n.stability.of(id) == p.fed_one(store, id).stability.of(id)
            &&& n.last_ts(id) == p.fed_one(store, id).last_ts(id)
        }),
    decreases routes.len(),
{
    let id = routes[i].route_id;
    let rest = routes.drop_last();
    let mid = p.fed(store, rest);
    let last = routes.last().route_id;
    let far = id.push('x');
    assert(far.len() != id.len());
    assert forall|a: int, b: int| 0 <= a < b < rest.len() implies (#[trigger] rest[a]).route_id != (
    #[trigger] rest[b]).route_id by {
        assert(rest[a] == routes[a] && rest[b] == routes[b]);
    }
    lemma_fed_bounded(p, store, rest);
    assert(mid.stability.of(last).len() <= p.stability.cap);
    assert(p.stability.of(id).len() <= p.stability.cap);
    if i < rest.len() {
        assert(rest[i] == routes[i]);
        law_every_route_is_fed(p, store, rest, i);
        assert(routes[i].route_id != routes[routes.len() - 1].route_id);
        law_route_is_fed(mid, store, last, id);
    } else {
        assert forall|k: int| 0 <= k < rest.len() implies (#[trigger] rest[k]).route_id != id by {
            assert(rest[k] == routes[k]);
            assert(routes[k].route_id != routes[i].route_id);
        }
        lemma_fed_elsewhere(p, store, rest, id);
        law_route_is_fed(mid, store, id, far);
        law_route_is_fed(p, store, id, far);
    }
}

} // verus!
