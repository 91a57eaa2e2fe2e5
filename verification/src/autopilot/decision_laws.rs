//! What the decisions of the autopilot rest on.

use crate::arith::{divides_in_order, result, Op};
use crate::autopilot::policy::{FsmState, PolicyConfig};
use crate::autopilot::stability::{law_index_in_range, HistoryView};
use crate::autopilot::{
    best_first, candidates_in, effective_of, law_candidates_are_complete,
    law_candidates_are_ordered, newer, placed, rated, to_record, AutopilotIntent, DecisionReason,
    DecisionView, PilotView, Rated,
};
use crate::game_detection::SignalView;
use crate::metrics::PingSample;
use crate::scalar::{
    code_magnitude, lemma_bounded_is_finite, lemma_code_orders, lemma_one, Scalar,
};
use crate::snapshot::{lemma_first_route, Health, RouteView, SnapshotView};
use vstd::prelude::*;

verus! {

/// What a unit gives for the score of a route divided by how steady the route is,
/// which counts as one hundredth at least.
pub open spec fn burden<F: Fn(Op) -> Scalar>(unit: F, h: HistoryView, r: RouteView) -> Scalar {
    let steady = h.index(unit, r.route_id);
    let floor = Scalar { bits: 0x3c23_d70a };
    result(
        unit,
        Op::Over(
            r.score,
            if steady.at_least(floor) {
                steady
            } else {
                floor
            },
        ),
    )
}

/// Whether what every route that is not bad has to bear is a number.
pub open spec fn all_rated<F: Fn(Op) -> Scalar>(
    unit: F,
    h: HistoryView,
    routes: Seq<RouteView>,
) -> bool {
    forall|i: int| 0 <= i < routes.len() ==> !burden(unit, h, #[trigger] routes[i]).nan()
}

/// Whether no two routes have the same id.
pub open spec fn apart(routes: Seq<RouteView>) -> bool {
    forall|i: int, j: int|
        0 <= i < j < routes.len() ==> (#[trigger] routes[i]).route_id != (
        #[trigger] routes[j]).route_id
}

/// The decision on a snapshot, once the history is fed.
pub open spec fn decision_on<F: Fn(Op) -> Scalar>(
    unit: F,
    p: PilotView,
    snap: SnapshotView,
    game: SignalView,
    now_ms: u64,
    timestamp_ms: i64,
) -> DecisionView {
    p.decided(unit, snap, game, now_ms, timestamp_ms).last_decision->0
}

proof fn lemma_hundredth()
    ensures
        (Scalar { bits: 0x3c23_d70a }).finite(),
        (Scalar { bits: 0x3c23_d70a }).value() > 0,
{
    lemma_code_orders(0, 0x3c23_d70a);
    assert(code_magnitude(0) == 0);
}

proof fn lemma_burden<F: Fn(Op) -> Scalar>(unit: F, h: HistoryView, r: RouteView)
    ensures
        rated(unit, h, r) == (Rated { id: r.route_id, effective: burden(unit, h, r) }),
{
    lemma_hundredth();
}

// ---------------------------------------------------------------------------
// The recommendation
// ---------------------------------------------------------------------------

proof fn lemma_placed_first(sorted: Seq<Rated>, x: Rated)
    requires
        best_first(sorted),
        forall|i: int| 0 <= i < sorted.len() ==> !(#[trigger] sorted[i]).effective.nan(),
        !x.effective.nan(),
    ensures
        placed(sorted, x).len() > 0,
        placed(sorted, x)[0] == if sorted.len() == 0 || x.effective.less(sorted[0].effective) {
            x
        } else {
            sorted[0]
        },
    decreases sorted.len(),
{
    if sorted.len() > 0 {
        let last = sorted.last();
        let rest = sorted.drop_last();
        assert(sorted[sorted.len() - 1] == last);
        if x.effective.less(last.effective) {
            assert(forall|i: int| 0 <= i < rest.len() ==> #[trigger] rest[i] == sorted[i]);
            lemma_placed_first(rest, x);
        } else if sorted.len() > 1 {
            assert(!last.effective.less(sorted[0].effective));
        }
    }
}

/// The first candidate is the route with the least to bear, and of equal ones the
/// first.
proof fn lemma_first_candidate<F: Fn(Op) -> Scalar>(
    unit: F,
    h: HistoryView,
    routes: Seq<RouteView>,
) -> (k: int)
    requires
        all_rated(unit, h, routes),
        exists|i: int| 0 <= i < routes.len() && (#[trigger] routes[i]).health != Health::Bad,
    ensures
        0 <= k < routes.len(),
        routes[k].health != Health::Bad,
        candidates_in(unit, h, routes).len() > 0,
        candidates_in(unit, h, routes)[0] == rated(unit, h, routes[k]),
        forall|i: int|
            0 <= i < routes.len() && (#[trigger] routes[i]).health != Health::Bad ==> {
                &&& burden(unit, h, routes[k]).value() <= burden(unit, h, routes[i]).value()
                &&& i < k ==> burden(unit, h, routes[k]).value() < burden(
                    unit,
                    h,
                    routes[i],
                ).value()
            },
    decreases routes.len(),
{
    let n = routes.len() - 1;
    let rest = routes.drop_last();
    let before = candidates_in(unit, h, rest);
    assert(forall|i: int| 0 <= i < rest.len() ==> #[trigger] rest[i] == routes[i]);
    assert(routes[n] == routes.last());
    assert forall|i: int| 0 <= i < routes.len() implies !rated(
        unit,
        h,
        #[trigger] routes[i],
    ).effective.nan() by {
        lemma_burden(unit, h, routes[i]);
    }
    law_candidates_are_ordered(unit, h, rest);
    law_candidates_are_complete(unit, h, rest);
    lemma_burden(unit, h, routes[n]);
    if exists|i: int| 0 <= i < rest.len() && (#[trigger] rest[i]).health != Health::Bad {
        let k = lemma_first_candidate(unit, h, rest);
        lemma_burden(unit, h, routes[k]);
        if routes[n].health != Health::Bad {
            lemma_placed_first(before, rated(unit, h, routes[n]));
        }
        let r = if routes[n].health != Health::Bad && burden(unit, h, routes[n]).value() < burden(
            unit,
            h,
            routes[k],
        ).value() {
            n
        } else {
            k
        };
        assert forall|i: int|
            0 <= i < routes.len() && (#[trigger] routes[i]).health != Health::Bad implies ({
            &&& burden(unit, h, routes[r]).value() <= burden(unit, h, routes[i]).value()
            &&& i < r ==> burden(unit, h, routes[r]).value() < burden(unit, h, routes[i]).value()
        }) by {
            if i < n {
                assert(rest[i] == routes[i]);
            }
        }
        r
    } else {
        assert(before.len() == 0) by {
            if before.len() > 0 {
                assert(before.contains(before[0]));
            }
        }
        assert forall|i: int|
            0 <= i < routes.len() && (#[trigger] routes[i]).health != Health::Bad implies i == n by {
            if i < n {
                assert(rest[i] == routes[i]);
            }
        }
        lemma_placed_first(before, rated(unit, h, routes[n]));
        n
    }
}

/// The route recommended is, of those that are not bad, the one whose score
/// divided by its steadiness is lowest, and of equal ones the first. All of these
/// are to be numbers.
pub proof fn law_least_burden_is_recommended<F: Fn(Op) -> Scalar>(
    unit: F,
    p: PilotView,
    snap: SnapshotView,
    game: SignalView,
    now_ms: u64,
    timestamp_ms: i64,
) -> (k: int)
    requires
        all_rated(unit, p.stability, snap.routes),
        exists|i: int|
            0 <= i < snap.routes.len() && (#[trigger] snap.routes[i]).health != Health::Bad,
    ensures
        0 <= k < snap.routes.len(),
        snap.routes[k].health != Health::Bad,
        decision_on(unit, p, snap, game, now_ms, timestamp_ms).to_route == Some(
            snap.routes[k].route_id,
        ),
        forall|i: int|
            0 <= i < snap.routes.len() && (#[trigger] snap.routes[i]).health != Health::Bad ==> {
                let (best, other) = (
                    burden(unit, p.stability, snap.routes[k]),
                    burden(unit, p.stability, snap.routes[i]),
                );
                &&& best.value() <= other.value()
                &&& i < k ==> best.value() < other.value()
            },
{
    let k = lemma_first_candidate(unit, p.stability, snap.routes);
    k
}

/// Where every route is bad there is nothing to recommend, and nothing is done.
pub proof fn law_nothing_without_candidates<F: Fn(Op) -> Scalar>(
    unit: F,
    p: PilotView,
    snap: SnapshotView,
    game: SignalView,
    now_ms: u64,
    timestamp_ms: i64,
)
    requires
        forall|i: int|
            0 <= i < snap.routes.len() ==> (#[trigger] snap.routes[i]).health == Health::Bad,
    ensures
        ({
            let d = decision_on(unit, p, snap, game, now_ms, timestamp_ms);
            &&& d.to_route is None
            &&& d.intent == AutopilotIntent::Hold
            &&& d.reason == DecisionReason::NoCandidates
        }),
{
    law_candidates_are_complete(unit, p.stability, snap.routes);
    let c = candidates_in(unit, p.stability, snap.routes);
    if c.len() > 0 {
        assert(c.contains(c[0]));
    }
}

/// Unsteadiness never helps: a route that is no steadier than another and scores
/// no lower has no less to bear; and where the unit tells the two apart, it is
/// not the one recommended. For a unit that divides in order, and routes with
/// different ids.
pub proof fn law_unsteadiness_never_helps<F: Fn(Op) -> Scalar>(
    unit: F,
    p: PilotView,
    snap: SnapshotView,
    game: SignalView,
    now_ms: u64,
    timestamp_ms: i64,
    a: int,
    b: int,
)
    requires
        divides_in_order(unit),
        apart(snap.routes),
        0 <= a < snap.routes.len(),
        0 <= b < snap.routes.len(),
        snap.routes[a].health != Health::Bad,
        snap.routes[b].health != Health::Bad,
        forall|i: int|
            0 <= i < snap.routes.len() ==> !(#[trigger] snap.routes[i]).score.nan()
                && snap.routes[i].score.value() >= 0 && !p.stability.index(
                unit,
                snap.routes[i].route_id,
            ).nan(),
        snap.routes[a].score.value() <= snap.routes[b].score.value(),
        p.stability.index(unit, snap.routes[b].route_id).value() <= p.stability.index(
            unit,
            snap.routes[a].route_id,
        ).value(),
    ensures
        burden(unit, p.stability, snap.routes[a]).value() <= burden(
            unit,
            p.stability,
            snap.routes[b],
        ).value(),
        burden(unit, p.stability, snap.routes[a]).value() != burden(
            unit,
            p.stability,
            snap.routes[b],
        ).value() ==> decision_on(unit, p, snap, game, now_ms, timestamp_ms).to_route != Some(
            snap.routes[b].route_id,
        ),
{
    let h = p.stability;
    let routes = snap.routes;
    lemma_hundredth();
    lemma_one();
    assert(all_rated(unit, h, routes)) by {
        assert forall|i: int| 0 <= i < routes.len() implies !burden(
            unit,
            h,
            #[trigger] routes[i],
        ).nan() by {
            lemma_divisor(unit, h, routes[i]);
            let x = burden(unit, h, routes[i]);
        }
    }
    lemma_divisor(unit, h, routes[a]);
    lemma_divisor(unit, h, routes[b]);
    let k = law_least_burden_is_recommended(unit, p, snap, game, now_ms, timestamp_ms);
    assert(burden(unit, h, routes[k]).value() <= burden(unit, h, routes[a]).value());
    if routes[k].route_id == routes[b].route_id && k != b {
        if k < b {
            assert(routes[k].route_id != routes[b].route_id);
        } else {
            assert(routes[b].route_id != routes[k].route_id);
        }
    }
}

/// What a score is divided by is a finite number above 0.
proof fn lemma_divisor<F: Fn(Op) -> Scalar>(unit: F, h: HistoryView, r: RouteView)
    requires
        !h.index(unit, r.route_id).nan(),
    ensures
        h.index(unit, r.route_id).finite(),
{
    law_index_in_range(unit, h, r.route_id);
    lemma_one();
    lemma_bounded_is_finite(h.index(unit, r.route_id), Scalar::one_value());
}

// ---------------------------------------------------------------------------
// Whether to switch
// ---------------------------------------------------------------------------

/// Whether a game is on: it was detected, with a confidence of one half at least.
pub open spec fn playing(game: SignalView) -> bool {
    game.detected && game.confidence.at_least(Scalar { bits: 0x3f00_0000 })
}

/// How often in a row a route has been recommended, counting this time.
pub open spec fn lasted(p: PilotView, id: Seq<char>) -> int {
    if p.last_recommended != Some(id) {
        1
    } else if p.streak < u32::MAX {
        p.streak + 1
    } else {
        u32::MAX as int
    }
}

/// The state in which a decision is made. Without routes it is the first one. A
/// game goes before all else; for a fifth of a second after it comes a recovery.
pub open spec fn state_now(p: PilotView, snap: SnapshotView, game: SignalView, now_ms: u64, health:
    Health) -> FsmState {
    if snap.routes.len() == 0 {
        FsmState::Init
    } else if playing(game) {
        FsmState::GameMode
    } else if p.fsm_state == FsmState::GameMode {
        FsmState::Recovery
    } else if p.fsm_state == FsmState::Recovery && now_ms < p.state_entered_ms + 200 {
        FsmState::Recovery
    } else if p.fsm_state != FsmState::Recovery && health == Health::Degraded {
        FsmState::Degraded
    } else {
        FsmState::Stable
    }
}

/// The pause that a switch has to keep.
pub open spec fn pause_now(cfg: PolicyConfig, playing: bool, state: FsmState, health: Health) -> u64 {
    if playing {
        cfg.game_mode_cooldown_ms
    } else if state == FsmState::Recovery {
        cfg.recovery_cooldown_ms
    } else if health == Health::Degraded {
        cfg.degraded_cooldown_ms
    } else {
        cfg.stable_cooldown_ms
    }
}

/// The gain that a switch has to bring.
pub open spec fn margin_now(cfg: PolicyConfig, playing: bool, health: Health) -> Scalar {
    if playing {
        cfg.game_mode_margin
    } else if health == Health::Good {
        cfg.stable_margin
    } else if health == Health::Degraded {
        cfg.degraded_margin
    } else {
        cfg.other_margin
    }
}

/// Whether a decision is the right one on a route other than the one in use, which
/// is not bad: a switch exactly where the recommendation has lasted, the pause
/// since the last switch is over, and the gain is reached; else the first of these
/// that is missing is the reason to hold.
pub open spec fn judged(
    d: DecisionView,
    cfg: PolicyConfig,
    playing: bool,
    lasted: int,
    since_ms: int,
    pause_ms: int,
    gain: Scalar,
    margin: Scalar,
) -> bool {
    if lasted < cfg.hysteresis_streak {
        d.intent == AutopilotIntent::Hold && d.reason == DecisionReason::HysteresisPending
    } else if since_ms < pause_ms {
        d.intent == AutopilotIntent::Hold && d.reason == DecisionReason::CooldownActive
    } else if !gain.at_least(margin) {
        d.intent == AutopilotIntent::Hold && d.reason == DecisionReason::StableNoImprovement
    } else {
        d.intent == AutopilotIntent::Switch && d.reason == if playing {
            DecisionReason::GameModeSwitch
        } else {
            DecisionReason::Improvement
        }
    }
}

/// How long ago the last switch was.
pub open spec fn since_switch(p: PilotView, now_ms: u64) -> int {
    if now_ms < p.last_switch_ms {
        0
    } else {
        now_ms - p.last_switch_ms
    }
}

proof fn lemma_effective(list: Seq<Rated>, x: Rated)
    requires
        list.contains(x),
        forall|y: Rated| #[trigger] list.contains(y) && y.id == x.id ==> y == x,
    ensures
        effective_of(list, x.id) == Some(x.effective),
    decreases list.len(),
{
    let rest = list.drop_last();
    assert forall|y: Rated| #[trigger] rest.contains(y) implies list.contains(y) by {
        let i = rest.index_of(y);
        assert(list[i] == y);
    }
    if rest.contains(x) {
        lemma_effective(rest, x);
    } else {
        let i = list.index_of(x);
        if i < rest.len() {
            assert(rest[i] == x);
        }
        assert(list.last() == x);
        lemma_no_effective(rest, x.id);
    }
}

proof fn lemma_no_effective(list: Seq<Rated>, id: Seq<char>)
    requires
        forall|y: Rated| #[trigger] list.contains(y) ==> y.id != id,
    ensures
        effective_of(list, id) is None,
    decreases list.len(),
{
    if list.len() > 0 {
        let rest = list.drop_last();
        assert forall|y: Rated| #[trigger] rest.contains(y) implies y.id != id by {
            let i = rest.index_of(y);
            assert(list[i] == y);
            assert(list.contains(y));
        }
        lemma_no_effective(rest, id);
        assert(list[list.len() - 1] == list.last());
        assert(list.contains(list.last()));
    }
}

/// What a route has to bear is found among the candidates, if it is one.
proof fn lemma_effective_of_route<F: Fn(Op) -> Scalar>(
    unit: F,
    h: HistoryView,
    routes: Seq<RouteView>,
    c: int,
)
    requires
        apart(routes),
        0 <= c < routes.len(),
        routes[c].health != Health::Bad,
    ensures
        effective_of(candidates_in(unit, h, routes), routes[c].route_id) == Some(
            burden(unit, h, routes[c]),
        ),
{
    let list = candidates_in(unit, h, routes);
    let x = rated(unit, h, routes[c]);
    law_candidates_are_complete(unit, h, routes);
    lemma_burden(unit, h, routes[c]);
    assert forall|y: Rated| #[trigger] list.contains(y) && y.id == x.id implies y == x by {
        let i = choose|i: int|
            0 <= i < routes.len() && (#[trigger] routes[i]).health != Health::Bad && y == rated(
                unit,
                h,
                routes[i],
            );
        if i < c {
            assert(routes[i].route_id != routes[c].route_id);
        } else if c < i {
            assert(routes[c].route_id != routes[i].route_id);
        }
    }
    lemma_effective(list, x);
}

/// The route at a place is the one found under its id.
proof fn lemma_route_found(routes: Seq<RouteView>, c: int)
    requires
        apart(routes),
        0 <= c < routes.len(),
    ensures
        crate::snapshot::first_route(routes, routes[c].route_id) == Some(routes[c]),
{
    assert forall|j: int| 0 <= j < c implies (#[trigger] routes[j]).route_id
        != routes[c].route_id by {
        assert(routes[j].route_id != routes[c].route_id);
    }
    lemma_first_route(routes, routes[c].route_id, c);
}

/// A switch from one route to a better one is decided by how often the better one
/// was recommended in a row, by the pause since the last switch, and by the gain:
/// how much less the better route has to bear, relative to the one in use, or a
/// whole where the one in use has nothing to bear. Routes are to have different
/// ids.
pub proof fn law_switch_is_decided<F: Fn(Op) -> Scalar>(
    unit: F,
    p: PilotView,
    snap: SnapshotView,
    game: SignalView,
    now_ms: u64,
    timestamp_ms: i64,
    c: int,
    k: int,
)
    requires
        apart(snap.routes),
        0 <= c < snap.routes.len(),
        0 <= k < snap.routes.len(),
        c != k,
        snap.selected == Some(snap.routes[c].route_id),
        snap.routes[c].health != Health::Bad,
        snap.routes[k].health != Health::Bad,
        decision_on(unit, p, snap, game, now_ms, timestamp_ms).to_route == Some(
            snap.routes[k].route_id,
        ),
    ensures
        ({
            let health = snap.routes[c].health;
            let (now, better) = (
                burden(unit, p.stability, snap.routes[c]),
                burden(unit, p.stability, snap.routes[k]),
            );
            judged(
                decision_on(unit, p, snap, game, now_ms, timestamp_ms),
                p.policy,
                playing(game),
                lasted(p, snap.routes[k].route_id),
                since_switch(p, now_ms),
                pause_now(
                    p.policy,
                    playing(game),
                    state_now(p, snap, game, now_ms, health),
                    health,
                ) as int,
                if !now.nan() && now.value() > 0 {
                    result(unit, Op::Over(result(unit, Op::Minus(now, better)), now))
                } else {
                    Scalar { bits: 0x3f80_0000 }
                },
                margin_now(p.policy, playing(game), health),
            )
        }),
{
    lemma_one();
    lemma_route_found(snap.routes, c);
    lemma_effective_of_route(unit, p.stability, snap.routes, c);
    lemma_effective_of_route(unit, p.stability, snap.routes, k);
    if c < k {
        assert(snap.routes[c].route_id != snap.routes[k].route_id);
    } else {
        assert(snap.routes[k].route_id != snap.routes[c].route_id);
    }
}

/// Where no route is in use, or none that the snapshot has, any gain will do: the
/// recommendation has to last and the pause to be over, and the margin is held
/// against a whole.
pub proof fn law_first_switch_is_decided<F: Fn(Op) -> Scalar>(
    unit: F,
    p: PilotView,
    snap: SnapshotView,
    game: SignalView,
    now_ms: u64,
    timestamp_ms: i64,
    k: int,
)
    requires
        0 <= k < snap.routes.len(),
        forall|i: int|
            0 <= i < snap.routes.len() ==> Some((#[trigger] snap.routes[i]).route_id)
                != snap.selected,
        decision_on(unit, p, snap, game, now_ms, timestamp_ms).to_route == Some(
            snap.routes[k].route_id,
        ),
    ensures
        judged(
            decision_on(unit, p, snap, game, now_ms, timestamp_ms),
            p.policy,
            playing(game),
            lasted(p, snap.routes[k].route_id),
            since_switch(p, now_ms),
            pause_now(
                p.policy,
                playing(game),
                state_now(p, snap, game, now_ms, Health::Unknown),
                Health::Unknown,
            ) as int,
            Scalar { bits: 0x3f80_0000 },
            margin_now(p.policy, playing(game), Health::Unknown),
        ),
{
    assert(Some(snap.routes[k].route_id) != snap.selected);
    match snap.selected {
        None => {},
        Some(id) => {
            assert forall|j: int|
                0 <= j < snap.routes.len() implies (#[trigger] snap.routes[j]).route_id != id by {
                assert(Some(snap.routes[j].route_id) != snap.selected);
            }
            lemma_first_route(snap.routes, id, snap.routes.len() as int);
            law_candidates_are_complete(unit, p.stability, snap.routes);
            let list = candidates_in(unit, p.stability, snap.routes);
            assert forall|y: Rated| #[trigger] list.contains(y) implies y.id != id by {
                let i = choose|i: int|
                    0 <= i < snap.routes.len() && (#[trigger] snap.routes[i]).health != Health::Bad
                        && y == rated(unit, p.stability, snap.routes[i]);
                assert(snap.routes[i].route_id != id);
            }
            lemma_no_effective(list, id);
        },
    }
}

/// The best route stays in use, and a bad one is left at once for the best.
pub proof fn law_best_stays_and_bad_goes<F: Fn(Op) -> Scalar>(
    unit: F,
    p: PilotView,
    snap: SnapshotView,
    game: SignalView,
    now_ms: u64,
    timestamp_ms: i64,
    c: int,
)
    requires
        apart(snap.routes),
        0 <= c < snap.routes.len(),
        snap.selected == Some(snap.routes[c].route_id),
        exists|i: int|
            0 <= i < snap.routes.len() && (#[trigger] snap.routes[i]).health != Health::Bad,
    ensures
        ({
            let d = decision_on(unit, p, snap, game, now_ms, timestamp_ms);
            &&& d.to_route is Some
            &&& d.to_route == snap.selected ==> d.intent == AutopilotIntent::Hold && d.reason
                == DecisionReason::AlreadyOnBest
            &&& snap.routes[c].health == Health::Bad ==> d.to_route != snap.selected && d.intent
                == AutopilotIntent::Switch && d.reason == DecisionReason::EmergencyBypass
        }),
{
    let list = candidates_in(unit, p.stability, snap.routes);
    lemma_route_found(snap.routes, c);
    law_candidates_are_complete(unit, p.stability, snap.routes);
    let i = choose|i: int|
        0 <= i < snap.routes.len() && (#[trigger] snap.routes[i]).health != Health::Bad;
    assert(list.contains(rated(unit, p.stability, snap.routes[i])));
    assert(list.contains(list[0]));
    let j = choose|j: int|
        0 <= j < snap.routes.len() && (#[trigger] snap.routes[j]).health != Health::Bad && list[0]
            == rated(unit, p.stability, snap.routes[j]);
    if j < c {
        assert(snap.routes[j].route_id != snap.routes[c].route_id);
    } else if c < j {
        assert(snap.routes[c].route_id != snap.routes[j].route_id);
    }
}

/// What is kept from one decision to the next: the recommendation and how often in
/// a row it came, the state and since when, and when the last switch was. The
/// decision names the route in use and how steady each route is.
pub proof fn law_decision_is_kept<F: Fn(Op) -> Scalar>(
    unit: F,
    p: PilotView,
    snap: SnapshotView,
    game: SignalView,
    now_ms: u64,
    timestamp_ms: i64,
)
    ensures
        ({
            let q = p.decided(unit, snap, game, now_ms, timestamp_ms);
            let d = decision_on(unit, p, snap, game, now_ms, timestamp_ms);
            &&& q.last_decision == Some(d)
            &&& q.last_recommended == d.to_route
            &&& d.to_route is Some ==> q.streak == lasted(p, d.to_route->0)
            &&& q.fsm_state == d.fsm_state
            &&& q.state_entered_ms == if q.fsm_state == p.fsm_state {
                p.state_entered_ms
            } else {
                now_ms
            }
            &&& q.last_switch_ms == if d.intent == AutopilotIntent::Switch {
                now_ms
            } else {
                p.last_switch_ms
            }
            &&& q.stability == p.stability
            &&& q.policy == p.policy
            &&& q.last_recorded_ts == p.last_recorded_ts
            &&& d.from_route == snap.selected
            &&& d.timestamp_ms == timestamp_ms
            &&& d.stability.len() == snap.routes.len()
            &&& forall|i: int|
                0 <= i < snap.routes.len() ==> #[trigger] d.stability[i] == (
                    snap.routes[i].route_id,
                    p.stability.index(unit, snap.routes[i].route_id),
                )
        }),
{
}

/// The state follows the game and the health of the route in use.
pub proof fn law_states<F: Fn(Op) -> Scalar>(
    unit: F,
    p: PilotView,
    snap: SnapshotView,
    game: SignalView,
    now_ms: u64,
    timestamp_ms: i64,
    c: int,
)
    requires
        apart(snap.routes),
        0 <= c < snap.routes.len(),
        snap.selected == Some(snap.routes[c].route_id),
    ensures
        decision_on(unit, p, snap, game, now_ms, timestamp_ms).fsm_state == state_now(
            p,
            snap,
            game,
            now_ms,
            snap.routes[c].health,
        ),
{
    lemma_route_found(snap.routes, c);
}

// ---------------------------------------------------------------------------
// Feeding the history
// ---------------------------------------------------------------------------

/// What is recorded of the samples of a route: all of them the first time. Later
/// those newer than the last one recorded, in their order; where there is none,
/// the latest once more if it is of that very time, and otherwise nothing.
pub proof fn law_new_samples_are_recorded(samples: Seq<PingSample>, t: i64)
    ensures
        to_record(samples, None) == samples,
        ({
            let fresh = samples.filter(|s: PingSample| s.timestamp_ms > t);
            to_record(samples, Some(t)) == if fresh.len() > 0 {
                fresh
            } else if samples.len() > 0 && samples.last().timestamp_ms == t {
                seq![samples.last()]
            } else {
                seq![]
            }
        }),
{
    lemma_newer(samples, t);
}

proof fn lemma_newer(samples: Seq<PingSample>, t: i64)
    ensures
        newer(samples, t as int) == samples.filter(|s: PingSample| s.timestamp_ms > t),
    decreases samples.len(),
{
    reveal(Seq::filter);
    if samples.len() > 0 {
        lemma_newer(samples.drop_last(), t);
    }
}

} // verus!
