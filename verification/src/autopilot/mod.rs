//! The autopilot: on every snapshot it decides whether to stay or to switch.
//!
//! It only says what should be done; the caller acts on it.

pub mod decision_laws;
pub mod feeding_laws;
pub mod index_laws;
pub mod policy;
pub mod stability;
pub mod stability_laws;

use crate::arith::{dependable, diff, diff_of, quotient, quotient_of, Op};
use crate::game_detection::{GameSignal, SignalView};
use crate::metrics::{MetricsStore, PingSample, StoreView};
use crate::name_map::NameMap;
use crate::scalar::{Scalar, HALF_BITS, ONE_BITS, ZERO_BITS};
use crate::snapshot::{Health, RouteView, Snapshot, SnapshotView};
use crate::text::{opt_text, same_opt_text, same_text};
use vstd::prelude::*;

use policy::{
    verdict_on, FsmState, PolicyConfig, PolicyContext, PolicyGate, PolicyVerdict, Verdict,
};
use stability::{HistoryView, StabilityHistory, StabilitySample};

verus! {

/// The encoding of 0.01, the least by which a score is divided.
pub const MIN_INDEX_BITS: u32 = 0x3c23_d70a;

/// How long a recovery lasts.
pub const RECOVERY_MS: u64 = 200;

/// What to do.
#[derive(Debug, Clone, Copy, PartialEq, Eq, Structural)]
pub enum AutopilotIntent {
    Hold,
    Switch,
}

/// Why to do it.
#[derive(Debug, Clone, Copy, PartialEq, Eq, Structural)]
pub enum DecisionReason {
    NoCandidates,
    AlreadyOnBest,
    StableNoImprovement,
    CooldownActive,
    HysteresisPending,
    Improvement,
    GameModeSwitch,
    EmergencyBypass,
}

/// A decision of the autopilot.
#[derive(Debug, Clone)]
pub struct AutopilotDecision {
    pub intent: AutopilotIntent,
    pub reason: DecisionReason,
    pub from_route: Option<String>,
    pub to_route: Option<String>,
    pub fsm_state: FsmState,
    /// How steady each route of the snapshot is, in the order of the snapshot.
    pub stability: Vec<(String, Scalar)>,
    pub verdict: Option<PolicyVerdict>,
    pub timestamp_ms: i64,
}

/// What an `AutopilotDecision` holds.
#[verifier::ext_equal]
pub struct DecisionView {
    pub intent: AutopilotIntent,
    pub reason: DecisionReason,
    pub from_route: Option<Seq<char>>,
    pub to_route: Option<Seq<char>>,
    pub fsm_state: FsmState,
    pub stability: Seq<(Seq<char>, Scalar)>,
    pub verdict: Option<PolicyVerdict>,
    pub timestamp_ms: i64,
}

/// What a list of names with numbers holds.
pub open spec fn named(list: Seq<(String, Scalar)>) -> Seq<(Seq<char>, Scalar)> {
    Seq::new(list.len(), |i: int| (list[i].0@, list[i].1))
}

fn copy_named(list: &Vec<(String, Scalar)>) -> (r: Vec<(String, Scalar)>)
    ensures
        named(r@) == named(list@),
{
    let mut out: Vec<(String, Scalar)> = Vec::new();
    let mut i: usize = 0;
    while i < list.len()
        invariant
            i <= list@.len(),
            out@.len() == i,
            forall|j: int|
                0 <= j < i ==> (#[trigger] out@[j]).0@ == list@[j].0@ && out@[j].1 == list@[j].1,
        decreases list@.len() - i,
    {
        out.push((list[i].0.clone(), list[i].1));
        i = i + 1;
    }
    assert(named(out@) =~= named(list@));
    out
}

impl View for AutopilotDecision {
    type V = DecisionView;

    open spec fn view(&self) -> DecisionView {
        DecisionView {
            intent: self.intent,
            reason: self.reason,
            from_route: opt_text(self.from_route),
            to_route: opt_text(self.to_route),
            fsm_state: self.fsm_state,
            stability: named(self.stability@),
            verdict: self.verdict,
            timestamp_ms: self.timestamp_ms,
        }
    }
}

impl AutopilotDecision {
    /// The recommended route.
    pub fn recommended_id(&self) -> (r: Option<String>)
        ensures
            opt_text(r) == self@.to_route,
    {
        self.to_route.clone()
    }

    /// The route to switch to, if that is the intent.
    pub fn switch_target(&self) -> (r: Option<String>)
        ensures
            opt_text(r) == if self@.intent == AutopilotIntent::Switch {
                self@.to_route
            } else {
                None
            },
    {
        match self.intent {
            AutopilotIntent::Switch => self.to_route.clone(),
            _ => None,
        }
    }

    fn copy(&self) -> (r: AutopilotDecision)
        ensures
            r@ == self@,
    {
        AutopilotDecision {
            intent: self.intent,
            reason: self.reason,
            from_route: self.from_route.clone(),
            to_route: self.to_route.clone(),
            fsm_state: self.fsm_state,
            stability: copy_named(&self.stability),
            verdict: self.verdict,
            timestamp_ms: self.timestamp_ms,
        }
    }
}

/// The state of the autopilot.
#[derive(Debug, Clone)]
pub struct FsmStateView {
    pub state: FsmState,
    pub streak: u32,
    pub last_recommended: Option<String>,
    pub state_entered_ms: u64,
    pub elapsed_ms: u64,
}

/// Decides on every snapshot whether to stay or to switch.
#[derive(Debug)]
pub struct Autopilot {
    stability: StabilityHistory,
    policy: PolicyGate,
    fsm_state: FsmState,
    state_entered_ms: u64,
    last_recommended: Option<String>,
    streak: u32,
    last_recorded_ts: NameMap<i64>,
    last_decision: Option<AutopilotDecision>,
    last_switch_ms: u64,
}

/// What an `Autopilot` holds.
#[verifier::ext_equal]
pub struct PilotView {
    pub stability: HistoryView,
    pub policy: PolicyConfig,
    pub fsm_state: FsmState,
    pub state_entered_ms: u64,
    pub last_recommended: Option<Seq<char>>,
    pub streak: u32,
    pub last_recorded_ts: Map<Seq<char>, i64>,
    pub last_decision: Option<DecisionView>,
    pub last_switch_ms: u64,
}

/// What an optional decision holds.
pub open spec fn opt_decision(d: Option<AutopilotDecision>) -> Option<DecisionView> {
    match d {
        Some(x) => Some(x@),
        None => None,
    }
}

impl View for Autopilot {
    type V = PilotView;

    closed spec fn view(&self) -> PilotView {
        PilotView {
            stability: self.stability@,
            policy: self.policy@,
            fsm_state: self.fsm_state,
            state_entered_ms: self.state_entered_ms,
            last_recommended: opt_text(self.last_recommended),
            streak: self.streak,
            last_recorded_ts: self.last_recorded_ts@,
            last_decision: opt_decision(self.last_decision),
            last_switch_ms: self.last_switch_ms,
        }
    }
}

// ---------------------------------------------------------------------------
// Feeding the history
// ---------------------------------------------------------------------------

/// The samples of a list that are newer than a time.
pub open spec fn newer(samples: Seq<PingSample>, than: int) -> Seq<PingSample>
    decreases samples.len(),
{
    if samples.len() == 0 {
        seq![]
    } else if samples.last().timestamp_ms > than {
        newer(samples.drop_last(), than).push(samples.last())
    } else {
        newer(samples.drop_last(), than)
    }
}

/// The samples to record, after the last one was recorded at a given time, if
/// any was: all that are newer, or once more the latest where it is no older.
pub open spec fn to_record(samples: Seq<PingSample>, last: Option<i64>) -> Seq<PingSample> {
    match last {
        None => samples,
        Some(t) => if newer(samples, t as int).len() > 0 {
            newer(samples, t as int)
        } else if samples.len() > 0 && samples.last().timestamp_ms == t {
            seq![samples.last()]
        } else {
            seq![]
        },
    }
}

/// A history with some more samples of a route.
pub open spec fn recorded_all(h: HistoryView, id: Seq<char>, samples: Seq<PingSample>) -> HistoryView
    decreases samples.len(),
{
    if samples.len() == 0 {
        h
    } else {
        recorded_all(h, id, samples.drop_last()).recorded(
            id,
            StabilitySample::of_ping(samples.last()),
        )
    }
}

impl PilotView {
    /// When the last sample of a route was recorded.
    pub open spec fn last_ts(self, id: Seq<char>) -> Option<i64> {
        if self.last_recorded_ts.dom().contains(id) {
            Some(self.last_recorded_ts[id])
        } else {
            None
        }
    }

    /// The autopilot after taking in the samples of one route, provided that the
    /// latest of them is not older than what was recorded.
    pub open spec fn fed_one(self, store: StoreView, id: Seq<char>) -> PilotView {
        let samples = store.samples(id);
        let last = self.last_ts(id);
        if samples.len() == 0 || (last is Some && samples.last().timestamp_ms < last->0) {
            self
        } else {
            PilotView {
                stability: recorded_all(self.stability, id, to_record(samples, last)),
                last_recorded_ts: self.last_recorded_ts.insert(id, samples.last().timestamp_ms),
                ..self
            }
        }
    }

    /// The autopilot after taking in the samples of some routes.
    pub open spec fn fed(self, store: StoreView, routes: Seq<RouteView>) -> PilotView
        decreases routes.len(),
    {
        if routes.len() == 0 {
            self
        } else {
            self.fed(store, routes.drop_last()).fed_one(store, routes.last().route_id)
        }
    }
}

// ---------------------------------------------------------------------------
// Candidates
// ---------------------------------------------------------------------------

/// A route with its score, divided by how steady it is.
#[verifier::ext_equal]
pub struct Rated {
    pub id: Seq<char>,
    pub effective: Scalar,
}

/// How steady each route is.
pub open spec fn indices<F: Fn(Op) -> Scalar>(
    unit: F,
    h: HistoryView,
    routes: Seq<RouteView>,
) -> Seq<(Seq<char>, Scalar)> {
    Seq::new(routes.len(), |i: int| (routes[i].route_id, h.index(unit, routes[i].route_id)))
}

/// The effective score of a route.
pub open spec fn rated<F: Fn(Op) -> Scalar>(unit: F, h: HistoryView, r: RouteView) -> Rated {
    Rated {
        id: r.route_id,
        effective: quotient_of(
            unit,
            r.score,
            h.index(unit, r.route_id).larger(Scalar { bits: MIN_INDEX_BITS }),
        ),
    }
}

/// A list in the order of its scores with one more entry, behind those that do
/// not score higher.
pub open spec fn placed(sorted: Seq<Rated>, x: Rated) -> Seq<Rated>
    decreases sorted.len(),
{
    if sorted.len() > 0 && x.effective.less(sorted.last().effective) {
        placed(sorted.drop_last(), x).push(sorted.last())
    } else {
        sorted.push(x)
    }
}

/// The routes that are not bad, the best first; equals keep their order.
pub open spec fn candidates_in<F: Fn(Op) -> Scalar>(
    unit: F,
    h: HistoryView,
    routes: Seq<RouteView>,
) -> Seq<Rated>
    decreases routes.len(),
{
    if routes.len() == 0 {
        seq![]
    } else {
        let before = candidates_in(unit, h, routes.drop_last());
        if routes.last().health == Health::Bad {
            before
        } else {
            placed(before, rated(unit, h, routes.last()))
        }
    }
}

/// The effective score of the first candidate with an id.
pub open spec fn effective_of(list: Seq<Rated>, id: Seq<char>) -> Option<Scalar>
    decreases list.len(),
{
    if list.len() == 0 {
        None
    } else {
        match effective_of(list.drop_last(), id) {
            Some(e) => Some(e),
            None => if list.last().id == id {
                Some(list.last().effective)
            } else {
                None
            },
        }
    }
}

// ---------------------------------------------------------------------------
// Decisions
// ---------------------------------------------------------------------------

/// Whether a signal is sure enough to count as a game.
pub open spec fn in_game(game: SignalView) -> bool {
    game.detected && game.confidence.at_least(Scalar { bits: HALF_BITS })
}

/// The health of the route in use.
pub open spec fn current_health(snap: SnapshotView) -> Health {
    match snap.selected {
        Some(id) => snap.health_of(id),
        None => Health::Unknown,
    }
}

impl PilotView {
    /// The next state. A game goes before all else; when it ends a recovery
    /// follows for a while.
    pub open spec fn next_state(self, snap: SnapshotView, game: SignalView, now_ms: int) -> FsmState {
        let in_state = if now_ms >= self.state_entered_ms {
            now_ms - self.state_entered_ms
        } else {
            0
        };
        if snap.routes.len() == 0 {
            FsmState::Init
        } else if in_game(game) {
            FsmState::GameMode
        } else if self.fsm_state == FsmState::GameMode {
            FsmState::Recovery
        } else if self.fsm_state == FsmState::Recovery {
            if in_state < RECOVERY_MS {
                FsmState::Recovery
            } else {
                FsmState::Stable
            }
        } else if current_health(snap) == Health::Degraded {
            FsmState::Degraded
        } else {
            FsmState::Stable
        }
    }
}

/// The gain of a switch: how much lower the new score is, relative to the old; a
/// whole where there is nothing to compare with.
pub open spec fn gain<F: Fn(Op) -> Scalar>(unit: F, cur: Option<Scalar>, rec: Option<Scalar>) -> Scalar {
    match (cur, rec) {
        (Some(c), Some(r)) => if Scalar::zero_value().less(c) {
            quotient_of(unit, diff_of(unit, c, r), c)
        } else {
            Scalar::one_value()
        },
        _ => Scalar::one_value(),
    }
}

/// What a decision rests on.
#[verifier::ext_equal]
pub struct Grounds {
    pub candidates: Seq<Rated>,
    pub streak: u32,
    pub fsm_state: FsmState,
    pub in_game: bool,
    pub stability: Seq<(Seq<char>, Scalar)>,
    pub timestamp_ms: i64,
}

/// What to do and why, by a verdict.
pub open spec fn by_verdict(v: PolicyVerdict, in_game: bool) -> (AutopilotIntent, DecisionReason) {
    if v.verdict == Verdict::Allow {
        (
            AutopilotIntent::Switch,
            if in_game {
                DecisionReason::GameModeSwitch
            } else {
                DecisionReason::Improvement
            },
        )
    } else {
        (
            AutopilotIntent::Hold,
            if v.streak < v.streak_needed {
                DecisionReason::HysteresisPending
            } else if v.elapsed_since_switch_ms < v.cooldown_ms {
                DecisionReason::CooldownActive
            } else {
                DecisionReason::StableNoImprovement
            },
        )
    }
}

impl PilotView {
    /// The decision on a snapshot.
    pub open spec fn decision<F: Fn(Op) -> Scalar>(
        self,
        unit: F,
        snap: SnapshotView,
        g: Grounds,
        now_ms: int,
    ) -> DecisionView {
        let base = DecisionView {
            intent: AutopilotIntent::Hold,
            reason: DecisionReason::NoCandidates,
            from_route: snap.selected,
            to_route: None,
            fsm_state: g.fsm_state,
            stability: g.stability,
            verdict: None,
            timestamp_ms: g.timestamp_ms,
        };
        if g.candidates.len() == 0 {
            base
        } else {
            let rec = g.candidates[0].id;
            let to = DecisionView { to_route: Some(rec), ..base };
            if snap.selected == Some(rec) {
                DecisionView { reason: DecisionReason::AlreadyOnBest, ..to }
            } else if current_health(snap) == Health::Bad {
                DecisionView {
                    intent: AutopilotIntent::Switch,
                    reason: DecisionReason::EmergencyBypass,
                    ..to
                }
            } else {
                let cur_score = match snap.selected {
                    Some(id) => effective_of(g.candidates, id),
                    None => None,
                };
                let v = verdict_on(
                    self.policy,
                    PolicyContext {
                        in_game: g.in_game,
                        current_health: current_health(snap),
                        fsm_state: g.fsm_state,
                        improvement: gain(unit, cur_score, effective_of(g.candidates, rec)),
                        streak: g.streak,
                        elapsed_since_switch_ms: (if now_ms >= self.last_switch_ms {
                            now_ms - self.last_switch_ms
                        } else {
                            0
                        }) as u64,
                    },
                );
                let (intent, reason) = by_verdict(v, g.in_game);
                DecisionView { intent, reason, verdict: Some(v), ..to }
            }
        }
    }

    /// How often in a row a route has been recommended, this time counted in.
    pub open spec fn next_streak(self, recommended: Option<Seq<char>>) -> u32 {
        if self.last_recommended != recommended {
            1
        } else if self.streak == u32::MAX {
            u32::MAX
        } else {
            (self.streak + 1) as u32
        }
    }

    /// What the decision on a snapshot rests on, once the history is fed.
    pub open spec fn grounds<F: Fn(Op) -> Scalar>(
        self,
        unit: F,
        snap: SnapshotView,
        game: SignalView,
        now_ms: int,
        timestamp_ms: i64,
    ) -> Grounds {
        let candidates = candidates_in(unit, self.stability, snap.routes);
        Grounds {
            candidates,
            streak: self.next_streak(
                if candidates.len() == 0 {
                    None
                } else {
                    Some(candidates[0].id)
                },
            ),
            fsm_state: self.next_state(snap, game, now_ms),
            in_game: in_game(game),
            stability: indices(unit, self.stability, snap.routes),
            timestamp_ms,
        }
    }

    /// The autopilot after its decision on a snapshot, once the history is fed.
    pub open spec fn decided<F: Fn(Op) -> Scalar>(
        self,
        unit: F,
        snap: SnapshotView,
        game: SignalView,
        now_ms: u64,
        timestamp_ms: i64,
    ) -> PilotView {
        let g = self.grounds(unit, snap, game, now_ms as int, timestamp_ms);
        let d = self.decision(unit, snap, g, now_ms as int);
        PilotView {
            fsm_state: g.fsm_state,
            state_entered_ms: if self.fsm_state != g.fsm_state {
                now_ms
            } else {
                self.state_entered_ms
            },
            last_recommended: d.to_route,
            streak: g.streak,
            last_decision: Some(d),
            last_switch_ms: if d.intent == AutopilotIntent::Switch {
                now_ms
            } else {
                self.last_switch_ms
            },
            ..self
        }
    }
}

/// A candidate: its id and its effective score.
#[derive(Debug, Clone)]
struct Candidate {
    id: String,
    effective: Scalar,
}

impl View for Candidate {
    type V = Rated;

    closed spec fn view(&self) -> Rated {
        Rated { id: self.id@, effective: self.effective }
    }
}

spec fn rated_views(list: Seq<Candidate>) -> Seq<Rated> {
    Seq::new(list.len(), |i: int| list[i]@)
}

fn find_effective(list: &Vec<Candidate>, id: &str) -> (r: Option<Scalar>)
    ensures
        r == effective_of(rated_views(list@), id@),
{
    let ghost v = rated_views(list@);
    let mut i: usize = 0;
    assert(v.take(0) =~= Seq::<Rated>::empty());
    while i < list.len()
        invariant
            i <= list@.len(),
            v == rated_views(list@),
            effective_of(v.take(i as int), id@) is None,
        decreases list@.len() - i,
    {
        assert(v.take(i as int + 1).drop_last() =~= v.take(i as int));
        assert(v.take(i as int + 1).last() == list@[i as int]@);
        if same_text(list[i].id.as_str(), id) {
            proof {
                lemma_effective_prefix(v, id@, i as int + 1);
            }
            return Some(list[i].effective);
        }
        i = i + 1;
    }
    assert(v.take(i as int) =~= v);
    None
}

/// A score found among the first ones is the one found.
proof fn lemma_effective_prefix(list: Seq<Rated>, id: Seq<char>, i: int)
    requires
        0 <= i <= list.len(),
        effective_of(list.take(i), id) is Some,
    ensures
        effective_of(list, id) == effective_of(list.take(i), id),
    decreases list.len() - i,
{
    if i < list.len() {
        assert(list.take(i + 1).drop_last() =~= list.take(i));
        lemma_effective_prefix(list, id, i + 1);
    } else {
        assert(list.take(i) =~= list);
    }
}

/// Where a candidate goes.
proof fn lemma_placed(sorted: Seq<Rated>, x: Rated, i: int)
    requires
        0 <= i <= sorted.len(),
        forall|j: int| i <= j < sorted.len() ==> x.effective.less((#[trigger] sorted[j]).effective),
        i > 0 ==> !x.effective.less(sorted[i - 1].effective),
    ensures
        placed(sorted, x) == sorted.insert(i, x),
    decreases sorted.len(),
{
    if i < sorted.len() {
        let rest = sorted.drop_last();
        assert(sorted[sorted.len() - 1] == sorted.last());
        lemma_placed(rest, x, i);
        assert(rest.insert(i, x).push(sorted.last()) =~= sorted.insert(i, x));
    } else {
        assert(sorted.insert(i, x) =~= sorted.push(x));
    }
}

fn place(list: &mut Vec<Candidate>, x: Candidate)
    ensures
        rated_views(final(list)@) == placed(rated_views(old(list)@), x@),
{
    let ghost v = rated_views(list@);
    let mut i: usize = list.len();
    while i > 0 && x.effective.lt(&list[i - 1].effective)
        invariant
            i <= list@.len() == v.len(),
            v == rated_views(list@),
            list@ == old(list)@,
            forall|j: int| i <= j < v.len() ==> x@.effective.less((#[trigger] v[j]).effective),
        decreases i,
    {
        assert(v[i - 1] == list@[i - 1]@);
        i = i - 1;
    }
    proof {
        if i > 0 {
            assert(v[i - 1] == list@[i - 1]@);
        }
        lemma_placed(v, x@, i as int);
    }
    list.insert(i, x);
    assert(rated_views(list@) =~= v.insert(i as int, x@));
}

fn newer_samples(samples: &Vec<PingSample>, than: i64) -> (r: Vec<PingSample>)
    ensures
        r@ == newer(samples@, than as int),
{
    let mut out: Vec<PingSample> = Vec::new();
    let mut i: usize = 0;
    assert(samples@.take(0) =~= Seq::<PingSample>::empty());
    while i < samples.len()
        invariant
            i <= samples@.len(),
            out@ == newer(samples@.take(i as int), than as int),
        decreases samples@.len() - i,
    {
        assert(samples@.take(i as int + 1).drop_last() =~= samples@.take(i as int));
        assert(samples@.take(i as int + 1).last() == samples@[i as int]);
        if samples[i].timestamp_ms > than {
            out.push(samples[i]);
        }
        i = i + 1;
    }
    assert(samples@.take(i as int) =~= samples@);
    out
}

fn select_samples(samples: Vec<PingSample>, last: Option<i64>) -> (r: Vec<PingSample>)
    requires
        samples@.len() > 0,
    ensures
        r@ == to_record(samples@, last),
{
    match last {
        None => samples,
        Some(t) => {
            let fresh = newer_samples(&samples, t);
            if fresh.len() > 0 {
                return fresh;
            }
            let latest = samples[samples.len() - 1];
            let mut out: Vec<PingSample> = Vec::new();
            if latest.timestamp_ms == t {
                out.push(latest);
                assert(out@ =~= seq![samples@.last()]);
            } else {
                assert(out@ =~= Seq::<PingSample>::empty());
            }
            out
        },
    }
}

impl Autopilot {
    /// An autopilot that has seen nothing yet.
    pub fn new() -> (r: Autopilot)
        ensures
            r@ == (PilotView {
                stability: HistoryView {
                    samples: Map::empty(),
                    cap: stability::DEFAULT_CAP as int,
                },
                policy: PolicyConfig::usual(),
                fsm_state: FsmState::Init,
                state_entered_ms: 0,
                last_recommended: None,
                streak: 0,
                last_recorded_ts: Map::empty(),
                last_decision: None,
                last_switch_ms: 0,
            }),
    {
        Autopilot {
            stability: StabilityHistory::new(),
            policy: PolicyGate::new(),
            fsm_state: FsmState::Init,
            state_entered_ms: 0,
            last_recommended: None,
            streak: 0,
            last_recorded_ts: NameMap::new(),
            last_decision: None,
            last_switch_ms: 0,
        }
    }

    /// How steady a route is.
    pub fn stability_of<F: Fn(Op) -> Scalar>(&self, unit: &F, route_id: &str) -> (r: Scalar)
        requires
            dependable(*unit),
        ensures
            r == self@.stability.index(*unit, route_id@),
    {
        self.stability.stability_index(unit, route_id)
    }

    /// The state at a given moment.
    pub fn state(&self, now_ms: u64) -> (r: FsmStateView)
        ensures
            r.state == self@.fsm_state,
            r.streak == self@.streak,
            opt_text(r.last_recommended) == self@.last_recommended,
            r.state_entered_ms == self@.state_entered_ms,
            r.elapsed_ms == now_ms,
    {
        FsmStateView {
            state: self.fsm_state,
            streak: self.streak,
            last_recommended: self.last_recommended.clone(),
            state_entered_ms: self.state_entered_ms,
            elapsed_ms: now_ms,
        }
    }

    /// The last decision.
    pub fn last_decision(&self) -> (r: Option<AutopilotDecision>)
        ensures
            opt_decision(r) == self@.last_decision,
    {
        match &self.last_decision {
            Some(d) => Some(d.copy()),
            None => None,
        }
    }

    /// The limits that a switch has to meet.
    pub fn policy(&self) -> (r: &PolicyGate)
        ensures
            r@ == self@.policy,
    {
        &self.policy
    }

    /// Sets the limits that a switch has to meet.
    pub fn set_policy(&mut self, cfg: PolicyConfig)
        ensures
            final(self)@ == (PilotView { policy: cfg, ..old(self)@ }),
    {
        self.policy.set_config(cfg);
    }

    fn feed_route(&mut self, metrics: &MetricsStore, id: &str)
        ensures
            final(self)@ == old(self)@.fed_one(metrics@, id@),
    {
        let ghost before = self@;
        let samples = metrics.samples(id);
        if samples.len() == 0 {
            return;
        }
        let latest: i64 = samples[samples.len() - 1].timestamp_ms;
        let last = match self.last_recorded_ts.get(id) {
            Some(t) => Some(*t),
            None => None,
        };
        match last {
            Some(t) => {
                if latest < t {
                    return;
                }
            },
            None => {},
        }
        let list = select_samples(samples, last);
        let mut i: usize = 0;
        assert(list@.take(0) =~= Seq::<PingSample>::empty());
        while i < list.len()
            invariant
                i <= list@.len(),
                self@ == (PilotView {
                    stability: recorded_all(before.stability, id@, list@.take(i as int)),
                    ..before
                }),
            decreases list@.len() - i,
        {
            assert(list@.take(i as int + 1).drop_last() =~= list@.take(i as int));
            assert(list@.take(i as int + 1).last() == list@[i as int]);
            self.stability.record(id, StabilitySample::from_ping(&list[i]));
            i = i + 1;
        }
        assert(list@.take(i as int) =~= list@);
        self.last_recorded_ts.insert(id.to_string(), latest);
    }

    fn feed_stability(&mut self, metrics: &MetricsStore, snap: &Snapshot)
        ensures
            final(self)@ == old(self)@.fed(metrics@, snap@.routes),
    {
        let ghost before = self@;
        let ghost v = snap@.routes;
        let mut i: usize = 0;
        assert(v.take(0) =~= Seq::<RouteView>::empty());
        while i < snap.routes.len()
            invariant
                i <= snap.routes@.len() == v.len(),
                v == snap@.routes,
                self@ == before.fed(metrics@, v.take(i as int)),
            decreases snap.routes@.len() - i,
        {
            assert(v.take(i as int + 1).drop_last() =~= v.take(i as int));
            assert(v.take(i as int + 1).last() == snap.routes@[i as int]@);
            self.feed_route(metrics, snap.routes[i].route_id.as_str());
            i = i + 1;
        }
        assert(v.take(i as int) =~= v);
    }

    fn rate_routes<F: Fn(Op) -> Scalar>(&self, unit: &F, snap: &Snapshot) -> (r: (
        Vec<(String, Scalar)>,
        Vec<Candidate>,
    ))
        requires
            dependable(*unit),
        ensures
            named(r.0@) == indices(*unit, self@.stability, snap@.routes),
            rated_views(r.1@) == candidates_in(*unit, self@.stability, snap@.routes),
    {
        let ghost v = snap@.routes;
        let ghost h = self@.stability;
        let mut steady: Vec<(String, Scalar)> = Vec::new();
        let mut candidates: Vec<Candidate> = Vec::new();
        let mut i: usize = 0;
        assert(v.take(0) =~= Seq::<RouteView>::empty());
        assert(rated_views(candidates@) =~= candidates_in(*unit, h, v.take(0)));
        while i < snap.routes.len()
            invariant
                dependable(*unit),
                i <= snap.routes@.len() == v.len(),
                v == snap@.routes,
                h == self@.stability,
                steady@.len() == i,
                forall|j: int|
                    0 <= j < i ==> (#[trigger] steady@[j]).0@ == v[j].route_id && steady@[j].1
                        == h.index(*unit, v[j].route_id),
                rated_views(candidates@) == candidates_in(*unit, h, v.take(i as int)),
            decreases snap.routes@.len() - i,
        {
            let r = &snap.routes[i];
            assert(v.take(i as int + 1).drop_last() =~= v.take(i as int));
            assert(v.take(i as int + 1).last() == r@);
            let index = self.stability.stability_index(unit, r.route_id.as_str());
            steady.push((r.route_id.clone(), index));
            if r.health != Health::Bad {
                let c = Candidate {
                    id: r.route_id.clone(),
                    effective: quotient(
                        unit,
                        r.score,
                        index.max(&Scalar { bits: MIN_INDEX_BITS }),
                    ),
                };
                place(&mut candidates, c);
            }
            i = i + 1;
        }
        assert(v.take(i as int) =~= v);
        assert(named(steady@) =~= indices(*unit, h, v));
        (steady, candidates)
    }

    fn next_fsm(&self, snap: &Snapshot, game: &GameSignal, now_ms: u64) -> (r: FsmState)
        ensures
            r == self@.next_state(snap@, game@, now_ms as int),
    {
        if snap.routes.len() == 0 {
            return FsmState::Init;
        }
        if is_playing(game) {
            return FsmState::GameMode;
        }
        let health = health_now(snap);
        let in_state: u64 = if now_ms >= self.state_entered_ms {
            now_ms - self.state_entered_ms
        } else {
            0
        };
        match self.fsm_state {
            FsmState::GameMode => FsmState::Recovery,
            FsmState::Recovery => {
                if in_state < RECOVERY_MS {
                    FsmState::Recovery
                } else {
                    FsmState::Stable
                }
            },
            _ => {
                if health == Health::Degraded {
                    FsmState::Degraded
                } else {
                    FsmState::Stable
                }
            },
        }
    }

    fn judge_switch<F: Fn(Op) -> Scalar>(
        &self,
        unit: &F,
        snap: &Snapshot,
        candidates: &Vec<Candidate>,
        streak: u32,
        fsm_state: FsmState,
        playing: bool,
        now_ms: u64,
    ) -> (r: PolicyVerdict)
        requires
            dependable(*unit),
            candidates@.len() > 0,
        ensures
            ({
                let list = rated_views(candidates@);
                let cur_score = match snap@.selected {
                    Some(id) => effective_of(list, id),
                    None => None,
                };
                r == verdict_on(
                    self@.policy,
                    PolicyContext {
                        in_game: playing,
                        current_health: current_health(snap@),
                        fsm_state,
                        improvement: gain(*unit, cur_score, effective_of(list, list[0].id)),
                        streak,
                        elapsed_since_switch_ms: (if now_ms >= self@.last_switch_ms {
                            now_ms - self@.last_switch_ms
                        } else {
                            0
                        }) as u64,
                    },
                )
            }),
    {
        let zero = Scalar { bits: ZERO_BITS };
        let cur_score = match &snap.selected {
            Some(id) => find_effective(candidates, id.as_str()),
            None => None,
        };
        let rec_score = find_effective(candidates, candidates[0].id.as_str());
        assert(rated_views(candidates@)[0] == candidates@[0]@);
        let improvement = match (cur_score, rec_score) {
            (Some(c), Some(r)) => {
                if c.gt(&zero) {
                    quotient(unit, diff(unit, c, r), c)
                } else {
                    Scalar { bits: ONE_BITS }
                }
            },
            _ => Scalar { bits: ONE_BITS },
        };
        let elapsed: u64 = if now_ms >= self.last_switch_ms {
            now_ms - self.last_switch_ms
        } else {
            0
        };
        let ctx = PolicyContext {
            in_game: playing,
            current_health: health_now(snap),
            fsm_state,
            improvement,
            streak,
            elapsed_since_switch_ms: elapsed,
        };
        self.policy.evaluate(&ctx)
    }

    fn build_decision<F: Fn(Op) -> Scalar>(
        &self,
        unit: &F,
        snap: &Snapshot,
        candidates: &Vec<Candidate>,
        streak: u32,
        fsm_state: FsmState,
        playing: bool,
        steady: Vec<(String, Scalar)>,
        now_ms: u64,
        timestamp_ms: i64,
    ) -> (r: AutopilotDecision)
        requires
            dependable(*unit),
        ensures
            r@ == self@.decision(
                *unit,
                snap@,
                (Grounds {
                    candidates: rated_views(candidates@),
                    streak,
                    fsm_state,
                    in_game: playing,
                    stability: named(steady@),
                    timestamp_ms,
                }),
                now_ms as int,
            ),
    {
        let from_route = snap.selected.clone();
        let mut d = AutopilotDecision {
            intent: AutopilotIntent::Hold,
            reason: DecisionReason::NoCandidates,
            from_route,
            to_route: None,
            fsm_state,
            stability: steady,
            verdict: None,
            timestamp_ms,
        };
        if candidates.len() == 0 {
            return d;
        }
        assert(rated_views(candidates@)[0] == candidates@[0]@);
        let to_route = Some(candidates[0].id.clone());
        if same_opt_text(&snap.selected, &to_route) {
            d.to_route = to_route;
            d.reason = DecisionReason::AlreadyOnBest;
            return d;
        }
        d.to_route = to_route;
        if health_now(snap) == Health::Bad {
            d.intent = AutopilotIntent::Switch;
            d.reason = DecisionReason::EmergencyBypass;
            return d;
        }
        let v = self.judge_switch(unit, snap, candidates, streak, fsm_state, playing, now_ms);
        d.verdict = Some(v);
        match v.verdict {
            Verdict::Allow => {
                d.intent = AutopilotIntent::Switch;
                d.reason = if playing {
                    DecisionReason::GameModeSwitch
                } else {
                    DecisionReason::Improvement
                };
            },
            Verdict::Block => {
                d.reason = if v.streak < v.streak_needed {
                    DecisionReason::HysteresisPending
                } else if v.elapsed_since_switch_ms < v.cooldown_ms {
                    DecisionReason::CooldownActive
                } else {
                    DecisionReason::StableNoImprovement
                };
            },
        }
        d
    }

    /// Takes in the latest samples and decides on a snapshot. `now_ms` counts from
    /// the start, `timestamp_ms` is the time of day.
    pub fn update<F: Fn(Op) -> Scalar>(
        &mut self,
        unit: &F,
        metrics: &MetricsStore,
        snap: &Snapshot,
        game: &GameSignal,
        now_ms: u64,
        timestamp_ms: i64,
    ) -> (r: AutopilotDecision)
        requires
            dependable(*unit),
        ensures
            final(self)@ == old(self)@.fed(metrics@, snap@.routes).decided(
                *unit,
                snap@,
                game@,
                now_ms,
                timestamp_ms,
            ),
            final(self)@.last_decision == Some(r@),
    {
        self.feed_stability(metrics, snap);
        let ghost p = self@;
        let (steady, candidates) = self.rate_routes(unit, snap);
        let ghost list = rated_views(candidates@);
        let playing = is_playing(game);
        let fsm_state = self.next_fsm(snap, game, now_ms);
        let recommended = if candidates.len() == 0 {
            None
        } else {
            assert(list[0] == candidates@[0]@);
            Some(candidates[0].id.clone())
        };
        let streak: u32 = if !same_opt_text(&self.last_recommended, &recommended) {
            1
        } else if self.streak == u32::MAX {
            u32::MAX
        } else {
            self.streak + 1
        };
        let d = self.build_decision(
            unit,
            snap,
            &candidates,
            streak,
            fsm_state,
            playing,
            steady,
            now_ms,
            timestamp_ms,
        );
        if self.fsm_state != fsm_state {
            self.fsm_state = fsm_state;
            self.state_entered_ms = now_ms;
        }
        self.last_recommended = d.recommended_id();
        self.streak = streak;
        self.last_decision = Some(d.copy());
        if d.intent == AutopilotIntent::Switch {
            self.last_switch_ms = now_ms;
        }
        d
    }
}

fn is_playing(game: &GameSignal) -> (r: bool)
    ensures
        r == in_game(game@),
{
    game.detected && game.confidence.ge(&Scalar { bits: HALF_BITS })
}

fn health_now(snap: &Snapshot) -> (r: Health)
    ensures
        r == current_health(snap@),
{
    match &snap.selected {
        Some(id) => snap.health_of(id.as_str()),
        None => Health::Unknown,
    }
}

// ---------------------------------------------------------------------------
// Laws
// ---------------------------------------------------------------------------

/// Whether no effective score of a list is undefined.
pub open spec fn all_numbers(list: Seq<Rated>) -> bool {
    forall|i: int| 0 <= i < list.len() ==> !(#[trigger] list[i]).effective.nan()
}

/// Whether no entry of a list scores lower than one before it.
pub open spec fn best_first(list: Seq<Rated>) -> bool {
    forall|i: int, j: int|
        0 <= i < j < list.len() ==> !(#[trigger] list[j]).effective.less(
            (#[trigger] list[i]).effective,
        )
}

proof fn lemma_placed_members(sorted: Seq<Rated>, x: Rated)
    ensures
        placed(sorted, x).len() == sorted.len() + 1,
        placed(sorted, x).contains(x),
        forall|y: Rated| #[trigger] sorted.contains(y) ==> placed(sorted, x).contains(y),
        forall|y: Rated| #[trigger] placed(sorted, x).contains(y) ==> y == x || sorted.contains(y),
    decreases sorted.len(),
{
    let out = placed(sorted, x);
    if sorted.len() > 0 && x.effective.less(sorted.last().effective) {
        let rest = sorted.drop_last();
        let inner = placed(rest, x);
        lemma_placed_members(rest, x);
        assert(out[inner.len() as int] == sorted.last());
        assert forall|y: Rated| inner.contains(y) implies out.contains(y) by {
            let k = inner.index_of(y);
            assert(out[k] == y);
        }
        assert forall|y: Rated| #[trigger] sorted.contains(y) implies out.contains(y) by {
            let k = sorted.index_of(y);
            if k < rest.len() {
                assert(rest[k] == y);
                assert(rest.contains(y));
            }
        }
        assert forall|y: Rated| #[trigger] out.contains(y) implies y == x || sorted.contains(
            y,
        ) by {
            let k = out.index_of(y);
            if k < inner.len() {
                assert(inner[k] == y);
                assert(inner.contains(y));
                if y != x {
                    assert(rest.contains(y));
                    let l = rest.index_of(y);
                    assert(sorted[l] == y);
                }
            } else {
                assert(sorted[sorted.len() - 1] == y);
            }
        }
    } else {
        assert(out[sorted.len() as int] == x);
        assert forall|y: Rated| #[trigger] sorted.contains(y) implies out.contains(y) by {
            let k = sorted.index_of(y);
            assert(out[k] == y);
        }
        assert forall|y: Rated| #[trigger] out.contains(y) implies y == x || sorted.contains(
            y,
        ) by {
            let k = out.index_of(y);
            if k < sorted.len() {
                assert(sorted[k] == y);
            }
        }
    }
}

proof fn lemma_placed_sorted(sorted: Seq<Rated>, x: Rated)
    requires
        best_first(sorted),
        all_numbers(sorted),
        !x.effective.nan(),
    ensures
        best_first(placed(sorted, x)),
        all_numbers(placed(sorted, x)),
    decreases sorted.len(),
{
    if sorted.len() > 0 && x.effective.less(sorted.last().effective) {
        let rest = sorted.drop_last();
        let inner = placed(rest, x);
        let out = placed(sorted, x);
        lemma_placed_sorted(rest, x);
        lemma_placed_members(rest, x);
        assert forall|i: int, j: int| 0 <= i < j < out.len() implies !(
        #[trigger] out[j]).effective.less((#[trigger] out[i]).effective) by {
            if j < inner.len() {
                assert(out[i] == inner[i] && out[j] == inner[j]);
            } else {
                assert(out[i] == inner[i]);
                assert(inner.contains(inner[i]));
                if inner[i] != x {
                    let k = rest.index_of(inner[i]);
                    assert(rest[k] == sorted[k]);
                    assert(!sorted[sorted.len() - 1].effective.less(sorted[k].effective));
                }
            }
        }
        assert forall|i: int| 0 <= i < out.len() implies !(#[trigger] out[i]).effective.nan() by {
            if i < inner.len() {
                assert(out[i] == inner[i]);
            }
        }
    } else {
        let out = sorted.push(x);
        assert forall|i: int, j: int| 0 <= i < j < out.len() implies !(
        #[trigger] out[j]).effective.less((#[trigger] out[i]).effective) by {
            if j == sorted.len() {
                let last = sorted[sorted.len() - 1];
                if i < sorted.len() - 1 {
                    assert(!last.effective.less(sorted[i].effective));
                }
            }
        }
    }
}

/// The candidates are the routes that are not bad: each of those is among them,
/// and nothing else is.
pub proof fn law_candidates_are_complete<F: Fn(Op) -> Scalar>(
    unit: F,
    h: HistoryView,
    routes: Seq<RouteView>,
)
    ensures
        forall|i: int|
            0 <= i < routes.len() && (#[trigger] routes[i]).health != Health::Bad
                ==> candidates_in(unit, h, routes).contains(rated(unit, h, routes[i])),
        forall|y: Rated| #[trigger]
            candidates_in(unit, h, routes).contains(y) ==> exists|i: int|
                0 <= i < routes.len() && (#[trigger] routes[i]).health != Health::Bad && y == rated(
                    unit,
                    h,
                    routes[i],
                ),
    decreases routes.len(),
{
    if routes.len() > 0 {
        let rest = routes.drop_last();
        let before = candidates_in(unit, h, rest);
        let all = candidates_in(unit, h, routes);
        let x = rated(unit, h, routes.last());
        law_candidates_are_complete(unit, h, rest);
        if routes.last().health != Health::Bad {
            lemma_placed_members(before, x);
        }
        assert forall|i: int|
            0 <= i < routes.len() && (#[trigger] routes[i]).health
                != Health::Bad implies all.contains(rated(unit, h, routes[i])) by {
            if i < rest.len() {
                assert(rest[i] == routes[i]);
                assert(before.contains(rated(unit, h, rest[i])));
            }
        }
        assert forall|y: Rated| #[trigger] all.contains(y) implies exists|i: int|
            0 <= i < routes.len() && (#[trigger] routes[i]).health != Health::Bad && y == rated(
                unit,
                h,
                routes[i],
            ) by {
            if before.contains(y) {
                let i = choose|i: int|
                    0 <= i < rest.len() && (#[trigger] rest[i]).health != Health::Bad && y == rated(
                        unit,
                        h,
                        rest[i],
                    );
                assert(routes[i] == rest[i]);
            } else {
                assert(routes[routes.len() - 1].health != Health::Bad);
            }
        }
    }
}

/// The candidates stand in the order of their scores, the best first, provided
/// that every score is a number.
pub proof fn law_candidates_are_ordered<F: Fn(Op) -> Scalar>(
    unit: F,
    h: HistoryView,
    routes: Seq<RouteView>,
)
    requires
        forall|i: int|
            0 <= i < routes.len() ==> !rated(unit, h, #[trigger] routes[i]).effective.nan(),
    ensures
        best_first(candidates_in(unit, h, routes)),
        all_numbers(candidates_in(unit, h, routes)),
    decreases routes.len(),
{
    if routes.len() > 0 {
        let rest = routes.drop_last();
        assert forall|i: int| 0 <= i < rest.len() implies !rated(
            unit,
            h,
            #[trigger] rest[i],
        ).effective.nan() by {
            assert(rest[i] == routes[i]);
        }
        law_candidates_are_ordered(unit, h, rest);
        if routes.last().health != Health::Bad {
            assert(routes[routes.len() - 1] == routes.last());
            lemma_placed_sorted(candidates_in(unit, h, rest), rated(unit, h, routes.last()));
        }
    }
}

/// A bad route is left at once: no pause, gain or streak is asked for.
pub proof fn law_emergency_bypass<F: Fn(Op) -> Scalar>(
    unit: F,
    p: PilotView,
    snap: SnapshotView,
    g: Grounds,
    now_ms: int,
)
    requires
        g.candidates.len() > 0,
        current_health(snap) == Health::Bad,
        snap.selected != Some(g.candidates[0].id),
    ensures
        p.decision(unit, snap, g, now_ms).intent == AutopilotIntent::Switch,
        p.decision(unit, snap, g, now_ms).reason == DecisionReason::EmergencyBypass,
{
}

/// Any other switch has passed the policy: the recommendation has lasted, the
/// pause is over and the gain is reached.
pub proof fn law_switch_passes_policy<F: Fn(Op) -> Scalar>(
    unit: F,
    p: PilotView,
    snap: SnapshotView,
    g: Grounds,
    now_ms: int,
)
    requires
        p.decision(unit, snap, g, now_ms).intent == AutopilotIntent::Switch,
        current_health(snap) != Health::Bad,
    ensures
        ({
            let v = p.decision(unit, snap, g, now_ms).verdict->0;
            &&& p.decision(unit, snap, g, now_ms).verdict is Some
            &&& v.streak >= p.policy.hysteresis_streak
            &&& v.elapsed_since_switch_ms >= v.cooldown_ms
            &&& v.improvement.at_least(v.margin)
        }),
{
}

} // verus!
