//! Scoring and choice of the route in use.
//!
//! The manager holds the candidates and compares their weighted scores. To keep
//! from switching back and forth it asks for a pause between switches and for a
//! gain that is worth one; a route that has gone bad is left at once, and a
//! choice made by hand stands above all others.

use crate::address::SocketAddr;
use crate::arith::{dependable, diff, diff_of, quotient, quotient_of, Op};
use crate::name_map::{lists, NameMap};
use crate::profiles::{endpoint_views, EndpointSpec, EndpointView};
use crate::scalar::{Scalar, INFINITY_BITS, ZERO_BITS};
use crate::snapshot::{
    first_route, EngineView, Health, RouteSnapshotEngine, Snapshot, SnapshotView,
};
use crate::text::{opt_text, same_opt_text, same_text};
use vstd::prelude::*;

verus! {

/// The pause between two switches unless told otherwise.
pub const DEFAULT_COOLDOWN_MS: u64 = 10_000;

/// The encoding of 0.10.
pub const DEFAULT_SWITCH_MARGIN_BITS: u32 = 0x3dcc_cccd;

/// The encoding of 0.01.
pub const MIN_WEIGHT_BITS: u32 = 0x3c23_d70a;

/// A route to choose from.
#[derive(Debug, Clone)]
pub struct RouteCandidate {
    pub id: String,
    pub addr: SocketAddr,
    pub label: String,
    pub weight: Scalar,
}

impl View for RouteCandidate {
    type V = EndpointView;

    open spec fn view(&self) -> EndpointView {
        EndpointView { id: self.id@, addr: self.addr, label: self.label@, weight: self.weight }
    }
}

impl RouteCandidate {
    fn copy(&self) -> (r: RouteCandidate)
        ensures
            r@ == self@,
    {
        RouteCandidate {
            id: self.id.clone(),
            addr: self.addr,
            label: self.label.clone(),
            weight: self.weight,
        }
    }
}

/// The score of a candidate, as it is and weighted.
#[derive(Debug, Clone)]
pub struct RouteScoreView {
    pub id: String,
    pub score: Scalar,
    pub weighted_score: Scalar,
    pub health: Health,
    pub weight: Scalar,
}

/// What a `RouteScoreView` holds.
#[verifier::ext_equal]
pub struct Score {
    pub id: Seq<char>,
    pub score: Scalar,
    pub weighted_score: Scalar,
    pub health: Health,
    pub weight: Scalar,
}

impl View for RouteScoreView {
    type V = Score;

    open spec fn view(&self) -> Score {
        Score {
            id: self.id@,
            score: self.score,
            weighted_score: self.weighted_score,
            health: self.health,
            weight: self.weight,
        }
    }
}

/// What a list of scores holds.
pub open spec fn score_views(scores: Seq<RouteScoreView>) -> Seq<Score> {
    Seq::new(scores.len(), |i: int| scores[i]@)
}

/// Why an evaluation came out as it did.
#[derive(Debug, Clone, Copy, PartialEq, Eq, Structural)]
pub enum EvalReason {
    NoCandidates,
    NoChange,
    ManualOverride,
    EmergencyBypass,
    Improvement,
    CooldownBlocked,
}

/// Which route to use.
#[derive(Debug, Clone)]
pub struct RouteEvaluation {
    pub current: Option<String>,
    pub recommended: Option<String>,
    pub manual_override: Option<String>,
    pub scores: Vec<RouteScoreView>,
    pub reason: EvalReason,
}

/// What a `RouteEvaluation` holds.
#[verifier::ext_equal]
pub struct Evaluation {
    pub current: Option<Seq<char>>,
    pub recommended: Option<Seq<char>>,
    pub manual_override: Option<Seq<char>>,
    pub scores: Seq<Score>,
    pub reason: EvalReason,
}

impl View for RouteEvaluation {
    type V = Evaluation;

    open spec fn view(&self) -> Evaluation {
        Evaluation {
            current: opt_text(self.current),
            recommended: opt_text(self.recommended),
            manual_override: opt_text(self.manual_override),
            scores: score_views(self.scores@),
            reason: self.reason,
        }
    }
}

/// The state of the manager.
#[derive(Debug, Clone)]
pub struct RouteState {
    pub candidates: Vec<RouteCandidate>,
    pub current: Option<String>,
    pub manual_override: Option<String>,
    pub last_switch_ms: u64,
    pub cooldown_ms: u64,
    pub switch_margin: Scalar,
}

/// Chooses the route in use.
#[derive(Debug)]
pub struct RouteManager {
    candidates: NameMap<RouteCandidate>,
    manual_override: Option<String>,
    last_switch_ms: u64,
    cooldown_ms: u64,
    switch_margin: Scalar,
}

/// What a `RouteManager` holds.
#[verifier::ext_equal]
pub struct ManagerView {
    pub candidates: Map<Seq<char>, EndpointView>,
    pub manual_override: Option<Seq<char>>,
    pub last_switch_ms: u64,
    pub cooldown_ms: u64,
    pub switch_margin: Scalar,
}

impl View for RouteManager {
    type V = ManagerView;

    closed spec fn view(&self) -> ManagerView {
        ManagerView {
            candidates: self.candidates@,
            manual_override: opt_text(self.manual_override),
            last_switch_ms: self.last_switch_ms,
            cooldown_ms: self.cooldown_ms,
            switch_margin: self.switch_margin,
        }
    }
}

/// A candidate from its description; its weight does not go below a floor.
pub open spec fn candidate_of(described: EndpointView) -> EndpointView {
    EndpointView { weight: described.weight.larger(Scalar { bits: MIN_WEIGHT_BITS }), ..described }
}

/// The candidates of a list of descriptions; the last one with an id counts.
pub open spec fn candidates_of(specs: Seq<EndpointView>) -> Map<Seq<char>, EndpointView>
    decreases specs.len(),
{
    if specs.len() == 0 {
        Map::empty()
    } else {
        candidates_of(specs.drop_last()).insert(specs.last().id, candidate_of(specs.last()))
    }
}

impl ManagerView {
    /// The manager with new candidates. A choice by hand falls away with its
    /// candidate.
    pub open spec fn with_candidates(self, specs: Seq<EndpointView>) -> ManagerView {
        let candidates = candidates_of(specs);
        ManagerView {
            candidates,
            manual_override: match self.manual_override {
                Some(m) => if candidates.dom().contains(m) {
                    Some(m)
                } else {
                    None
                },
                None => None,
            },
            ..self
        }
    }

    /// Whether enough time has passed since the last switch.
    pub open spec fn can_switch(self, now_ms: int) -> bool {
        let passed = if now_ms >= self.last_switch_ms {
            now_ms - self.last_switch_ms
        } else {
            0
        };
        passed >= self.cooldown_ms
    }
}

/// The score of a candidate in a snapshot: infinite where it has none, divided by
/// its weight.
pub open spec fn score_in<F: Fn(Op) -> Scalar>(
    unit: F,
    snap: SnapshotView,
    c: EndpointView,
) -> Score {
    let base = match first_route(snap.routes, c.id) {
        Some(r) => r.score,
        None => Scalar { bits: INFINITY_BITS },
    };
    Score {
        id: c.id,
        score: base,
        weighted_score: quotient_of(
            unit,
            base,
            c.weight.larger(Scalar { bits: MIN_WEIGHT_BITS }),
        ),
        health: snap.health_of(c.id),
        weight: c.weight,
    }
}

/// Whether scores are those of all candidates, in dictionary order.
pub open spec fn scores_in<F: Fn(Op) -> Scalar>(
    unit: F,
    snap: SnapshotView,
    candidates: Map<Seq<char>, EndpointView>,
    scores: Seq<Score>,
) -> bool {
    &&& lists(Seq::new(scores.len(), |i: int| scores[i].id), candidates.dom())
    &&& forall|i: int|
        0 <= i < scores.len() ==> (#[trigger] scores[i]) == score_in(
            unit,
            snap,
            EndpointView { id: scores[i].id, ..candidates[scores[i].id] },
        )
}

/// The first of the lowest weighted scores; with `any` also among bad routes.
pub open spec fn lowest_score(scores: Seq<Score>, any: bool) -> Option<Score>
    decreases scores.len(),
{
    if scores.len() == 0 {
        None
    } else {
        let s = scores.last();
        let before = lowest_score(scores.drop_last(), any);
        if !any && s.health == Health::Bad {
            before
        } else {
            match before {
                None => Some(s),
                Some(b) => if s.weighted_score.less(b.weighted_score) {
                    Some(s)
                } else {
                    Some(b)
                },
            }
        }
    }
}

/// The route to use by the scores: the best that is not bad, else the best.
pub open spec fn best_route(scores: Seq<Score>) -> Option<Seq<char>> {
    match lowest_score(scores, false) {
        Some(s) => Some(s.id),
        None => match lowest_score(scores, true) {
            Some(s) => Some(s.id),
            None => None,
        },
    }
}

/// The weighted score of a route.
pub open spec fn weighted(scores: Seq<Score>, id: Option<Seq<char>>) -> Option<Scalar>
    decreases scores.len(),
{
    match id {
        None => None,
        Some(k) => if scores.len() == 0 {
            None
        } else {
            match weighted(scores.drop_last(), id) {
                Some(w) => Some(w),
                None => if scores.last().id == k {
                    Some(scores.last().weighted_score)
                } else {
                    None
                },
            }
        },
    }
}

/// Why the recommended route is, or is not, to be used instead of the current
/// one.
pub open spec fn reason_for<F: Fn(Op) -> Scalar>(
    unit: F,
    m: ManagerView,
    snap: SnapshotView,
    scores: Seq<Score>,
    recommended: Option<Seq<char>>,
    now_ms: int,
) -> EvalReason {
    let cur_health = match snap.selected {
        Some(id) => snap.health_of(id),
        None => Health::Unknown,
    };
    if m.manual_override is Some {
        EvalReason::ManualOverride
    } else if recommended == snap.selected {
        EvalReason::NoChange
    } else if cur_health == Health::Bad {
        EvalReason::EmergencyBypass
    } else if !m.can_switch(now_ms) {
        EvalReason::CooldownBlocked
    } else {
        match (weighted(scores, snap.selected), weighted(scores, recommended)) {
            (Some(cs), Some(rs)) => if Scalar::zero_value().less(cs) {
                if quotient_of(unit, diff_of(unit, cs, rs), cs).at_least(m.switch_margin) {
                    EvalReason::Improvement
                } else {
                    EvalReason::NoChange
                }
            } else {
                EvalReason::Improvement
            },
            _ => EvalReason::Improvement,
        }
    }
}

/// Whether an evaluation is the one that a manager gives on a snapshot.
pub open spec fn evaluates<F: Fn(Op) -> Scalar>(
    unit: F,
    m: ManagerView,
    snap: SnapshotView,
    now_ms: int,
    e: Evaluation,
) -> bool {
    &&& e.current == snap.selected
    &&& e.manual_override == m.manual_override
    &&& if m.candidates.dom() == Set::<Seq<char>>::empty() {
        &&& e.scores.len() == 0
        &&& e.recommended is None
        &&& e.reason == EvalReason::NoCandidates
    } else {
        &&& scores_in(unit, snap, m.candidates, e.scores)
        &&& e.recommended == match m.manual_override {
            Some(id) => Some(id),
            None => best_route(e.scores),
        }
        &&& e.reason == reason_for(unit, m, snap, e.scores, e.recommended, now_ms)
    }
}

/// Whether a list holds all candidates, in dictionary order.
pub open spec fn lists_candidates(
    list: Seq<RouteCandidate>,
    candidates: Map<Seq<char>, EndpointView>,
) -> bool {
    exists|names: Seq<Seq<char>>|
        {
            &&& #[trigger] lists(names, candidates.dom())
            &&& names.len() == list.len()
            &&& forall|i: int| 0 <= i < list.len() ==> (#[trigger] list[i])@ == candidates[names[i]]
        }
}

fn find_weighted(scores: &Vec<RouteScoreView>, id: &Option<String>) -> (r: Option<Scalar>)
    ensures
        r == weighted(score_views(scores@), opt_text(*id)),
{
    match id {
        None => None,
        Some(k) => {
            let ghost v = score_views(scores@);
            let mut i: usize = 0;
            assert(v.take(0) =~= Seq::<Score>::empty());
            while i < scores.len()
                invariant
                    i <= scores@.len(),
                    v == score_views(scores@),
                    opt_text(*id) == Some(k@),
                    weighted(v.take(i as int), Some(k@)) is None,
                decreases scores@.len() - i,
            {
                assert(v.take(i as int + 1).drop_last() =~= v.take(i as int));
                assert(v.take(i as int + 1).last() == scores@[i as int]@);
                if same_text(scores[i].id.as_str(), k.as_str()) {
                    proof {
                        lemma_weighted_prefix(v, Some(k@), i as int + 1);
                    }
                    return Some(scores[i].weighted_score);
                }
                i = i + 1;
            }
            assert(v.take(i as int) =~= v);
            None
        },
    }
}

/// A score found among the first ones is the one found.
proof fn lemma_weighted_prefix(scores: Seq<Score>, id: Option<Seq<char>>, i: int)
    requires
        0 <= i <= scores.len(),
        weighted(scores.take(i), id) is Some,
    ensures
        weighted(scores, id) == weighted(scores.take(i), id),
    decreases scores.len() - i,
{
    if i < scores.len() {
        assert(scores.take(i + 1).drop_last() =~= scores.take(i));
        lemma_weighted_prefix(scores, id, i + 1);
    } else {
        assert(scores.take(i) =~= scores);
    }
}

fn find_lowest(scores: &Vec<RouteScoreView>, any: bool) -> (r: Option<usize>)
    ensures
        match r {
            Some(i) => i < scores@.len() && lowest_score(score_views(scores@), any) == Some(
                scores@[i as int]@,
            ),
            None => lowest_score(score_views(scores@), any) is None,
        },
{
    let ghost v = score_views(scores@);
    let mut best: Option<usize> = None;
    let mut i: usize = 0;
    assert(v.take(0) =~= Seq::<Score>::empty());
    while i < scores.len()
        invariant
            i <= scores@.len(),
            v == score_views(scores@),
            match best {
                Some(b) => b < i && lowest_score(v.take(i as int), any) == Some(scores@[b as int]@),
                None => lowest_score(v.take(i as int), any) is None,
            },
        decreases scores@.len() - i,
    {
        assert(v.take(i as int + 1).drop_last() =~= v.take(i as int));
        assert(v.take(i as int + 1).last() == scores@[i as int]@);
        if any || scores[i].health != Health::Bad {
            match best {
                None => {
                    best = Some(i);
                },
                Some(b) => {
                    if scores[i].weighted_score.lt(&scores[b].weighted_score) {
                        best = Some(i);
                    }
                },
            }
        }
        i = i + 1;
    }
    assert(v.take(i as int) =~= v);
    best
}

impl RouteManager {
    /// A manager without candidates.
    pub fn new() -> (r: RouteManager)
        ensures
            r@ == (ManagerView {
                candidates: Map::empty(),
                manual_override: None,
                last_switch_ms: 0,
                cooldown_ms: DEFAULT_COOLDOWN_MS,
                switch_margin: Scalar { bits: DEFAULT_SWITCH_MARGIN_BITS },
            }),
    {
        RouteManager {
            candidates: NameMap::new(),
            manual_override: None,
            last_switch_ms: 0,
            cooldown_ms: DEFAULT_COOLDOWN_MS,
            switch_margin: Scalar { bits: DEFAULT_SWITCH_MARGIN_BITS },
        }
    }

    /// Sets the candidates. A choice by hand falls away with its candidate.
    pub fn set_candidates(&mut self, specs: Vec<EndpointSpec>)
        ensures
            final(self)@ == old(self)@.with_candidates(endpoint_views(specs@)),
    {
        let ghost v = endpoint_views(specs@);
        let mut fresh: NameMap<RouteCandidate> = NameMap::new();
        let mut i: usize = 0;
        assert(v.take(0) =~= Seq::<EndpointView>::empty());
        while i < specs.len()
            invariant
                i <= specs@.len(),
                v == endpoint_views(specs@),
                fresh@ == candidates_of(v.take(i as int)),
            decreases specs@.len() - i,
        {
            let s = &specs[i];
            assert(v.take(i as int + 1).drop_last() =~= v.take(i as int));
            assert(v.take(i as int + 1).last() == s@);
            let c = RouteCandidate {
                id: s.id.clone(),
                addr: s.addr,
                label: s.label.clone(),
                weight: s.weight.max(&Scalar { bits: MIN_WEIGHT_BITS }),
            };
            fresh.insert(s.id.clone(), c);
            i = i + 1;
        }
        assert(v.take(i as int) =~= v);
        let stays = match &self.manual_override {
            Some(m) => fresh.contains(m.as_str()),
            None => false,
        };
        if !stays {
            self.manual_override = None;
        }
        self.candidates = fresh;
    }

    /// The candidates, in the order of their ids.
    pub fn candidates(&self) -> (r: Vec<RouteCandidate>)
        ensures
            lists_candidates(r@, self@.candidates),
    {
        let n = self.candidates.len();
        let mut out: Vec<RouteCandidate> = Vec::new();
        let mut i: usize = 0;
        while i < n
            invariant
                i <= n == self.candidates.names().len(),
                out@.len() == i,
                forall|j: int|
                    0 <= j < i ==> (#[trigger] out@[j])@
                        == self@.candidates[self.candidates.names()[j]],
            decreases n - i,
        {
            out.push(self.candidates.value_at(i).copy());
            i = i + 1;
        }
        assert(lists(self.candidates.names(), self@.candidates.dom()));
        out
    }

    /// Chooses a candidate by hand.
    pub fn select_manual(&mut self, id: &str) -> (r: Result<(), String>)
        ensures
            match r {
                Ok(()) => old(self)@.candidates.dom().contains(id@) && final(self)@ == (
                ManagerView { manual_override: Some(id@), ..old(self)@ }),
                Err(e) => !old(self)@.candidates.dom().contains(id@) && final(self)@ == old(self)@
                    && e@ == "unknown route id: "@ + id@,
            },
    {
        if !self.candidates.contains(id) {
            let mut out = "unknown route id: ".to_string();
            out.append(id);
            return Err(out);
        }
        self.manual_override = Some(id.to_string());
        Ok(())
    }

    /// Drops the choice by hand.
    pub fn clear_manual(&mut self)
        ensures
            final(self)@ == (ManagerView { manual_override: None, ..old(self)@ }),
    {
        self.manual_override = None;
    }

    /// The route in use.
    pub fn current(&self, engine: &RouteSnapshotEngine) -> (r: Option<String>)
        ensures
            opt_text(r) == engine@.current.selected,
    {
        engine.current().selected.clone()
    }

    /// The health of a route.
    pub fn health_of(&self, engine: &RouteSnapshotEngine, id: &str) -> (r: Health)
        ensures
            r == engine@.current.health_of(id@),
    {
        engine.current().health_of(id)
    }

    /// Whether enough time has passed since the last switch.
    pub fn can_switch(&self, now_ms: u64) -> (r: bool)
        ensures
            r == self@.can_switch(now_ms as int),
    {
        let passed: u64 = if now_ms >= self.last_switch_ms {
            now_ms - self.last_switch_ms
        } else {
            0
        };
        passed >= self.cooldown_ms
    }

    /// Sets the pause between two switches.
    pub fn set_cooldown_ms(&mut self, ms: u64)
        ensures
            final(self)@ == (ManagerView { cooldown_ms: ms, ..old(self)@ }),
    {
        self.cooldown_ms = ms;
    }

    /// The pause between two switches.
    pub fn cooldown_ms(&self) -> (r: u64)
        ensures
            r == self@.cooldown_ms,
    {
        self.cooldown_ms
    }

    /// Sets the gain that is worth a switch.
    pub fn set_switch_margin(&mut self, margin: Scalar)
        ensures
            final(self)@ == (ManagerView { switch_margin: margin, ..old(self)@ }),
    {
        self.switch_margin = margin;
    }

    /// The gain that is worth a switch.
    pub fn switch_margin(&self) -> (r: Scalar)
        ensures
            r == self@.switch_margin,
    {
        self.switch_margin
    }

    fn score_all<F: Fn(Op) -> Scalar>(&self, unit: &F, snap: &Snapshot) -> (r: Vec<RouteScoreView>)
        requires
            dependable(*unit),
        ensures
            scores_in(*unit, snap@, self@.candidates, score_views(r@)),
    {
        let n = self.candidates.len();
        let mut out: Vec<RouteScoreView> = Vec::new();
        let mut i: usize = 0;
        while i < n
            invariant
                dependable(*unit),
                i <= n == self.candidates.names().len(),
                out@.len() == i,
                forall|j: int|
                    0 <= j < i ==> {
                        let id = self.candidates.names()[j];
                        (#[trigger] out@[j])@ == score_in(
                            *unit,
                            snap@,
                            EndpointView { id, ..self@.candidates[id] },
                        )
                    },
            decreases n - i,
        {
            let id = self.candidates.name_at(i);
            let c = self.candidates.value_at(i);
            let base = match snap.route(id.as_str()) {
                Some(r) => r.score,
                None => Scalar { bits: INFINITY_BITS },
            };
            let s = RouteScoreView {
                id: id.clone(),
                score: base,
                weighted_score: quotient(
                    unit,
                    base,
                    c.weight.max(&Scalar { bits: MIN_WEIGHT_BITS }),
                ),
                health: snap.health_of(id.as_str()),
                weight: c.weight,
            };
            out.push(s);
            i = i + 1;
        }
        let ghost v = score_views(out@);
        assert(Seq::new(v.len(), |i: int| v[i].id) =~= self.candidates.names());
        out
    }

    fn explain<F: Fn(Op) -> Scalar>(
        &self,
        unit: &F,
        snap: &Snapshot,
        scores: &Vec<RouteScoreView>,
        recommended: &Option<String>,
        now_ms: u64,
    ) -> (r: EvalReason)
        requires
            dependable(*unit),
        ensures
            r == reason_for(
                *unit,
                self@,
                snap@,
                score_views(scores@),
                opt_text(*recommended),
                now_ms as int,
            ),
    {
        if self.manual_override.is_some() {
            return EvalReason::ManualOverride;
        }
        if same_opt_text(recommended, &snap.selected) {
            return EvalReason::NoChange;
        }
        let cur_health = match &snap.selected {
            Some(id) => snap.health_of(id.as_str()),
            None => Health::Unknown,
        };
        if cur_health == Health::Bad {
            return EvalReason::EmergencyBypass;
        }
        if !self.can_switch(now_ms) {
            return EvalReason::CooldownBlocked;
        }
        match (find_weighted(scores, &snap.selected), find_weighted(scores, recommended)) {
            (Some(cs), Some(rs)) => {
                if cs.gt(&Scalar { bits: ZERO_BITS }) {
                    if quotient(unit, diff(unit, cs, rs), cs).ge(&self.switch_margin) {
                        EvalReason::Improvement
                    } else {
                        EvalReason::NoChange
                    }
                } else {
                    EvalReason::Improvement
                }
            },
            _ => EvalReason::Improvement,
        }
    }

    /// Which route to use at a given moment, and why.
    pub fn evaluate<F: Fn(Op) -> Scalar>(
        &self,
        unit: &F,
        engine: &RouteSnapshotEngine,
        now_ms: u64,
    ) -> (r: RouteEvaluation)
        requires
            dependable(*unit),
        ensures
            evaluates(*unit, self@, engine@.current, now_ms as int, r@),
    {
        let snap = engine.current();
        let current = snap.selected.clone();
        let n = self.candidates.len();
        if n == 0 {
            assert(self@.candidates.dom() =~= Set::<Seq<char>>::empty()) by {
                assert forall|k: Seq<char>| !self@.candidates.dom().contains(k) by {
                    assert(!self.candidates.names().contains(k));
                }
            }
            return RouteEvaluation {
                current,
                recommended: None,
                manual_override: self.manual_override.clone(),
                scores: Vec::new(),
                reason: EvalReason::NoCandidates,
            };
        }
        assert(self@.candidates.dom() != Set::<Seq<char>>::empty()) by {
            assert(self.candidates.names().contains(self.candidates.names()[0]));
        }
        let scores = self.score_all(unit, snap);
        let recommended = match &self.manual_override {
            Some(m) => Some(m.clone()),
            None => match find_lowest(&scores, false) {
                Some(i) => Some(scores[i].id.clone()),
                None => match find_lowest(&scores, true) {
                    Some(i) => Some(scores[i].id.clone()),
                    None => None,
                },
            },
        };
        let reason = self.explain(unit, snap, &scores, &recommended, now_ms);
        RouteEvaluation {
            current,
            recommended,
            manual_override: self.manual_override.clone(),
            scores,
            reason,
        }
    }

    /// Takes a route into use. Nothing happens if it is in use already.
    pub fn commit(&mut self, engine: &mut RouteSnapshotEngine, new_id: Option<String>, now_ms: u64)
        ensures
            if opt_text(new_id) == old(engine)@.current.selected {
                final(self)@ == old(self)@ && final(engine)@ == old(engine)@
            } else {
                &&& final(self)@ == (ManagerView { last_switch_ms: now_ms, ..old(self)@ })
                &&& final(engine)@ == (EngineView {
                    selected: opt_text(new_id),
                    current: SnapshotView {
                        selected: opt_text(new_id),
                        ..old(engine)@.current
                    },
                    ..old(engine)@
                })
            },
    {
        if same_opt_text(&new_id, &engine.current().selected) {
            return;
        }
        self.last_switch_ms = now_ms;
        engine.set_selected(new_id);
    }

    /// The state of the manager.
    pub fn state(&self, engine: &RouteSnapshotEngine) -> (r: RouteState)
        ensures
            lists_candidates(r.candidates@, self@.candidates),
            opt_text(r.current) == engine@.current.selected,
            opt_text(r.manual_override) == self@.manual_override,
            r.last_switch_ms == self@.last_switch_ms,
            r.cooldown_ms == self@.cooldown_ms,
            r.switch_margin == self@.switch_margin,
    {
        RouteState {
            candidates: self.candidates(),
            current: self.current(engine),
            manual_override: self.manual_override.clone(),
            last_switch_ms: self.last_switch_ms,
            cooldown_ms: self.cooldown_ms,
            switch_margin: self.switch_margin,
        }
    }
}

// ---------------------------------------------------------------------------
// Laws
// ---------------------------------------------------------------------------

/// No eligible route has a lower weighted score than the one chosen, and a bad
/// route is chosen only where bad ones count.
pub proof fn law_lowest_score(scores: Seq<Score>, any: bool, i: int)
    requires
        0 <= i < scores.len(),
        any || scores[i].health != Health::Bad,
    ensures
        lowest_score(scores, any) is Some,
        !scores[i].weighted_score.less((lowest_score(scores, any)->0).weighted_score),
        any || (lowest_score(scores, any)->0).health != Health::Bad,
    decreases scores.len(),
{
    let rest = scores.drop_last();
    if i < rest.len() {
        law_lowest_score(rest, any, i);
        assert(rest[i] == scores[i]);
    } else {
        lemma_lowest_eligible(rest, any);
    }
}

proof fn lemma_lowest_eligible(scores: Seq<Score>, any: bool)
    ensures
        lowest_score(scores, any) matches Some(s) ==> any || s.health != Health::Bad,
    decreases scores.len(),
{
    if scores.len() > 0 {
        lemma_lowest_eligible(scores.drop_last(), any);
    }
}

/// A choice by hand stands: it is what is recommended, whatever the scores say.
pub proof fn law_manual_override_stands<F: Fn(Op) -> Scalar>(
    unit: F,
    m: ManagerView,
    snap: SnapshotView,
    now_ms: int,
    e: Evaluation,
)
    requires
        evaluates(unit, m, snap, now_ms, e),
        m.manual_override is Some,
        m.candidates.dom() != Set::<Seq<char>>::empty(),
    ensures
        e.recommended == m.manual_override,
        e.reason == EvalReason::ManualOverride,
{
}

/// A route that has gone bad is left at once, however short ago the last switch
/// was.
pub proof fn law_bad_route_is_left<F: Fn(Op) -> Scalar>(
    unit: F,
    m: ManagerView,
    snap: SnapshotView,
    now_ms: int,
    e: Evaluation,
)
    requires
        evaluates(unit, m, snap, now_ms, e),
        m.manual_override is None,
        m.candidates.dom() != Set::<Seq<char>>::empty(),
        snap.selected is Some,
        snap.health_of(snap.selected->0) == Health::Bad,
        e.recommended != snap.selected,
    ensures
        e.reason == EvalReason::EmergencyBypass,
{
}

} // verus!
