//! What an evaluation of the routes says.

use crate::arith::{divides_in_order, result, rounds, single_precision, Op};
use crate::name_map::lists;
use crate::profiles::EndpointView;
use crate::routes::{
    candidates_of, evaluates, lowest_score, score_in, scores_in, weighted, EvalReason,
    Evaluation, ManagerView, Score,
};
use crate::scalar::{
    code_magnitude, lemma_bounded_is_finite, lemma_code_orders, lemma_one, Scalar,
};
use crate::snapshot::{lemma_first_route, Health, SnapshotView};
use crate::text::lemma_text_less_irreflexive;
use vstd::arithmetic::power2::{lemma_pow2_pos, pow2};
use vstd::prelude::*;

verus! {

/// How long ago the last switch was.
pub open spec fn since_switch(m: ManagerView, now_ms: int) -> int {
    if now_ms < m.last_switch_ms {
        0
    } else {
        now_ms - m.last_switch_ms
    }
}

/// Whether every weighted score of an evaluation is a number.
pub open spec fn all_weighed(e: Evaluation) -> bool {
    forall|i: int| 0 <= i < e.scores.len() ==> !(#[trigger] e.scores[i]).weighted_score.nan()
}

/// Whether the route at a place may be recommended: it is not bad, or all are.
pub open spec fn choosable(scores: Seq<Score>, i: int) -> bool {
    &&& 0 <= i < scores.len()
    &&& scores[i].health != Health::Bad || forall|j: int|
        0 <= j < scores.len() ==> (#[trigger] scores[j]).health == Health::Bad
}

proof fn lemma_ids_differ<F: Fn(Op) -> Scalar>(
    unit: F,
    snap: SnapshotView,
    candidates: Map<Seq<char>, EndpointView>,
    scores: Seq<Score>,
)
    requires
        scores_in(unit, snap, candidates, scores),
    ensures
        forall|i: int, j: int|
            0 <= i < j < scores.len() ==> (#[trigger] scores[i]).id != (#[trigger] scores[j]).id,
{
    let names = Seq::new(scores.len(), |i: int| scores[i].id);
    assert(lists(names, candidates.dom()));
    assert forall|i: int, j: int| 0 <= i < j < scores.len() implies (#[trigger] scores[i]).id != (
    #[trigger] scores[j]).id by {
        assert(names[i] == scores[i].id && names[j] == scores[j].id);
        lemma_text_less_irreflexive(names[i]);
    }
}

proof fn lemma_weighted_at(scores: Seq<Score>, i: int)
    requires
        0 <= i < scores.len(),
        forall|a: int, b: int|
            0 <= a < b < scores.len() ==> (#[trigger] scores[a]).id != (#[trigger] scores[b]).id,
    ensures
        weighted(scores, Some(scores[i].id)) == Some(scores[i].weighted_score),
    decreases scores.len(),
{
    let rest = scores.drop_last();
    assert(forall|a: int| 0 <= a < rest.len() ==> #[trigger] rest[a] == scores[a]);
    if i < rest.len() {
        lemma_weighted_at(rest, i);
    } else {
        assert forall|a: int| 0 <= a < rest.len() implies (#[trigger] rest[a]).id
            != scores[i].id by {
            assert(scores[a].id != scores[i].id);
        }
        lemma_weighted_none(rest, scores[i].id);
    }
}

proof fn lemma_weighted_none(scores: Seq<Score>, id: Seq<char>)
    requires
        forall|a: int| 0 <= a < scores.len() ==> (#[trigger] scores[a]).id != id,
    ensures
        weighted(scores, Some(id)) is None,
    decreases scores.len(),
{
    if scores.len() > 0 {
        let rest = scores.drop_last();
        assert(forall|a: int| 0 <= a < rest.len() ==> #[trigger] rest[a] == scores[a]);
        lemma_weighted_none(rest, id);
        assert(scores[scores.len() - 1].id != id);
    }
}

// ---------------------------------------------------------------------------
// Scores
// ---------------------------------------------------------------------------

/// Every candidate has one entry, and nothing else has: its score in the snapshot,
/// or infinity where it is not in it, and that score divided by its weight, which
/// counts as one hundredth at least.
pub proof fn law_every_candidate_is_scored<F: Fn(Op) -> Scalar>(
    unit: F,
    m: ManagerView,
    snap: SnapshotView,
    now_ms: int,
    e: Evaluation,
    id: Seq<char>,
    at: int,
)
    requires
        evaluates(unit, m, snap, now_ms, e),
        0 <= at <= snap.routes.len(),
        forall|r: int| 0 <= r < at ==> (#[trigger] snap.routes[r]).route_id != id,
        at < snap.routes.len() ==> snap.routes[at].route_id == id,
    ensures
        m.candidates.dom().contains(id) <==> exists|i: int|
            0 <= i < e.scores.len() && (#[trigger] e.scores[i]).id == id,
        forall|i: int, j: int|
            0 <= i < j < e.scores.len() ==> (#[trigger] e.scores[i]).id != (
            #[trigger] e.scores[j]).id,
        forall|i: int|
            0 <= i < e.scores.len() && (#[trigger] e.scores[i]).id == id ==> {
                let s = e.scores[i];
                let weight = m.candidates[id].weight;
                let floor = Scalar { bits: 0x3c23_d70a };
                &&& s.weight == weight
                &&& s.score == if at < snap.routes.len() {
                    snap.routes[at].score
                } else {
                    Scalar { bits: 0x7f80_0000 }
                }
                &&& s.health == if at < snap.routes.len() {
                    snap.routes[at].health
                } else {
                    Health::Unknown
                }
                &&& s.weighted_score == result(
                    unit,
                    Op::Over(
                        s.score,
                        if weight.at_least(floor) {
                            weight
                        } else {
                            floor
                        },
                    ),
                )
            },
{
    lemma_first_route(snap.routes, id, at);
    if m.candidates.dom() == Set::<Seq<char>>::empty() {
        assert(!m.candidates.dom().contains(id));
    } else {
        let names = Seq::new(e.scores.len(), |i: int| e.scores[i].id);
        assert(lists(names, m.candidates.dom()));
        lemma_ids_differ(unit, snap, m.candidates, e.scores);
        if m.candidates.dom().contains(id) {
            assert(names.contains(id));
            let i = names.index_of(id);
            assert(e.scores[i].id == id);
        }
        if exists|i: int| 0 <= i < e.scores.len() && (#[trigger] e.scores[i]).id == id {
            let i = choose|i: int| 0 <= i < e.scores.len() && (#[trigger] e.scores[i]).id == id;
            assert(names[i] == id);
            assert(names.contains(id));
        }
        lemma_hundredth();
        assert forall|i: int| 0 <= i < e.scores.len() && (#[trigger] e.scores[i]).id
            == id implies e.scores[i] == score_in(
            unit,
            snap,
            EndpointView { id, ..m.candidates[id] },
        ) by {}
    }
}

/// One hundredth is a number above 0.
proof fn lemma_hundredth()
    ensures
        (Scalar { bits: 0x3c23_d70a }).finite(),
        (Scalar { bits: 0x3c23_d70a }).value() > 0,
{
    lemma_code_orders(0, 0x3c23_d70a);
    assert(code_magnitude(0) == 0);
}

/// Weight never harms: of two candidates the one with the lower score and the
/// higher weight does not come out with a higher weighted score, provided that
/// the unit divides in order and no weight is infinite.
pub proof fn law_weight_never_harms<F: Fn(Op) -> Scalar>(
    unit: F,
    m: ManagerView,
    snap: SnapshotView,
    now_ms: int,
    e: Evaluation,
    i: int,
    j: int,
)
    requires
        evaluates(unit, m, snap, now_ms, e),
        divides_in_order(unit),
        0 <= i < e.scores.len(),
        0 <= j < e.scores.len(),
        !e.scores[i].score.nan(),
        !e.scores[j].score.nan(),
        0 <= e.scores[i].score.value() <= e.scores[j].score.value(),
        e.scores[i].weight.finite(),
        e.scores[j].weight.finite(),
        e.scores[j].weight.value() <= e.scores[i].weight.value(),
    ensures
        !e.scores[i].weighted_score.nan(),
        !e.scores[j].weighted_score.nan(),
        e.scores[i].weighted_score.value() <= e.scores[j].weighted_score.value(),
{
    lemma_hundredth();
    let floor = Scalar { bits: 0x3c23_d70a };
    let (a, b) = (e.scores[i].weight, e.scores[j].weight);
    let low = result(unit, Op::Over(e.scores[i].score, a.larger(floor)));
    let high = result(unit, Op::Over(e.scores[j].score, b.larger(floor)));
    assert(e.scores[i].weighted_score == low);
    assert(e.scores[j].weighted_score == high);
}

// ---------------------------------------------------------------------------
// The recommendation
// ---------------------------------------------------------------------------

proof fn lemma_lowest(scores: Seq<Score>, any: bool) -> (k: int)
    requires
        exists|i: int|
            0 <= i < scores.len() && (any || (#[trigger] scores[i]).health != Health::Bad),
        forall|i: int| 0 <= i < scores.len() ==> !(#[trigger] scores[i]).weighted_score.nan(),
    ensures
        0 <= k < scores.len(),
        any || scores[k].health != Health::Bad,
        lowest_score(scores, any) == Some(scores[k]),
        forall|i: int|
            0 <= i < scores.len() && (any || (#[trigger] scores[i]).health != Health::Bad)
                ==> scores[k].weighted_score.value() <= scores[i].weighted_score.value() && (i < k
                ==> scores[k].weighted_score.value() < scores[i].weighted_score.value()),
    decreases scores.len(),
{
    let rest = scores.drop_last();
    let n = scores.len() - 1;
    assert(forall|i: int| 0 <= i < rest.len() ==> #[trigger] rest[i] == scores[i]);
    assert(scores[n] == scores.last());
    if exists|i: int| 0 <= i < rest.len() && (any || (#[trigger] rest[i]).health != Health::Bad) {
        let k = lemma_lowest(rest, any);
        assert(scores[k] == rest[k]);
        let r = if (any || scores[n].health != Health::Bad) && scores[n].weighted_score.value()
            < scores[k].weighted_score.value() {
            n
        } else {
            k
        };
        assert forall|i: int|
            0 <= i < scores.len() && (any || (
            #[trigger] scores[i]).health != Health::Bad) implies scores[r].weighted_score.value()
            <= scores[i].weighted_score.value() && (i < r ==> scores[r].weighted_score.value()
            < scores[i].weighted_score.value()) by {
            if i < n {
                assert(rest[i] == scores[i]);
            }
        }
        r
    } else {
        assert forall|i: int|
            0 <= i < rest.len() implies !(any || (#[trigger] rest[i]).health != Health::Bad) by {}
        lemma_lowest_none(rest, any);
        assert forall|i: int|
            0 <= i < scores.len() && (any || (
            #[trigger] scores[i]).health != Health::Bad) implies i == n by {
            if i < n {
                assert(rest[i] == scores[i]);
            }
        }
        n
    }
}

proof fn lemma_lowest_none(scores: Seq<Score>, any: bool)
    requires
        forall|i: int|
            0 <= i < scores.len() ==> !(any || (#[trigger] scores[i]).health != Health::Bad),
    ensures
        lowest_score(scores, any) is None,
    decreases scores.len(),
{
    if scores.len() > 0 {
        let rest = scores.drop_last();
        assert(forall|i: int| 0 <= i < rest.len() ==> #[trigger] rest[i] == scores[i]);
        lemma_lowest_none(rest, any);
        assert(scores[scores.len() - 1].health == Health::Bad);
    }
}

/// Unless a route was chosen by hand, the one recommended has the lowest weighted
/// score of those that are not bad (of all, where each is bad), and of equal ones
/// it is the first. Every weighted score is to be a number.
pub proof fn law_lowest_score_is_recommended<F: Fn(Op) -> Scalar>(
    unit: F,
    m: ManagerView,
    snap: SnapshotView,
    now_ms: int,
    e: Evaluation,
) -> (k: int)
    requires
        evaluates(unit, m, snap, now_ms, e),
        m.manual_override is None,
        e.scores.len() > 0,
        all_weighed(e),
    ensures
        choosable(e.scores, k),
        e.recommended == Some(e.scores[k].id),
        forall|i: int| #[trigger]
            choosable(e.scores, i) ==> e.scores[k].weighted_score.value()
                <= e.scores[i].weighted_score.value(),
        forall|i: int| #[trigger]
            choosable(e.scores, i) && i < k ==> e.scores[k].weighted_score.value()
                < e.scores[i].weighted_score.value(),
{
    let s = e.scores;
    if exists|i: int| 0 <= i < s.len() && (#[trigger] s[i]).health != Health::Bad {
        lemma_lowest(s, false)
    } else {
        lemma_lowest_none(s, false);
        assert(0 <= 0 < s.len());
        let first = s[0];
        lemma_lowest(s, true)
    }
}

// ---------------------------------------------------------------------------
// The reason
// ---------------------------------------------------------------------------

/// Without a choice by hand, and with another route recommended than the one in
/// use, which is not bad and has a weighted score above 0: once the pause since
/// the last switch is over, the reason is an improvement exactly where the score
/// falls by the switch margin at least, relative to the score of the route in use.
pub proof fn law_gain_decides<F: Fn(Op) -> Scalar>(
    unit: F,
    m: ManagerView,
    snap: SnapshotView,
    now_ms: int,
    e: Evaluation,
    i: int,
    j: int,
)
    requires
        evaluates(unit, m, snap, now_ms, e),
        m.manual_override is None,
        0 <= i < e.scores.len(),
        0 <= j < e.scores.len(),
        i != j,
        snap.selected == Some(e.scores[i].id),
        e.recommended == Some(e.scores[j].id),
        e.scores[i].health != Health::Bad,
        Scalar::zero_value().less(e.scores[i].weighted_score),
        since_switch(m, now_ms) >= m.cooldown_ms,
    ensures
        ({
            let (current, better) = (e.scores[i].weighted_score, e.scores[j].weighted_score);
            let gain = result(unit, Op::Over(result(unit, Op::Minus(current, better)), current));
            e.reason == if gain.at_least(m.switch_margin) {
                EvalReason::Improvement
            } else {
                EvalReason::NoChange
            }
        }),
{
    assert(m.candidates.dom() != Set::<Seq<char>>::empty());
    lemma_ids_differ(unit, snap, m.candidates, e.scores);
    lemma_weighted_at(e.scores, i);
    lemma_weighted_at(e.scores, j);
    if i < j {
        assert(e.scores[i].id != e.scores[j].id);
    } else {
        assert(e.scores[j].id != e.scores[i].id);
    }
    assert(e.scores[i].health == snap.health_of(e.scores[i].id));
}

/// A route that does not score lower than the one in use is no improvement, in
/// single precision and with a margin above 0.
pub proof fn law_no_gain_no_improvement<F: Fn(Op) -> Scalar>(
    unit: F,
    m: ManagerView,
    snap: SnapshotView,
    now_ms: int,
    e: Evaluation,
    i: int,
    j: int,
)
    requires
        evaluates(unit, m, snap, now_ms, e),
        single_precision(unit),
        m.manual_override is None,
        0 <= i < e.scores.len(),
        0 <= j < e.scores.len(),
        i != j,
        snap.selected == Some(e.scores[i].id),
        e.recommended == Some(e.scores[j].id),
        e.scores[i].health != Health::Bad,
        e.scores[i].weighted_score.finite(),
        e.scores[j].weighted_score.finite(),
        0 < e.scores[i].weighted_score.value() <= e.scores[j].weighted_score.value(),
        m.switch_margin.value() > 0,
        since_switch(m, now_ms) >= m.cooldown_ms,
    ensures
        e.reason == EvalReason::NoChange,
{
    let (c, b) = (e.scores[i].weighted_score, e.scores[j].weighted_score);
    lemma_one();
    law_gain_decides(unit, m, snap, now_ms, e, i, j);
    let zero = Scalar::zero_value();
    let d = result(unit, Op::Minus(c, b));
    assert(rounds(d, c.value() - b.value(), 1));
    assert(zero.finite() && d.value() <= 0);
    let low = Scalar { bits: (b.code() + 0x8000_0000) as u32 };
    assert(!b.negative()) by {
        if b.negative() {
            lemma_code_orders(0, b.code());
            assert(code_magnitude(0) == 0);
        }
    }
    assert(low.finite() && low.value() == -b.value());
    assert(low.value() * 1 <= c.value() - b.value());
    assert(low.value() <= d.value());
    lemma_bounded_is_finite(d, b);
    let g = result(unit, Op::Over(d, c));
    lemma_pow2_pos(149);
    assert(rounds(g, d.value() * pow2(149), c.value()));
    assert(d.value() * pow2(149) <= 0 * c.value()) by (nonlinear_arith)
        requires
            d.value() <= 0,
            pow2(149) > 0,
    ;
    assert(g.value() <= zero.value());
}

/// The other reasons. A recommendation of the route in use changes nothing. A bad
/// route is left at once. Any other switch waits for the pause since the last one
/// to be over, and once it is over, a route in use without a weighted score above
/// 0, or none in use at all, makes every other one an improvement.
pub proof fn law_reasons<F: Fn(Op) -> Scalar>(
    unit: F,
    m: ManagerView,
    snap: SnapshotView,
    now_ms: int,
    e: Evaluation,
)
    requires
        evaluates(unit, m, snap, now_ms, e),
        m.manual_override is None,
        m.candidates.dom() != Set::<Seq<char>>::empty(),
    ensures
        e.recommended == snap.selected ==> e.reason == EvalReason::NoChange,
        e.recommended != snap.selected && snap.selected is Some && snap.health_of(
            snap.selected->0,
        ) == Health::Bad ==> e.reason == EvalReason::EmergencyBypass,
        e.recommended != snap.selected && (snap.selected is Some ==> snap.health_of(
            snap.selected->0,
        ) != Health::Bad) && since_switch(m, now_ms) < m.cooldown_ms ==> e.reason
            == EvalReason::CooldownBlocked,
        e.recommended != snap.selected && (snap.selected is Some ==> snap.health_of(
            snap.selected->0,
        ) != Health::Bad) && since_switch(m, now_ms) >= m.cooldown_ms && (forall|i: int|
            0 <= i < e.scores.len() && Some((#[trigger] e.scores[i]).id) == snap.selected
                ==> !Scalar::zero_value().less(e.scores[i].weighted_score)) ==> e.reason
            == EvalReason::Improvement,
{
    let s = e.scores;
    lemma_ids_differ(unit, snap, m.candidates, s);
    match snap.selected {
        Some(id) => {
            if exists|i: int| 0 <= i < s.len() && (#[trigger] s[i]).id == id {
                let i = choose|i: int| 0 <= i < s.len() && (#[trigger] s[i]).id == id;
                lemma_weighted_at(s, i);
            } else {
                assert forall|a: int| 0 <= a < s.len() implies (#[trigger] s[a]).id != id by {}
                lemma_weighted_none(s, id);
            }
        },
        None => {},
    }
}

// ---------------------------------------------------------------------------
// Candidates
// ---------------------------------------------------------------------------

proof fn lemma_candidates(specs: Seq<EndpointView>, id: Seq<char>)
    ensures
        candidates_of(specs).dom().contains(id) <==> exists|i: int|
            0 <= i < specs.len() && (#[trigger] specs[i]).id == id,
    decreases specs.len(),
{
    if specs.len() > 0 {
        let rest = specs.drop_last();
        lemma_candidates(rest, id);
        if candidates_of(rest).dom().contains(id) {
            let i = choose|i: int| 0 <= i < rest.len() && (#[trigger] rest[i]).id == id;
            assert(specs[i] == rest[i]);
        }
        if exists|i: int| 0 <= i < specs.len() && (#[trigger] specs[i]).id == id {
            let i = choose|i: int| 0 <= i < specs.len() && (#[trigger] specs[i]).id == id;
            if i < rest.len() {
                assert(rest[i].id == id);
            }
        } else {
            assert(specs[specs.len() - 1].id != id);
        }
    }
}

/// The candidates are those described, each under its id: the last description of
/// an id counts, as it is but for its weight, which is one hundredth at least.
pub proof fn law_candidates_as_described(
    m: ManagerView,
    specs: Seq<EndpointView>,
    i: int,
    id: Seq<char>,
)
    requires
        0 <= i < specs.len(),
        forall|j: int| i < j < specs.len() ==> (#[trigger] specs[j]).id != specs[i].id,
    ensures
        ({
            let c = m.with_candidates(specs).candidates;
            let floor = Scalar { bits: 0x3c23_d70a };
            &&& c.dom().contains(id) <==> exists|j: int|
                0 <= j < specs.len() && (#[trigger] specs[j]).id == id
            &&& c.dom().contains(specs[i].id)
            &&& c[specs[i].id] == EndpointView {
                weight: if specs[i].weight.at_least(floor) {
                    specs[i].weight
                } else {
                    floor
                },
                ..specs[i]
            }
        }),
    decreases specs.len(),
{
    lemma_hundredth();
    lemma_candidates(specs, id);
    lemma_candidates(specs, specs[i].id);
    if i < specs.len() - 1 {
        let rest = specs.drop_last();
        assert(rest[i] == specs[i]);
        assert forall|j: int| i < j < rest.len() implies (#[trigger] rest[j]).id != rest[i].id by {
            assert(rest[j] == specs[j]);
        }
        law_candidates_as_described(m, rest, i, id);
        assert(specs[specs.len() - 1].id != specs[i].id);
    }
}

/// A choice by hand outlives new candidates exactly where it is still among them,
/// and nothing else about the manager changes.
pub proof fn law_choice_falls_with_its_candidate(m: ManagerView, specs: Seq<EndpointView>)
    ensures
        ({
            let n = m.with_candidates(specs);
            &&& n.manual_override == if m.manual_override is Some && exists|j: int|
                0 <= j < specs.len() && Some((#[trigger] specs[j]).id) == m.manual_override {
                m.manual_override
            } else {
                None
            }
            &&& n.last_switch_ms == m.last_switch_ms
            &&& n.cooldown_ms == m.cooldown_ms
            &&& n.switch_margin == m.switch_margin
        }),
{
    if m.manual_override is Some {
        let id = m.manual_override->0;
        lemma_candidates(specs, id);
        if exists|j: int| 0 <= j < specs.len() && (#[trigger] specs[j]).id == id {
            let j = choose|j: int| 0 <= j < specs.len() && (#[trigger] specs[j]).id == id;
            assert(Some(specs[j].id) == m.manual_override);
        } else {
            assert forall|j: int| 0 <= j < specs.len() implies Some((#[trigger] specs[j]).id)
                != m.manual_override by {
                assert(specs[j].id != id);
            }
        }
    }
}

} // verus!
