//! What the figures over a window are.

use crate::arith::{result, rounds, single_precision, total_of, whole_of, Op};
use crate::metrics::aggregate::{
    highest, law_lowest_and_highest, lost_count, lowest, steps_of, times_of,
};
use crate::metrics::{figures_of, PingSample, StoreView};
use crate::scalar::{
    code_magnitude, lemma_bounded_is_finite, lemma_code_orders, lemma_number, lemma_one,
    lemma_opposite, Scalar,
};
use vstd::arithmetic::power2::{lemma_pow2_pos, pow2};
use vstd::prelude::*;

verus! {

/// 2^24: as far as single precision counts without a gap.
pub const COUNTED: u32 = 0x0100_0000;

/// The times of the probes that were answered, in order.
pub open spec fn answered(samples: Seq<PingSample>) -> Seq<Scalar> {
    samples.filter(|s: PingSample| s.rtt_ms is Some).map_values(|s: PingSample| s.rtt_ms->0)
}

/// Whether times are whole numbers of milliseconds.
pub open spec fn whole_ms(t: Seq<Scalar>, ks: Seq<int>) -> bool {
    &&& t.len() == ks.len()
    &&& forall|i: int|
        0 <= i < t.len() ==> !(#[trigger] t[i]).nan() && 0 <= ks[i] && t[i].value() == ks[i]
            * pow2(149)
}

/// The sum of some numbers.
pub open spec fn sum_all(ks: Seq<int>) -> int
    decreases ks.len(),
{
    if ks.len() == 0 {
        0
    } else {
        sum_all(ks.drop_last()) + ks.last()
    }
}

/// The distance of two numbers.
pub open spec fn distance(a: int, b: int) -> int {
    if a < b {
        b - a
    } else {
        a - b
    }
}

/// The sum of the distances from each number to the next.
pub open spec fn steps_all(ks: Seq<int>) -> int
    decreases ks.len(),
{
    if ks.len() < 2 {
        0
    } else {
        steps_all(ks.drop_last()) + distance(ks[ks.len() - 2], ks[ks.len() - 1])
    }
}

// ---------------------------------------------------------------------------
// Exact arithmetic on whole numbers
// ---------------------------------------------------------------------------

/// What can be written without rounding is.
proof fn lemma_exact(r: Scalar, k: int)
    requires
        rounds(r, k * pow2(149), 1),
        -COUNTED <= k <= COUNTED,
    ensures
        r.finite(),
        r.value() == k * pow2(149),
{
    let p = pow2(149) as int;
    lemma_pow2_pos(149);
    if k >= 0 {
        let m = lemma_number(k, 149);
        assert(m.finite() && m.value() * 1 == k * p);
        assert(k * p >= 0) by (nonlinear_arith)
            requires
                k >= 0,
                p > 0,
        ;
        lemma_bounded_is_finite(r, m);
    } else {
        let m = lemma_number(-k, 149);
        let o = lemma_opposite(m);
        assert((-k) * p == -(k * p)) by (nonlinear_arith);
        assert(o.finite() && o.value() * 1 == k * p);
        assert((-k) * p >= 0) by (nonlinear_arith)
            requires
                k < 0,
                p > 0,
        ;
        lemma_bounded_is_finite(r, m);
    }
}

proof fn lemma_small_is_finite(x: Scalar, k: int)
    requires
        !x.nan(),
        0 <= k <= COUNTED,
        x.value() == k * pow2(149),
    ensures
        x.finite(),
{
    let m = lemma_number(k, 149);
    lemma_pow2_pos(149);
    assert(k * pow2(149) >= 0) by (nonlinear_arith)
        requires
            k >= 0,
            pow2(149) > 0,
    ;
    lemma_bounded_is_finite(x, m);
}

proof fn lemma_sum_not_negative(ks: Seq<int>)
    requires
        forall|i: int| 0 <= i < ks.len() ==> 0 <= #[trigger] ks[i],
    ensures
        0 <= sum_all(ks),
        forall|i: int| 0 <= i < ks.len() ==> #[trigger] ks[i] <= sum_all(ks),
    decreases ks.len(),
{
    if ks.len() > 0 {
        let rest = ks.drop_last();
        assert(forall|i: int| 0 <= i < rest.len() ==> #[trigger] rest[i] == ks[i]);
        lemma_sum_not_negative(rest);
        assert(0 <= ks[ks.len() - 1]);
        assert forall|i: int| 0 <= i < ks.len() implies #[trigger] ks[i] <= sum_all(ks) by {
            if i < rest.len() {
                assert(rest[i] <= sum_all(rest));
            }
        }
    }
}

proof fn lemma_total<F: Fn(Op) -> Scalar>(unit: F, t: Seq<Scalar>, ks: Seq<int>)
    requires
        single_precision(unit),
        whole_ms(t, ks),
        sum_all(ks) <= COUNTED,
    ensures
        total_of(unit, t).finite(),
        total_of(unit, t).value() == sum_all(ks) * pow2(149),
    decreases t.len(),
{
    let p = pow2(149) as int;
    assert forall|i: int| 0 <= i < ks.len() implies 0 <= #[trigger] ks[i] by {
        assert(!t[i].nan());
    }
    lemma_sum_not_negative(ks);
    lemma_one();
    if t.len() == 0 {
        assert(0 * p == 0);
    } else {
        let n = t.len() - 1;
        let (rest, ls) = (t.drop_last(), ks.drop_last());
        assert(whole_ms(rest, ls)) by {
            assert forall|i: int| 0 <= i < rest.len() implies !(#[trigger] rest[i]).nan() && 0
                <= ls[i] && rest[i].value() == ls[i] * pow2(149) by {
                assert(rest[i] == t[i]);
            }
        }
        assert(t[n] == t.last() && ks[n] == ks.last());
        lemma_total(unit, rest, ls);
        assert forall|i: int| 0 <= i < ls.len() implies 0 <= #[trigger] ls[i] by {
            assert(ls[i] == ks[i]);
        }
        lemma_sum_not_negative(ls);
        lemma_small_is_finite(t[n], ks[n]);
        let a = total_of(unit, rest);
        let r = total_of(unit, t);
        assert(rounds(r, a.value() + t[n].value(), 1));
        assert(sum_all(ls) * p + ks[n] * p == sum_all(ks) * p) by (nonlinear_arith)
            requires
                sum_all(ks) == sum_all(ls) + ks[n],
        ;
        lemma_exact(r, sum_all(ks));
    }
}

proof fn lemma_whole<F: Fn(Op) -> Scalar>(unit: F, n: int)
    requires
        single_precision(unit),
        0 <= n <= COUNTED,
    ensures
        whole_of(unit, n).finite(),
        whole_of(unit, n).value() == n * pow2(149),
{
    assert(rounds(result(unit, Op::Whole(n as u64)), n * pow2(149), 1));
    lemma_exact(whole_of(unit, n), n);
}

/// A quotient of whole numbers, rounded.
proof fn lemma_quotient<F: Fn(Op) -> Scalar>(unit: F, a: Scalar, b: Scalar, k: int, n: int)
    requires
        single_precision(unit),
        a.finite(),
        b.finite(),
        a.value() == k * pow2(149),
        b.value() == n * pow2(149),
        n > 0,
    ensures
        rounds(result(unit, Op::Over(a, b)), k * pow2(149), n),
{
    let p = pow2(149) as int;
    lemma_pow2_pos(149);
    let r = result(unit, Op::Over(a, b));
    assert(n * p > 0) by (nonlinear_arith)
        requires
            n > 0,
            p > 0,
    ;
    assert(rounds(r, a.value() * p, b.value()));
    assert forall|m: Scalar| #[trigger] m.finite() implies {
        &&& k * p <= m.value() * n ==> r.value() <= m.value()
        &&& m.value() * n <= k * p ==> m.value() <= r.value()
    } by {
        let v = m.value();
        assert(k * p <= v * n ==> (k * p) * p <= v * (n * p)) by (nonlinear_arith)
            requires
                p > 0,
        ;
        assert(v * n <= k * p ==> v * (n * p) <= (k * p) * p) by (nonlinear_arith)
            requires
                p > 0,
        ;
    }
}

// ---------------------------------------------------------------------------
// Laws
// ---------------------------------------------------------------------------

/// What counts as answered and what as lost: the times are those of the answered
/// probes, in order, and every other probe is lost.
pub proof fn law_answered_and_lost(samples: Seq<PingSample>)
    ensures
        times_of(samples) == answered(samples),
        lost_count(samples) == samples.filter(|s: PingSample| s.rtt_ms is None).len(),
        lost_count(samples) + answered(samples).len() == samples.len(),
    decreases samples.len(),
{
    reveal(Seq::filter);
    let f = |s: PingSample| s.rtt_ms is Some;
    let g = |s: PingSample| s.rtt_ms->0;
    if samples.len() > 0 {
        let rest = samples.drop_last();
        law_answered_and_lost(rest);
        if f(samples.last()) {
            assert(samples.filter(f) == rest.filter(f).push(samples.last()));
            assert(answered(samples) =~= answered(rest).push(samples.last().rtt_ms->0));
        } else {
            assert(samples.filter(f) == rest.filter(f));
        }
    } else {
        assert(answered(samples) =~= times_of(samples));
    }
}

/// The mean time, in single precision, of whole numbers of milliseconds whose sum
/// has at most 24 bits: their sum divided by their number, rounded.
pub proof fn law_mean_time<F: Fn(Op) -> Scalar>(
    unit: F,
    id: Seq<char>,
    samples: Seq<PingSample>,
    window: int,
    ks: Seq<int>,
)
    requires
        single_precision(unit),
        whole_ms(answered(samples), ks),
        samples.len() <= COUNTED,
        sum_all(ks) <= COUNTED,
    ensures
        match figures_of(unit, id, samples, window).avg_rtt_ms {
            Some(mean) => ks.len() > 0 && rounds(mean, sum_all(ks) * pow2(149), ks.len() as int),
            None => ks.len() == 0,
        },
{
    let t = answered(samples);
    law_answered_and_lost(samples);
    if t.len() > 0 {
        lemma_total(unit, t, ks);
        lemma_whole(unit, t.len() as int);
        lemma_quotient(
            unit,
            total_of(unit, t),
            whole_of(unit, t.len() as int),
            sum_all(ks),
            t.len() as int,
        );
    }
}

proof fn lemma_steps<F: Fn(Op) -> Scalar>(unit: F, t: Seq<Scalar>, ks: Seq<int>)
    requires
        single_precision(unit),
        whole_ms(t, ks),
        forall|i: int| 0 <= i < ks.len() ==> #[trigger] ks[i] <= COUNTED,
        steps_all(ks) <= COUNTED,
    ensures
        0 <= steps_all(ks),
        steps_of(unit, t).finite(),
        steps_of(unit, t).value() == steps_all(ks) * pow2(149),
    decreases t.len(),
{
    let p = pow2(149) as int;
    lemma_one();
    if t.len() < 2 {
        assert(0 * p == 0);
    } else {
        let n = t.len() - 1;
        let (rest, ls) = (t.drop_last(), ks.drop_last());
        assert(whole_ms(rest, ls)) by {
            assert forall|i: int| 0 <= i < rest.len() implies !(#[trigger] rest[i]).nan() && 0
                <= ls[i] && rest[i].value() == ls[i] * pow2(149) by {
                assert(rest[i] == t[i]);
            }
        }
        assert forall|i: int| 0 <= i < ls.len() implies #[trigger] ls[i] <= COUNTED by {
            assert(ls[i] == ks[i]);
        }
        assert(t[n] == t.last() && ks[n] == ks.last());
        assert(!t[n].nan() && !t[n - 1].nan());
        lemma_steps(unit, rest, ls);
        lemma_small_is_finite(t[n], ks[n]);
        lemma_small_is_finite(t[n - 1], ks[n - 1]);
        let d = result(unit, Op::Minus(t[n], t[n - 1]));
        assert(rounds(d, t[n].value() - t[n - 1].value(), 1));
        assert(ks[n] * p - ks[n - 1] * p == (ks[n] - ks[n - 1]) * p) by (nonlinear_arith);
        lemma_exact(d, ks[n] - ks[n - 1]);
        let step = distance(ks[n - 1], ks[n]);
        lemma_magnitude(d, ks[n] - ks[n - 1], step);
        let a = steps_of(unit, rest);
        let r = steps_of(unit, t);
        assert(rounds(r, a.value() + d.magnitude().value(), 1));
        assert(steps_all(ls) * p + step * p == steps_all(ks) * p) by (nonlinear_arith)
            requires
                steps_all(ks) == steps_all(ls) + step,
        ;
        lemma_exact(r, steps_all(ks));
    }
}

proof fn lemma_magnitude(d: Scalar, k: int, step: int)
    requires
        d.finite(),
        d.value() == k * pow2(149),
        step == distance(0, k),
    ensures
        d.magnitude().finite(),
        d.magnitude().value() == step * pow2(149),
{
    let p = pow2(149) as int;
    lemma_pow2_pos(149);
    let c = d.code();
    if c > 0 {
        lemma_code_orders(0, c);
    }
    assert(code_magnitude(0) == 0);
    if k < 0 {
        assert(k * p < 0) by (nonlinear_arith)
            requires
                k < 0,
                p > 0,
        ;
        assert((-k) * p == -(k * p)) by (nonlinear_arith);
    } else {
        assert(k * p >= 0) by (nonlinear_arith)
            requires
                k >= 0,
                p > 0,
        ;
    }
}

/// The jitter, in single precision, of whole numbers of milliseconds whose sum and
/// sum of distances have at most 24 bits: the sum of the distances from each time
/// to the next, divided by their number, rounded. With fewer than two answers it
/// is 0.
pub proof fn law_jitter<F: Fn(Op) -> Scalar>(
    unit: F,
    id: Seq<char>,
    samples: Seq<PingSample>,
    window: int,
    ks: Seq<int>,
)
    requires
        single_precision(unit),
        whole_ms(answered(samples), ks),
        samples.len() <= COUNTED,
        forall|i: int| 0 <= i < ks.len() ==> #[trigger] ks[i] <= COUNTED,
        steps_all(ks) <= COUNTED,
    ensures
        ({
            let jitter = figures_of(unit, id, samples, window).jitter_ms;
            if ks.len() < 2 {
                jitter == Scalar { bits: 0 }
            } else {
                rounds(jitter, steps_all(ks) * pow2(149), ks.len() - 1)
            }
        }),
{
    let t = answered(samples);
    law_answered_and_lost(samples);
    if t.len() >= 2 {
        lemma_steps(unit, t, ks);
        lemma_whole(unit, t.len() - 1);
        lemma_quotient(
            unit,
            steps_of(unit, t),
            whole_of(unit, t.len() - 1),
            steps_all(ks),
            t.len() - 1,
        );
    }
}

/// The loss, in single precision, of up to 2^24 probes: the number of those lost
/// divided by the number of all, rounded. Of no probes none is lost.
pub proof fn law_loss<F: Fn(Op) -> Scalar>(
    unit: F,
    id: Seq<char>,
    samples: Seq<PingSample>,
    window: int,
)
    requires
        single_precision(unit),
        samples.len() <= COUNTED,
    ensures
        ({
            let loss = figures_of(unit, id, samples, window).loss_ratio;
            let lost = samples.filter(|s: PingSample| s.rtt_ms is None).len() as int;
            if samples.len() == 0 {
                loss == Scalar { bits: 0 }
            } else {
                rounds(loss, lost * pow2(149), samples.len() as int)
            }
        }),
{
    law_answered_and_lost(samples);
    let lost = lost_count(samples) as int;
    if samples.len() > 0 {
        lemma_whole(unit, lost);
        lemma_whole(unit, samples.len() as int);
        lemma_quotient(
            unit,
            whole_of(unit, lost),
            whole_of(unit, samples.len() as int),
            lost,
            samples.len() as int,
        );
    }
}

proof fn lemma_among(t: Seq<Scalar>)
    requires
        t.len() > 0,
        forall|i: int| 0 <= i < t.len() ==> !(#[trigger] t[i]).nan(),
    ensures
        t.contains(lowest(t)),
        t.contains(highest(t)),
    decreases t.len(),
{
    let rest = t.drop_last();
    let n = t.len() - 1;
    assert(t[n] == t.last());
    assert(!t[n].nan());
    if rest.len() > 0 {
        assert(forall|i: int| 0 <= i < rest.len() ==> #[trigger] rest[i] == t[i]);
        lemma_among(rest);
        let i = rest.index_of(lowest(rest));
        let j = rest.index_of(highest(rest));
        assert(t[i] == lowest(rest) && t[j] == highest(rest));
    } else {
        lemma_extremes(t[n]);
        assert(lowest(rest) == (Scalar { bits: 0x7f80_0000 }));
        assert(highest(rest) == (Scalar { bits: 0xff80_0000 }));
    }
}

/// Only infinity itself is not below infinity, and so on the other side.
proof fn lemma_extremes(x: Scalar)
    requires
        !x.nan(),
    ensures
        x.less(Scalar { bits: 0x7f80_0000 }) || x == (Scalar { bits: 0x7f80_0000 }),
        (Scalar { bits: 0xff80_0000 }).less(x) || x == (Scalar { bits: 0xff80_0000 }),
{
    let c = x.code();
    assert(code_magnitude(0) == 0);
    lemma_code_orders(0, 0x7f80_0000);
    if c > 0 {
        lemma_code_orders(0, c);
    }
    if c < 0x7f80_0000 {
        lemma_code_orders(c, 0x7f80_0000);
    }
}

/// The lowest and the highest time are times of answered probes, and no other time
/// is below the one or above the other. Times are to be numbers.
pub proof fn law_extreme_times<F: Fn(Op) -> Scalar>(
    unit: F,
    id: Seq<char>,
    samples: Seq<PingSample>,
    window: int,
)
    requires
        forall|i: int|
            0 <= i < answered(samples).len() ==> !(#[trigger] answered(samples)[i]).nan(),
    ensures
        ({
            let a = figures_of(unit, id, samples, window);
            let t = answered(samples);
            if t.len() == 0 {
                a.min_rtt_ms is None && a.max_rtt_ms is None && a.avg_rtt_ms is None
            } else {
                &&& a.min_rtt_ms is Some && a.max_rtt_ms is Some
                &&& t.contains(a.min_rtt_ms->0)
                &&& t.contains(a.max_rtt_ms->0)
                &&& forall|i: int|
                    0 <= i < t.len() ==> (a.min_rtt_ms->0).value() <= (#[trigger] t[i]).value()
                        <= (a.max_rtt_ms->0).value()
            }
        }),
{
    let t = answered(samples);
    law_answered_and_lost(samples);
    if t.len() > 0 {
        lemma_among(t);
        let i = t.index_of(lowest(t));
        let j = t.index_of(highest(t));
        assert(t[i] == lowest(t) && t[j] == highest(t));
        assert forall|k: int| 0 <= k < t.len() implies lowest(t).value() <= (#[trigger] t[k]).value()
            <= highest(t).value() by {
            law_lowest_and_highest(t, k);
        }
    }
}

/// The steadiness of a target falls from a whole by half the jitter, as a share of
/// 50 ms, and by half the loss, each share and the rest held to what lies from 0
/// to 1.
pub proof fn law_steadiness<F: Fn(Op) -> Scalar>(
    unit: F,
    id: Seq<char>,
    samples: Seq<PingSample>,
    window: int,
)
    ensures
        ({
            let a = figures_of(unit, id, samples, window);
            let half = Scalar { bits: 0x3f00_0000 };
            let one = Scalar { bits: 0x3f80_0000 };
            let zero = Scalar { bits: 0 };
            let share = result(unit, Op::Over(a.jitter_ms, Scalar { bits: 0x4248_0000 }));
            let off = result(
                unit,
                Op::Plus(
                    result(unit, Op::Times(share.within(zero, one), half)),
                    result(unit, Op::Times(a.loss_ratio.within(zero, one), half)),
                ),
            );
            a.stability == result(unit, Op::Minus(one, off)).within(zero, one)
        }),
{
}

/// What a window tells beside its figures: its target, its latest time if that
/// probe was answered, and how many samples it has and has room for.
pub proof fn law_window_is_told<F: Fn(Op) -> Scalar>(unit: F, v: StoreView, id: Seq<char>)
    ensures
        v.figures(unit, id) is Some <==> v.targets.dom().contains(id),
        v.figures(unit, id) matches Some(a) ==> {
            let samples = v.samples(id);
            &&& a == figures_of(unit, id, samples, v.window)
            &&& a.target_id == id
            &&& a.samples == samples.len()
            &&& a.window == v.window
            &&& a.latest_rtt_ms == if samples.len() == 0 {
                None
            } else {
                samples[samples.len() - 1].rtt_ms
            }
        },
{
}

/// A sample joins the window of its target alone, as the newest; of a full window
/// the oldest goes. A target that is forgotten has no samples, one that is cleared
/// has none but stays.
pub proof fn law_samples_by_target(v: StoreView, id: Seq<char>, sample: PingSample, other: Seq<char>)
    requires
        v.bounded(),
        v.window > 0,
        other != id,
    ensures
        ({
            let all = v.samples(id).push(sample);
            let n = v.pushed(id, sample);
            &&& n.samples(id) == if all.len() <= v.window {
                all
            } else {
                all.drop_first()
            }
            &&& n.samples(other) == v.samples(other)
            &&& n.targets.dom() == v.targets.dom().insert(id)
            &&& n.window == v.window
        }),
        v.removed(id).samples(id) == Seq::<PingSample>::empty(),
        v.removed(id).samples(other) == v.samples(other),
        v.removed(id).targets.dom() == v.targets.dom().remove(id),
        v.cleared(id).samples(id) == Seq::<PingSample>::empty(),
        v.cleared(id).samples(other) == v.samples(other),
        v.cleared(id).targets.dom() == v.targets.dom(),
        v.ensured(id).samples(id) == v.samples(id),
        v.ensured(id).samples(other) == v.samples(other),
        v.ensured(id).targets.dom() == v.targets.dom().insert(id),
{
    let all = v.samples(id).push(sample);
    if v.samples(id).len() == v.window {
        assert(v.pushed(id, sample).samples(id) =~= all.drop_first());
    }
    assert(v.pushed(id, sample).targets.dom() =~= v.targets.dom().insert(id));
    assert(v.removed(id).targets.dom() =~= v.targets.dom().remove(id));
    assert(v.cleared(id).targets.dom() =~= v.targets.dom());
    assert(v.ensured(id).targets.dom() =~= v.targets.dom().insert(id));
    assert(v.ensured(id).samples(id) =~= v.samples(id));
}

} // verus!
