//! What the index of a route is made of.

use super::stability::{
    cross, good_times, ordinals, slope, spread, squares, HistoryView, StabilitySample,
};
use crate::arith::{mean_of, result, total_of, Op};
use crate::metrics::PingSample;
use crate::scalar::{lemma_one, Scalar};
use vstd::prelude::*;

verus! {

/// The times of the probes that were answered.
pub open spec fn answered(samples: Seq<StabilitySample>) -> Seq<Scalar> {
    samples.filter(|s: StabilitySample| !s.loss).map_values(|s: StabilitySample| s.rtt_ms)
}

/// Some numbers added up one after the other.
pub open spec fn added<F: Fn(Op) -> Scalar>(unit: F, s: Seq<Scalar>) -> Scalar {
    s.fold_left(Scalar { bits: 0 }, |a: Scalar, x: Scalar| result(unit, Op::Plus(a, x)))
}

/// The average of some numbers.
pub open spec fn average<F: Fn(Op) -> Scalar>(unit: F, s: Seq<Scalar>) -> Scalar {
    result(unit, Op::Over(added(unit, s), result(unit, Op::Whole(s.len() as u64))))
}

/// How far a number lies from another.
pub open spec fn off<F: Fn(Op) -> Scalar>(unit: F, x: Scalar, from: Scalar) -> Scalar {
    result(unit, Op::Minus(x, from))
}

/// The average of the squares of how far some numbers lie from their average.
pub open spec fn variance<F: Fn(Op) -> Scalar>(unit: F, s: Seq<Scalar>) -> Scalar {
    let m = average(unit, s);
    average(unit, s.map_values(|x: Scalar| result(unit, Op::Times(off(unit, x, m), off(unit, x, m)))))
}

/// The numbers from 0 on, as scalars.
pub open spec fn counted<F: Fn(Op) -> Scalar>(unit: F, n: nat) -> Seq<Scalar> {
    Seq::new(n, |i: int| result(unit, Op::Whole(i as u64)))
}

/// The slope of the line through some numbers that fits them best: how they vary
/// with their places, over how the places vary.
pub open spec fn trend<F: Fn(Op) -> Scalar>(unit: F, s: Seq<Scalar>) -> (Scalar, Scalar) {
    let xs = counted(unit, s.len());
    let (mx, my) = (average(unit, xs), average(unit, s));
    (
        added(
            unit,
            Seq::new(
                s.len(),
                |i: int| result(unit, Op::Times(off(unit, xs[i], mx), off(unit, s[i], my))),
            ),
        ),
        added(
            unit,
            Seq::new(
                s.len(),
                |i: int| result(unit, Op::Times(off(unit, xs[i], mx), off(unit, xs[i], mx))),
            ),
        ),
    )
}

/// Whether a number is above 0.
pub open spec fn positive(x: Scalar) -> bool {
    !x.nan() && x.value() > 0
}

proof fn lemma_answered(samples: Seq<StabilitySample>)
    ensures
        good_times(samples) == answered(samples),
    decreases samples.len(),
{
    reveal(Seq::filter);
    if samples.len() > 0 {
        lemma_answered(samples.drop_last());
        if !samples.last().loss {
            assert(answered(samples) =~= answered(samples.drop_last()).push(
                samples.last().rtt_ms,
            ));
        }
    } else {
        assert(answered(samples) =~= Seq::<Scalar>::empty());
    }
}

proof fn lemma_added<F: Fn(Op) -> Scalar>(unit: F, s: Seq<Scalar>)
    ensures
        total_of(unit, s) == added(unit, s),
    decreases s.len(),
{
    if s.len() > 0 {
        lemma_added(unit, s.drop_last());
    }
}

proof fn lemma_average<F: Fn(Op) -> Scalar>(unit: F, s: Seq<Scalar>)
    ensures
        mean_of(unit, s) == average(unit, s),
{
    lemma_added(unit, s);
}

proof fn lemma_zero()
    ensures
        (Scalar { bits: 0 }).value() == 0,
        !(Scalar { bits: 0 }).nan(),
        forall|x: Scalar| #[trigger] (Scalar { bits: 0 }).less(x) <==> positive(x),
{
    lemma_one();
}

/// How spread out the times of a route are: the root of their variance over their
/// average, and nothing of a single time, or where the average is not above 0.
pub proof fn law_spread<F: Fn(Op) -> Scalar>(unit: F, t: Seq<Scalar>)
    ensures
        spread(unit, t) == if !positive(average(unit, t)) {
            Scalar { bits: 0 }
        } else {
            result(
                unit,
                Op::Over(
                    if t.len() > 1 {
                        result(unit, Op::Root(variance(unit, t)))
                    } else {
                        Scalar { bits: 0 }
                    },
                    average(unit, t),
                ),
            )
        },
{
    lemma_zero();
    lemma_average(unit, t);
    let m = average(unit, t);
    let sq = squares(unit, t, m);
    assert(sq =~= t.map_values(
        |x: Scalar| result(unit, Op::Times(off(unit, x, m), off(unit, x, m))),
    ));
    lemma_average(unit, sq);
}

/// How steeply the times of a route rise or fall: the slope of the line that fits
/// them best, without its sign, and nothing of a single time.
pub proof fn law_slope<F: Fn(Op) -> Scalar>(unit: F, t: Seq<Scalar>)
    ensures
        slope(unit, t) == if t.len() < 2 || !positive(trend(unit, t).1) {
            Scalar { bits: 0 }
        } else {
            result(unit, Op::Over(trend(unit, t).0, trend(unit, t).1)).magnitude()
        },
{
    lemma_zero();
    lemma_average(unit, t);
    let xs = counted(unit, t.len());
    assert(ordinals(unit, t.len()) =~= xs);
    lemma_average(unit, xs);
    let (mx, my) = (average(unit, xs), average(unit, t));
    let num = cross(unit, xs, mx, t, my);
    let den = squares(unit, xs, mx);
    assert(num =~= Seq::new(
        t.len(),
        |i: int| result(unit, Op::Times(off(unit, xs[i], mx), off(unit, t[i], my))),
    ));
    assert(den =~= Seq::new(
        t.len(),
        |i: int| result(unit, Op::Times(off(unit, xs[i], mx), off(unit, xs[i], mx))),
    ));
    lemma_added(unit, num);
    lemma_added(unit, den);
}

/// What is taken off the index of a route with at least three samples, one of them
/// answered: 0.6 of four times the spread, 0.3 of the share that was lost and 0.1 of
/// the slope as a share of 5, each of these and the rest held to what lies from 0
/// to 1. The share that was lost is the number of lost samples over that of all.
pub proof fn law_what_the_index_is_made_of<F: Fn(Op) -> Scalar>(
    unit: F,
    h: HistoryView,
    id: Seq<char>,
)
    requires
        h.of(id).len() >= 3,
        answered(h.of(id)).len() > 0,
    ensures
        ({
            let (zero, one) = (Scalar { bits: 0 }, Scalar { bits: 0x3f80_0000 });
            let samples = h.of(id);
            let t = answered(samples);
            let lost = result(
                unit,
                Op::Over(
                    result(unit, Op::Whole((samples.len() - t.len()) as u64)),
                    result(unit, Op::Whole(samples.len() as u64)),
                ),
            );
            let wide = result(unit, Op::Times(spread(unit, t), Scalar { bits: 0x4080_0000 }));
            let steep = result(unit, Op::Over(slope(unit, t), Scalar { bits: 0x40a0_0000 }));
            let of_wide = result(
                unit,
                Op::Times(wide.within(zero, one), Scalar { bits: 0x3f19_999a }),
            );
            let of_lost = result(
                unit,
                Op::Times(lost.within(zero, one), Scalar { bits: 0x3e99_999a }),
            );
            let of_steep = result(
                unit,
                Op::Times(steep.within(zero, one), Scalar { bits: 0x3dcc_cccd }),
            );
            let bad = result(unit, Op::Plus(result(unit, Op::Plus(of_wide, of_lost)), of_steep));
            h.index(unit, id) == result(unit, Op::Minus(one, bad)).within(zero, one)
        }),
{
    lemma_answered(h.of(id));
}

/// A route with fewer than three samples counts half; one with at least three of
/// which none was answered counts nothing.
pub proof fn law_index_without_answers<F: Fn(Op) -> Scalar>(unit: F, h: HistoryView, id: Seq<char>)
    ensures
        h.of(id).len() < 3 ==> h.index(unit, id).bits == 0x3f00_0000,
        h.of(id).len() >= 3 && answered(h.of(id)).len() == 0 ==> h.index(unit, id).bits == 0,
{
    lemma_answered(h.of(id));
}

/// The history of a route keeps its latest samples, as many as it has room for, in
/// their order; that of another route stays as it was.
pub proof fn law_latest_samples_are_kept(
    h: HistoryView,
    id: Seq<char>,
    sample: StabilitySample,
    other: Seq<char>,
)
    requires
        h.cap > 0,
        h.of(id).len() <= h.cap,
        other != id,
    ensures
        ({
            let all = h.of(id).push(sample);
            h.recorded(id, sample).of(id) == if all.len() <= h.cap {
                all
            } else {
                all.skip(all.len() - h.cap)
            }
        }),
        h.recorded(id, sample).of(other) == h.of(other),
        h.recorded(id, sample).cap == h.cap,
{
    let all = h.of(id).push(sample);
    if all.len() > h.cap {
        assert(h.recorded(id, sample).of(id) =~= all.skip(all.len() - h.cap));
    }
}

/// The sample that a probe gives keeps its moment, is lost where there was no
/// answer, and has the time of the answer otherwise.
pub proof fn law_sample_of_a_probe(s: PingSample)
    ensures
        ({
            let r = StabilitySample::of_ping(s);
            &&& r.ts_ms == s.timestamp_ms
            &&& r.loss <==> s.rtt_ms is None
            &&& s.rtt_ms matches Some(t) ==> r.rtt_ms == t
            &&& s.rtt_ms is None ==> r.rtt_ms.bits == 0
        }),
{
}

} // verus!
