//! Figures over a window of samples.

use crate::arith::{
    dependable, diff, diff_of, mean, mean_of, product, product_of, quotient, quotient_of, sum,
    sum_of, whole, whole_of, Op,
};
use crate::metrics::PingSample;
use crate::scalar::{law_unit_range, Scalar, HALF_BITS, INFINITY_BITS, ONE_BITS, ZERO_BITS};
use vstd::prelude::*;

verus! {

/// The encoding of 50.0, a jitter in milliseconds that counts as very bad.
pub const BAD_JITTER_BITS: u32 = 0x4248_0000;

/// The encoding of negative infinity.
pub const MINUS_INFINITY_BITS: u32 = 0xff80_0000;

/// How many samples of a list were lost.
pub open spec fn lost_count(samples: Seq<PingSample>) -> nat
    decreases samples.len(),
{
    if samples.len() == 0 {
        0
    } else if samples.last().rtt_ms is None {
        lost_count(samples.drop_last()) + 1
    } else {
        lost_count(samples.drop_last())
    }
}

/// The round-trip times of the samples that were not lost, in order.
pub open spec fn times_of(samples: Seq<PingSample>) -> Seq<Scalar>
    decreases samples.len(),
{
    if samples.len() == 0 {
        seq![]
    } else {
        match samples.last().rtt_ms {
            Some(t) => times_of(samples.drop_last()).push(t),
            None => times_of(samples.drop_last()),
        }
    }
}

/// Which share of the samples was lost.
pub open spec fn loss_of<F: Fn(Op) -> Scalar>(unit: F, samples: Seq<PingSample>) -> Scalar {
    if samples.len() == 0 {
        Scalar::zero_value()
    } else {
        quotient_of(
            unit,
            whole_of(unit, lost_count(samples) as int),
            whole_of(unit, samples.len() as int),
        )
    }
}

/// The sum of the steps from each time to the next.
pub open spec fn steps_of<F: Fn(Op) -> Scalar>(unit: F, times: Seq<Scalar>) -> Scalar
    decreases times.len(),
{
    if times.len() < 2 {
        Scalar::zero_value()
    } else {
        sum_of(
            unit,
            steps_of(unit, times.drop_last()),
            diff_of(unit, times.last(), times[times.len() - 2]).magnitude(),
        )
    }
}

/// The mean step from each time to the next, lost samples left out.
pub open spec fn jitter_of<F: Fn(Op) -> Scalar>(unit: F, samples: Seq<PingSample>) -> Scalar {
    let times = times_of(samples);
    if times.len() < 2 {
        Scalar::zero_value()
    } else {
        quotient_of(unit, steps_of(unit, times), whole_of(unit, times.len() - 1))
    }
}

/// The lowest of some times.
pub open spec fn lowest(times: Seq<Scalar>) -> Scalar
    decreases times.len(),
{
    if times.len() == 0 {
        Scalar { bits: INFINITY_BITS }
    } else if times.last().less(lowest(times.drop_last())) {
        times.last()
    } else {
        lowest(times.drop_last())
    }
}

/// The highest of some times.
pub open spec fn highest(times: Seq<Scalar>) -> Scalar
    decreases times.len(),
{
    if times.len() == 0 {
        Scalar { bits: MINUS_INFINITY_BITS }
    } else if highest(times.drop_last()).less(times.last()) {
        times.last()
    } else {
        highest(times.drop_last())
    }
}

/// How steady a target is, from 0 to 1: half of it is taken off for jitter, half
/// for loss.
pub open spec fn stability_of<F: Fn(Op) -> Scalar>(
    unit: F,
    jitter_ms: Scalar,
    loss_ratio: Scalar,
) -> Scalar {
    let half = Scalar { bits: HALF_BITS };
    let j = quotient_of(unit, jitter_ms, Scalar { bits: BAD_JITTER_BITS }).unit_range();
    let l = loss_ratio.unit_range();
    let bad = sum_of(unit, product_of(unit, j, half), product_of(unit, l, half));
    diff_of(unit, Scalar::one_value(), bad).unit_range()
}

/// How many samples of a list were lost.
pub fn count_lost(samples: &Vec<PingSample>) -> (r: usize)
    ensures
        r == lost_count(samples@),
        r <= samples@.len(),
{
    let mut n: usize = 0;
    let mut i: usize = 0;
    assert(samples@.take(0) =~= Seq::<PingSample>::empty());
    while i < samples.len()
        invariant
            n <= i <= samples@.len(),
            n == lost_count(samples@.take(i as int)),
        decreases samples@.len() - i,
    {
        assert(samples@.take(i as int + 1).drop_last() =~= samples@.take(i as int));
        assert(samples@.take(i as int + 1).last() == samples@[i as int]);
        if samples[i].rtt_ms.is_none() {
            n = n + 1;
        }
        i = i + 1;
    }
    assert(samples@.take(i as int) =~= samples@);
    n
}

/// The round-trip times of the samples that were not lost, in order.
pub fn times(samples: &Vec<PingSample>) -> (r: Vec<Scalar>)
    ensures
        r@ == times_of(samples@),
{
    let mut out: Vec<Scalar> = Vec::new();
    let mut i: usize = 0;
    assert(samples@.take(0) =~= Seq::<PingSample>::empty());
    while i < samples.len()
        invariant
            i <= samples@.len(),
            out@ == times_of(samples@.take(i as int)),
        decreases samples@.len() - i,
    {
        assert(samples@.take(i as int + 1).drop_last() =~= samples@.take(i as int));
        assert(samples@.take(i as int + 1).last() == samples@[i as int]);
        match samples[i].rtt_ms {
            Some(t) => {
                out.push(t);
            },
            None => {},
        }
        i = i + 1;
    }
    assert(samples@.take(i as int) =~= samples@);
    out
}

/// Which share of the samples was lost.
pub fn loss_ratio<F: Fn(Op) -> Scalar>(unit: &F, samples: &Vec<PingSample>) -> (r: Scalar)
    requires
        dependable(*unit),
    ensures
        r == loss_of(*unit, samples@),
{
    if samples.len() == 0 {
        return Scalar { bits: ZERO_BITS };
    }
    let lost = count_lost(samples);
    quotient(unit, whole(unit, lost), whole(unit, samples.len()))
}

/// The mean step from each time to the next, lost samples left out.
pub fn jitter_ms<F: Fn(Op) -> Scalar>(unit: &F, samples: &Vec<PingSample>) -> (r: Scalar)
    requires
        dependable(*unit),
    ensures
        r == jitter_of(*unit, samples@),
{
    let t = times(samples);
    if t.len() < 2 {
        return Scalar { bits: ZERO_BITS };
    }
    let mut acc = Scalar { bits: ZERO_BITS };
    let mut i: usize = 1;
    while i < t.len()
        invariant
            dependable(*unit),
            1 <= i <= t@.len(),
            acc == steps_of(*unit, t@.take(i as int)),
        decreases t@.len() - i,
    {
        let ghost part = t@.take(i as int + 1);
        assert(part.drop_last() =~= t@.take(i as int));
        assert(part.last() == t@[i as int]);
        assert(part[part.len() - 2] == t@[i - 1]);
        acc = sum(unit, acc, diff(unit, t[i], t[i - 1]).abs());
        i = i + 1;
    }
    assert(t@.take(i as int) =~= t@);
    quotient(unit, acc, whole(unit, t.len() - 1))
}

/// The mean, the lowest and the highest time, where there is any.
pub fn avg_min_max<F: Fn(Op) -> Scalar>(unit: &F, samples: &Vec<PingSample>) -> (r: (
    Option<Scalar>,
    Option<Scalar>,
    Option<Scalar>,
))
    requires
        dependable(*unit),
    ensures
        ({
            let t = times_of(samples@);
            if t.len() == 0 {
                r == (None::<Scalar>, None::<Scalar>, None::<Scalar>)
            } else {
                r == (Some(mean_of(*unit, t)), Some(lowest(t)), Some(highest(t)))
            }
        }),
{
    let t = times(samples);
    if t.len() == 0 {
        return (None, None, None);
    }
    let mut low = Scalar { bits: INFINITY_BITS };
    let mut high = Scalar { bits: MINUS_INFINITY_BITS };
    let mut i: usize = 0;
    while i < t.len()
        invariant
            i <= t@.len(),
            low == lowest(t@.take(i as int)),
            high == highest(t@.take(i as int)),
        decreases t@.len() - i,
    {
        assert(t@.take(i as int + 1).drop_last() =~= t@.take(i as int));
        assert(t@.take(i as int + 1).last() == t@[i as int]);
        if t[i].lt(&low) {
            low = t[i];
        }
        if t[i].gt(&high) {
            high = t[i];
        }
        i = i + 1;
    }
    assert(t@.take(i as int) =~= t@);
    (Some(mean(unit, &t)), Some(low), Some(high))
}

/// How steady a target is, from 0 to 1.
pub fn stability<F: Fn(Op) -> Scalar>(unit: &F, jitter_ms: Scalar, loss_ratio: Scalar) -> (r: Scalar)
    requires
        dependable(*unit),
    ensures
        r == stability_of(*unit, jitter_ms, loss_ratio),
{
    let half = Scalar { bits: HALF_BITS };
    let j = quotient(unit, jitter_ms, Scalar { bits: BAD_JITTER_BITS }).clamp_unit();
    let l = loss_ratio.clamp_unit();
    let bad = sum(unit, product(unit, j, half), product(unit, l, half));
    diff(unit, Scalar { bits: ONE_BITS }, bad).clamp_unit()
}

/// No time is below the lowest or above the highest.
pub proof fn law_lowest_and_highest(times: Seq<Scalar>, i: int)
    requires
        0 <= i < times.len(),
    ensures
        !times[i].less(lowest(times)),
        !highest(times).less(times[i]),
    decreases times.len(),
{
    if i < times.len() - 1 {
        law_lowest_and_highest(times.drop_last(), i);
        assert(times.drop_last()[i] == times[i]);
    }
}

/// How steady a target is lies from 0 to 1, unless the unit gives no number.
pub proof fn law_stability_in_range<F: Fn(Op) -> Scalar>(unit: F, jitter_ms: Scalar, loss_ratio: Scalar)
    ensures
        ({
            let s = stability_of(unit, jitter_ms, loss_ratio);
            !s.nan() ==> s.at_least(Scalar::zero_value()) && Scalar::one_value().at_least(s)
        }),
{
    let half = Scalar { bits: HALF_BITS };
    let j = quotient_of(unit, jitter_ms, Scalar { bits: BAD_JITTER_BITS }).unit_range();
    let bad = sum_of(
        unit,
        product_of(unit, j, half),
        product_of(unit, loss_ratio.unit_range(), half),
    );
    law_unit_range(diff_of(unit, Scalar::one_value(), bad));
}

} // verus!
