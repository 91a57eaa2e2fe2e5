//! What the stability index is in single precision.

use crate::arith::{
    diff_of, mean_of, product_of, quotient_of, result, rounds, rounds_root, single_precision,
    sum_of, total_of, whole_of, Op,
};
use crate::autopilot::stability::{
    cross, deviation, good_times, law_index_in_range, law_index_is_per_route, loss_share, ordinals,
    slope, spread, squares, steadiness, HistoryView, StabilitySample, FULL_SLOPE_BITS,
    LOSS_SHARE_BITS, MIN_SAMPLES, SLOPE_SHARE_BITS, SPREAD_FACTOR_BITS, SPREAD_SHARE_BITS,
};
use crate::scalar::{
    code_magnitude, law_unit_range, lemma_bounded_is_finite, lemma_code_orders, lemma_number,
    lemma_one, lemma_opposite, Scalar, HALF_BITS, ONE_BITS,
};
use vstd::arithmetic::power2::{lemma2_to64, lemma_pow2_adds, lemma_pow2_pos, pow2};
use vstd::prelude::*;

verus! {

/// 2^24: as far as single precision counts without a gap.
pub const MOST_SAMPLES: u32 = 0x0100_0000;

/// The encoding of 2^20, a time in milliseconds of more than a quarter of an hour.
pub const LONGEST_TIME_BITS: u32 = 0x4980_0000;

/// Whether a time lies from 0 to the longest time.
pub open spec fn plausible(time: Scalar) -> bool {
    time.at_least(Scalar::zero_value()) && (Scalar { bits: LONGEST_TIME_BITS }).at_least(time)
}

/// Whether as many as `n` of a time add up without rounding: it is a whole number
/// times a power of two, and `n` times the whole number has at most 24 bits.
pub open spec fn adds_up(time: Scalar, n: int) -> bool {
    exists|k: int, e: nat|
        0 <= k && k * n <= MOST_SAMPLES && e <= 200 && #[trigger] is_scaled(time, k, e)
}

/// Whether a number is a whole number times a power of two, in units of 2^-149.
pub open spec fn is_scaled(x: Scalar, k: int, e: nat) -> bool {
    x.value() == k * pow2(e)
}

/// Whether a number is finite and lies within a power of two, in units of 2^-149.
spec fn held(x: Scalar, e: nat) -> bool {
    x.finite() && -(pow2(e) as int) <= x.value() <= pow2(e)
}

// ---------------------------------------------------------------------------
// Single operations
// ---------------------------------------------------------------------------

/// A result that is bounded exactly is bounded after rounding.
proof fn lemma_held(r: Scalar, num: int, den: int, k: int, e: nat)
    requires
        rounds(r, num, den),
        den > 0,
        0 <= k <= MOST_SAMPLES,
        e <= 240,
        -(k * pow2(e) * den) <= num <= k * pow2(e) * den,
    ensures
        r.finite(),
        -(k * pow2(e)) <= r.value() <= k * pow2(e),
        num >= 0 ==> r.value() >= 0,
        num <= 0 ==> r.value() <= 0,
{
    let m = lemma_number(k, e);
    let o = lemma_opposite(m);
    lemma_one();
    let zero = Scalar::zero_value();
    assert(zero.finite() && zero.value() * den == 0);
    assert(m.finite() && m.value() * den == k * pow2(e) * den);
    assert(o.value() * den == -(k * pow2(e) * den)) by (nonlinear_arith)
        requires
            o.value() == -(k * pow2(e)),
    ;
    assert(o.finite());
    lemma_bounded_is_finite(r, m);
}

proof fn lemma_whole<F: Fn(Op) -> Scalar>(unit: F, n: int)
    requires
        single_precision(unit),
        0 <= n <= MOST_SAMPLES,
    ensures
        whole_of(unit, n).finite(),
        whole_of(unit, n).value() == n * pow2(149),
{
    let m = lemma_number(n, 149);
    let r = whole_of(unit, n);
    assert(rounds(r, n * pow2(149), 1));
    assert(m.finite() && m.value() * 1 == n * pow2(149));
    lemma_pow2_pos(149);
    assert(n * pow2(149) >= 0) by (nonlinear_arith)
        requires
            n >= 0,
            pow2(149) > 0,
    ;
    lemma_bounded_is_finite(r, m);
}

proof fn lemma_product<F: Fn(Op) -> Scalar>(unit: F, a: Scalar, b: Scalar, ea: nat, eb: nat)
    requires
        single_precision(unit),
        held(a, ea),
        held(b, eb),
        149 <= ea + eb <= 380,
    ensures
        held(product_of(unit, a, b), (ea + eb - 149) as nat),
        a.value() * b.value() >= 0 ==> product_of(unit, a, b).value() >= 0,
        a.value() == 0 || b.value() == 0 ==> product_of(unit, a, b).value() == 0,
{
    let e = (ea + eb - 149) as nat;
    let (x, y) = (a.value(), b.value());
    let (p, q) = (pow2(ea) as int, pow2(eb) as int);
    lemma_pow2_adds(ea, eb);
    lemma_pow2_adds(e, 149);
    lemma_pow2_pos(149);
    assert(-(p * q) <= x * y <= p * q) by (nonlinear_arith)
        requires
            -p <= x <= p,
            -q <= y <= q,
    ;
    let r = product_of(unit, a, b);
    assert(rounds(r, x * y, pow2(149) as int));
    lemma_held(r, x * y, pow2(149) as int, 1, e);
    if x == 0 || y == 0 {
        assert(x * y == 0) by (nonlinear_arith)
            requires
                x == 0 || y == 0,
        ;
    }
}

proof fn lemma_square_sign(x: int)
    ensures
        x * x >= 0,
{
    assert(x * x >= 0) by (nonlinear_arith);
}

/// The difference of two numbers that are not negative.
proof fn lemma_diff<F: Fn(Op) -> Scalar>(unit: F, a: Scalar, b: Scalar, e: nat)
    requires
        single_precision(unit),
        held(a, e),
        held(b, e),
        a.value() >= 0,
        b.value() >= 0,
        e <= 240,
    ensures
        held(diff_of(unit, a, b), e),
        a.value() == b.value() ==> diff_of(unit, a, b).value() == 0,
{
    assert(rounds(diff_of(unit, a, b), a.value() - b.value(), 1));
    lemma_held(diff_of(unit, a, b), a.value() - b.value(), 1, 1, e);
}

// ---------------------------------------------------------------------------
// Lists
// ---------------------------------------------------------------------------

/// Whether all numbers of a list are held by a power of two.
spec fn all_held(s: Seq<Scalar>, e: nat) -> bool {
    forall|i: int| 0 <= i < s.len() ==> held(#[trigger] s[i], e)
}

spec fn all_at_least_zero(s: Seq<Scalar>) -> bool {
    forall|i: int| 0 <= i < s.len() ==> (#[trigger] s[i]).value() >= 0
}

spec fn all_zero(s: Seq<Scalar>) -> bool {
    forall|i: int| 0 <= i < s.len() ==> (#[trigger] s[i]).value() == 0
}

proof fn lemma_total<F: Fn(Op) -> Scalar>(unit: F, s: Seq<Scalar>, e: nat)
    requires
        single_precision(unit),
        s.len() <= MOST_SAMPLES,
        e <= 200,
        all_held(s, e),
    ensures
        total_of(unit, s).finite(),
        -(s.len() * pow2(e)) <= total_of(unit, s).value() <= s.len() * pow2(e),
        all_at_least_zero(s) ==> total_of(unit, s).value() >= 0,
        all_zero(s) ==> total_of(unit, s).value() == 0,
    decreases s.len(),
{
    lemma_one();
    if s.len() > 0 {
        let rest = s.drop_last();
        let n = s.len() as int;
        let p = pow2(e) as int;
        assert(forall|i: int| 0 <= i < rest.len() ==> rest[i] == #[trigger] s[i]);
        assert forall|i: int| 0 <= i < rest.len() implies held(#[trigger] rest[i], e) by {
            assert(held(s[i], e));
        }
        lemma_total(unit, rest, e);
        let a = total_of(unit, rest);
        let b = s.last();
        assert(held(s[n - 1], e));
        assert((n - 1) * p + p == n * p) by (nonlinear_arith);
        let r = sum_of(unit, a, b);
        assert(rounds(r, a.value() + b.value(), 1));
        lemma_held(r, a.value() + b.value(), 1, n, e);
        if all_at_least_zero(s) {
            assert forall|i: int| 0 <= i < rest.len() implies (#[trigger] rest[i]).value() >= 0 by {
                assert(s[i].value() >= 0);
            }
            assert(s[n - 1].value() >= 0);
        }
        if all_zero(s) {
            assert forall|i: int| 0 <= i < rest.len() implies (#[trigger] rest[i]).value() == 0 by {
                assert(s[i].value() == 0);
            }
            assert(s[n - 1].value() == 0);
        }
    } else {
        assert(0 * pow2(e) == 0);
    }
}

proof fn lemma_mean<F: Fn(Op) -> Scalar>(unit: F, s: Seq<Scalar>, e: nat)
    requires
        single_precision(unit),
        0 < s.len() <= MOST_SAMPLES,
        e <= 200,
        all_held(s, e),
    ensures
        held(mean_of(unit, s), e),
        all_at_least_zero(s) ==> mean_of(unit, s).value() >= 0,
        all_zero(s) ==> mean_of(unit, s).value() == 0,
{
    let n = s.len() as int;
    let u = pow2(149) as int;
    let p = pow2(e) as int;
    lemma_pow2_pos(149);
    lemma_total(unit, s, e);
    lemma_whole(unit, n);
    let t = total_of(unit, s);
    let w = whole_of(unit, n);
    let r = mean_of(unit, s);
    assert(n * u > 0) by (nonlinear_arith)
        requires
            n > 0,
            u > 0,
    ;
    let num = t.value() * u;
    assert(rounds(r, num, w.value()));
    assert(-(1 * p * (n * u)) <= num <= 1 * p * (n * u)) by (nonlinear_arith)
        requires
            -(n * p) <= t.value() <= n * p,
            num == t.value() * u,
            u > 0,
    ;
    assert(t.value() >= 0 ==> num >= 0) by (nonlinear_arith)
        requires
            num == t.value() * u,
            u > 0,
    ;
    assert(t.value() == 0 ==> num == 0) by (nonlinear_arith)
        requires
            num == t.value() * u,
    ;
    lemma_held(r, num, n * u, 1, e);
}

/// The squares of the distances from the mean of numbers that are not negative.
proof fn lemma_squares<F: Fn(Op) -> Scalar>(unit: F, s: Seq<Scalar>, from: Scalar, e: nat)
    requires
        single_precision(unit),
        75 <= e <= 180,
        all_held(s, e),
        all_at_least_zero(s),
        held(from, e),
        from.value() >= 0,
    ensures
        all_held(squares(unit, s, from), (2 * e - 149) as nat),
        all_at_least_zero(squares(unit, s, from)),
        (forall|i: int| 0 <= i < s.len() ==> (#[trigger] s[i]).value() == from.value())
            ==> all_zero(squares(unit, s, from)),
{
    let sq = squares(unit, s, from);
    assert forall|i: int| 0 <= i < sq.len() implies held(#[trigger] sq[i], (2 * e - 149) as nat)
        && sq[i].value() >= 0 && (s[i].value() == from.value() ==> sq[i].value() == 0) by {
        let d = diff_of(unit, s[i], from);
        assert(held(s[i], e) && s[i].value() >= 0);
        lemma_diff(unit, s[i], from, e);
        lemma_square_sign(d.value());
        lemma_product(unit, d, d, e, e);
    }
}

// ---------------------------------------------------------------------------
// The index
// ---------------------------------------------------------------------------

/// The times that count are among those of the samples.
proof fn lemma_good_times(samples: Seq<StabilitySample>)
    requires
        forall|i: int|
            0 <= i < samples.len() && !(#[trigger] samples[i]).loss ==> plausible(samples[i].rtt_ms),
    ensures
        good_times(samples).len() <= samples.len(),
        forall|i: int|
            0 <= i < good_times(samples).len() ==> plausible(#[trigger] good_times(samples)[i]),
    decreases samples.len(),
{
    if samples.len() > 0 {
        let rest = samples.drop_last();
        assert forall|i: int| 0 <= i < rest.len() && !(#[trigger] rest[i]).loss implies plausible(
            rest[i].rtt_ms,
        ) by {
            assert(samples[i] == rest[i]);
        }
        lemma_good_times(rest);
        assert(samples[samples.len() - 1] == samples.last());
        assert forall|i: int| 0 <= i < good_times(samples).len() implies plausible(
            #[trigger] good_times(samples)[i],
        ) by {
            if i < good_times(rest).len() {
                assert(good_times(samples)[i] == good_times(rest)[i]);
            }
        }
    }
}

proof fn lemma_plausible(time: Scalar)
    requires
        plausible(time),
    ensures
        held(time, 169),
        time.value() >= 0,
{
    let longest = Scalar { bits: LONGEST_TIME_BITS };
    assert(code_magnitude(0) == 0);
    lemma2_to64();
    lemma_pow2_adds(23, 146);
    assert(longest.value() == pow2(169));
    lemma_bounded_is_finite(time, longest);
}

/// The constants of the index.
proof fn lemma_constants()
    ensures
        held(Scalar { bits: SPREAD_SHARE_BITS }, 149),
        held(Scalar { bits: LOSS_SHARE_BITS }, 149),
        held(Scalar { bits: SLOPE_SHARE_BITS }, 149),
        (Scalar { bits: SPREAD_SHARE_BITS }).value() >= 0,
        (Scalar { bits: LOSS_SHARE_BITS }).value() >= 0,
        (Scalar { bits: SLOPE_SHARE_BITS }).value() >= 0,
        held(Scalar { bits: SPREAD_FACTOR_BITS }, 151),
        (Scalar { bits: SPREAD_FACTOR_BITS }).value() > 0,
        held(Scalar { bits: FULL_SLOPE_BITS }, 152),
        (Scalar { bits: FULL_SLOPE_BITS }).value() > 0,
{
    lemma_one();
    lemma_pow2_pos(149);
    lemma_code_orders(SPREAD_SHARE_BITS as int, ONE_BITS as int);
    lemma_code_orders(LOSS_SHARE_BITS as int, ONE_BITS as int);
    lemma_code_orders(SLOPE_SHARE_BITS as int, ONE_BITS as int);
    lemma2_to64();
    lemma_pow2_adds(23, 128);
    lemma_pow2_adds(128, 24);
    lemma_pow2_pos(128);
    assert(code_magnitude(SPREAD_FACTOR_BITS as int) == 0x80_0000 * pow2(128));
    assert(code_magnitude(FULL_SLOPE_BITS as int) == 0xa0_0000 * pow2(128));
}

/// A number in the unit range.
proof fn lemma_unit(x: Scalar)
    requires
        !x.nan(),
    ensures
        held(x.unit_range(), 149),
        x.unit_range().value() >= 0,
        x.finite() && x.value() == 0 ==> x.unit_range().value() == 0,
{
    law_unit_range(x);
    lemma_one();
    lemma_bounded_is_finite(x.unit_range(), Scalar::one_value());
}

/// Whether times are fit for the index.
spec fn fit_times(t: Seq<Scalar>) -> bool {
    0 < t.len() <= MOST_SAMPLES && forall|i: int| 0 <= i < t.len() ==> plausible(#[trigger] t[i])
}

/// Whether all times have the value of their mean.
spec fn level<F: Fn(Op) -> Scalar>(unit: F, t: Seq<Scalar>) -> bool {
    forall|i: int| 0 <= i < t.len() ==> (#[trigger] t[i]).value() == mean_of(unit, t).value()
}

proof fn lemma_times<F: Fn(Op) -> Scalar>(unit: F, t: Seq<Scalar>)
    requires
        single_precision(unit),
        fit_times(t),
    ensures
        all_held(t, 169),
        all_at_least_zero(t),
        held(mean_of(unit, t), 169),
        mean_of(unit, t).value() >= 0,
{
    assert forall|i: int| 0 <= i < t.len() implies held(#[trigger] t[i], 169) && t[i].value()
        >= 0 by {
        lemma_plausible(t[i]);
    }
    lemma_mean(unit, t, 169);
}

proof fn lemma_deviation<F: Fn(Op) -> Scalar>(unit: F, t: Seq<Scalar>)
    requires
        single_precision(unit),
        fit_times(t),
    ensures
        held(deviation(unit, t), 169),
        deviation(unit, t).value() >= 0,
        level(unit, t) ==> deviation(unit, t).value() == 0,
{
    lemma_one();
    lemma_pow2_pos(169);
    if t.len() > 1 {
        lemma_times(unit, t);
        let from = mean_of(unit, t);
        lemma_squares(unit, t, from, 169);
        let sq = squares(unit, t, from);
        lemma_mean(unit, sq, 189);
        let v = mean_of(unit, sq);
        let r = deviation(unit, t);
        assert(rounds_root(r, v));
        let m = lemma_number(1, 169);
        let u = pow2(149) as int;
        lemma_pow2_adds(169, 169);
        lemma_pow2_adds(189, 149);
        lemma_pow2_pos(149);
        assert(v.value() * u <= pow2(189) * u) by (nonlinear_arith)
            requires
                v.value() <= pow2(189),
                u > 0,
        ;
        assert(m.finite() && m.value() >= 0);
        assert(r.value() <= pow2(169));
        let zero = Scalar::zero_value();
        assert(v.value() * u >= 0) by (nonlinear_arith)
            requires
                v.value() >= 0,
                u > 0,
        ;
        assert(zero.finite() && zero.value() * zero.value() == 0);
        assert(r.value() >= 0);
        lemma_bounded_is_finite(r, m);
        if level(unit, t) {
            assert(v.value() * u == 0) by (nonlinear_arith)
                requires
                    v.value() == 0,
            ;
        }
    }
}

proof fn lemma_spread<F: Fn(Op) -> Scalar>(unit: F, t: Seq<Scalar>)
    requires
        single_precision(unit),
        fit_times(t),
    ensures
        !spread(unit, t).nan(),
        level(unit, t) ==> spread(unit, t).finite() && spread(unit, t).value() == 0,
{
    lemma_one();
    lemma_deviation(unit, t);
    lemma_times(unit, t);
    let mean = mean_of(unit, t);
    if Scalar::zero_value().less(mean) {
        let d = deviation(unit, t);
        let u = pow2(149) as int;
        let r = quotient_of(unit, d, mean);
        assert(rounds(r, d.value() * u, mean.value()));
        if level(unit, t) {
            assert(d.value() * u == 0) by (nonlinear_arith)
                requires
                    d.value() == 0,
            ;
            assert(0 * pow2(0) * mean.value() == 0) by (nonlinear_arith);
            lemma_held(r, 0, mean.value(), 0, 0);
        }
    }
}

proof fn lemma_ordinals<F: Fn(Op) -> Scalar>(unit: F, n: nat)
    requires
        single_precision(unit),
        0 < n <= MOST_SAMPLES,
    ensures
        all_held(ordinals(unit, n), 173),
        all_at_least_zero(ordinals(unit, n)),
        held(mean_of(unit, ordinals(unit, n)), 173),
        mean_of(unit, ordinals(unit, n)).value() >= 0,
{
    let xs = ordinals(unit, n);
    let u = pow2(149) as int;
    lemma_pow2_pos(149);
    lemma2_to64();
    lemma_pow2_adds(24, 149);
    assert forall|i: int| 0 <= i < xs.len() implies held(#[trigger] xs[i], 173) && xs[i].value()
        >= 0 by {
        lemma_whole(unit, i);
        assert(0 <= i * u <= 0x100_0000 * u) by (nonlinear_arith)
            requires
                0 <= i <= 0x100_0000,
                u > 0,
        ;
    }
    lemma_mean(unit, xs, 173);
}

proof fn lemma_slope<F: Fn(Op) -> Scalar>(unit: F, t: Seq<Scalar>)
    requires
        single_precision(unit),
        fit_times(t),
    ensures
        !slope(unit, t).nan(),
        level(unit, t) ==> slope(unit, t).finite() && slope(unit, t).value() == 0,
{
    lemma_one();
    if t.len() >= 2 {
        lemma_times(unit, t);
        lemma_ordinals(unit, t.len());
        let xs = ordinals(unit, t.len());
        let xm = mean_of(unit, xs);
        let ym = mean_of(unit, t);
        let cr = cross(unit, xs, xm, t, ym);
        assert forall|i: int| 0 <= i < cr.len() implies held(#[trigger] cr[i], 193) && (level(
            unit,
            t,
        ) ==> cr[i].value() == 0) by {
            assert(held(xs[i], 173) && xs[i].value() >= 0);
            assert(held(t[i], 169) && t[i].value() >= 0);
            lemma_diff(unit, xs[i], xm, 173);
            lemma_diff(unit, t[i], ym, 169);
            lemma_product(unit, diff_of(unit, xs[i], xm), diff_of(unit, t[i], ym), 173, 169);
        }
        lemma_total(unit, cr, 193);
        lemma_squares(unit, xs, xm, 173);
        lemma_total(unit, squares(unit, xs, xm), 197);
        let num = total_of(unit, cr);
        let den = total_of(unit, squares(unit, xs, xm));
        if Scalar::zero_value().less(den) {
            let q = quotient_of(unit, num, den);
            let u = pow2(149) as int;
            assert(rounds(q, num.value() * u, den.value()));
            if level(unit, t) {
                assert(num.value() * u == 0) by (nonlinear_arith)
                    requires
                        num.value() == 0,
                ;
                assert(0 * pow2(0) * den.value() == 0) by (nonlinear_arith);
                lemma_held(q, 0, den.value(), 0, 0);
            }
        }
    }
}

proof fn lemma_loss<F: Fn(Op) -> Scalar>(unit: F, samples: Seq<StabilitySample>)
    requires
        single_precision(unit),
        0 < samples.len() <= MOST_SAMPLES,
        good_times(samples).len() <= samples.len(),
    ensures
        !loss_share(unit, samples).nan(),
        good_times(samples).len() == samples.len() ==> loss_share(unit, samples).finite()
            && loss_share(unit, samples).value() == 0,
{
    let n = samples.len() as int;
    let lost = n - good_times(samples).len();
    let u = pow2(149) as int;
    lemma_pow2_pos(149);
    lemma_whole(unit, lost);
    lemma_whole(unit, n);
    assert(n * u > 0) by (nonlinear_arith)
        requires
            n > 0,
            u > 0,
    ;
    let a = whole_of(unit, lost);
    let b = whole_of(unit, n);
    assert(rounds(quotient_of(unit, a, b), a.value() * u, b.value()));
    if lost == 0 {
        assert(a.value() * u == 0) by (nonlinear_arith)
            requires
                a.value() == 0 * u,
        ;
        assert(0 * pow2(0) * b.value() == 0) by (nonlinear_arith);
        lemma_held(quotient_of(unit, a, b), 0, b.value(), 0, 0);
    }
}

/// With single-precision arithmetic the index is a number, and 1 where nothing was
/// lost and all times have the value of their mean.
proof fn lemma_index<F: Fn(Op) -> Scalar>(unit: F, samples: Seq<StabilitySample>)
    requires
        single_precision(unit),
        samples.len() <= MOST_SAMPLES,
        forall|i: int|
            0 <= i < samples.len() && !(#[trigger] samples[i]).loss ==> plausible(samples[i].rtt_ms),
    ensures
        !steadiness(unit, samples).nan(),
        samples.len() >= MIN_SAMPLES && good_times(samples).len() == samples.len() && level(
            unit,
            good_times(samples),
        ) ==> steadiness(unit, samples) == Scalar::one_value(),
{
    let t = good_times(samples);
    lemma_good_times(samples);
    if samples.len() >= MIN_SAMPLES && t.len() > 0 {
        lemma_constants();
        lemma_one();
        lemma_spread(unit, t);
        lemma_slope(unit, t);
        lemma_loss(unit, samples);
        let factor = Scalar { bits: SPREAD_FACTOR_BITS };
        let full = Scalar { bits: FULL_SLOPE_BITS };
        let cv0 = product_of(unit, spread(unit, t), factor);
        let steep0 = quotient_of(unit, slope(unit, t), full);
        let even = t.len() == samples.len() && level(unit, t);
        if even {
            lemma_pow2_pos(169);
            lemma_product(unit, spread(unit, t), factor, 169, 151);
            assert(rounds(steep0, slope(unit, t).value() * pow2(149), full.value()));
            assert(0 * pow2(149) == 0);
            assert(0 * pow2(0) * full.value() == 0) by (nonlinear_arith);
            lemma_held(steep0, 0, full.value(), 0, 0);
        }
        let cv = cv0.unit_range();
        let loss = loss_share(unit, samples).unit_range();
        let steep = steep0.unit_range();
        lemma_unit(cv0);
        lemma_unit(loss_share(unit, samples));
        lemma_unit(steep0);
        let sa = Scalar { bits: SPREAD_SHARE_BITS };
        let sb = Scalar { bits: LOSS_SHARE_BITS };
        let sc = Scalar { bits: SLOPE_SHARE_BITS };
        lemma_product(unit, cv, sa, 149, 149);
        lemma_product(unit, loss, sb, 149, 149);
        lemma_product(unit, steep, sc, 149, 149);
        let a = product_of(unit, cv, sa);
        let b = product_of(unit, loss, sb);
        let c = product_of(unit, steep, sc);
        let ab = sum_of(unit, a, b);
        assert(rounds(ab, a.value() + b.value(), 1));
        lemma_held(ab, a.value() + b.value(), 1, 2, 149);
        let bad = sum_of(unit, ab, c);
        assert(rounds(bad, ab.value() + c.value(), 1));
        lemma_held(bad, ab.value() + c.value(), 1, 3, 149);
        let one = Scalar::one_value();
        let last = diff_of(unit, one, bad);
        assert(rounds(last, one.value() - bad.value(), 1));
        law_unit_range(last);
        if even {
            assert(bad.value() == 0);
            lemma_pow2_pos(149);
            lemma_held(last, pow2(149) as int, 1, 1, 149);
            assert(one.finite() && one.value() * 1 <= pow2(149));
            assert(last.value() == pow2(149));
            assert(last == one);
        }
    }
}

proof fn lemma_equal_times<F: Fn(Op) -> Scalar>(
    unit: F,
    t: Seq<Scalar>,
    time: Scalar,
    k: int,
    e: nat,
)
    requires
        single_precision(unit),
        time.finite(),
        0 <= k,
        k * t.len() <= MOST_SAMPLES,
        e <= 200,
        time.value() == k * pow2(e),
        forall|i: int| 0 <= i < t.len() ==> #[trigger] t[i] == time,
    ensures
        total_of(unit, t).finite(),
        total_of(unit, t).value() == t.len() * time.value(),
    decreases t.len(),
{
    lemma_one();
    if t.len() > 0 {
        let n = t.len() as int;
        let rest = t.drop_last();
        let v = time.value();
        assert(k * (n - 1) <= k * n) by (nonlinear_arith)
            requires
                0 <= k,
        ;
        assert forall|i: int| 0 <= i < rest.len() implies #[trigger] rest[i] == time by {
            assert(t[i] == time);
        }
        lemma_equal_times(unit, rest, time, k, e);
        assert(t[n - 1] == time);
        let r = total_of(unit, t);
        assert((n - 1) * v + v == n * v) by (nonlinear_arith);
        assert(rounds(r, n * v, 1));
        assert(0 <= k * n) by (nonlinear_arith)
            requires
                0 <= k,
                0 < n,
        ;
        let m = lemma_number(k * n, e);
        assert((k * n) * pow2(e) == n * (k * pow2(e))) by (nonlinear_arith);
        assert(m.finite() && m.value() * 1 == n * v);
        assert(r.value() == n * v);
        assert(m.value() >= 0) by {
            if m.code() > 0 {
                lemma_code_orders(0, m.code());
            }
        }
        lemma_bounded_is_finite(r, m);
    } else {
        assert(0 * time.value() == 0);
    }
}

proof fn lemma_equal_mean<F: Fn(Op) -> Scalar>(unit: F, t: Seq<Scalar>, time: Scalar)
    requires
        single_precision(unit),
        0 < t.len() <= MOST_SAMPLES,
        time.finite(),
        adds_up(time, t.len() as int),
        forall|i: int| 0 <= i < t.len() ==> #[trigger] t[i] == time,
    ensures
        mean_of(unit, t).value() == time.value(),
{
    let n = t.len() as int;
    let (k, e) = choose|k: int, e: nat|
        0 <= k && k * n <= MOST_SAMPLES && e <= 200 && #[trigger] is_scaled(time, k, e);
    lemma_equal_times(unit, t, time, k, e);
    lemma_whole(unit, n);
    let u = pow2(149) as int;
    let v = time.value();
    lemma_pow2_pos(149);
    let s = total_of(unit, t);
    let w = whole_of(unit, n);
    assert(n * u > 0) by (nonlinear_arith)
        requires
            n > 0,
            u > 0,
    ;
    assert(rounds(mean_of(unit, t), s.value() * u, w.value()));
    assert(s.value() * u == v * w.value()) by (nonlinear_arith)
        requires
            s.value() == n * v,
            w.value() == n * u,
    ;
    assert(time.finite());
}

proof fn lemma_all_alike(samples: Seq<StabilitySample>, time: Scalar)
    requires
        forall|i: int|
            0 <= i < samples.len() ==> !(#[trigger] samples[i]).loss && samples[i].rtt_ms == time,
    ensures
        good_times(samples).len() == samples.len(),
        forall|i: int|
            0 <= i < good_times(samples).len() ==> #[trigger] good_times(samples)[i] == time,
    decreases samples.len(),
{
    if samples.len() > 0 {
        let rest = samples.drop_last();
        assert forall|i: int| 0 <= i < rest.len() implies !(#[trigger] rest[i]).loss
            && rest[i].rtt_ms == time by {
            assert(samples[i] == rest[i]);
        }
        lemma_all_alike(rest, time);
        assert(samples[samples.len() - 1].rtt_ms == time);
        assert forall|i: int| 0 <= i < good_times(samples).len() implies
            #[trigger] good_times(samples)[i] == time by {
            if i < rest.len() {
                assert(good_times(samples)[i] == good_times(rest)[i]);
            }
        }
    }
}

/// Whether a route has answered every probe in the same time.
pub open spec fn answered_alike(samples: Seq<StabilitySample>, time: Scalar) -> bool {
    forall|i: int|
        0 <= i < samples.len() ==> !(#[trigger] samples[i]).loss && samples[i].rtt_ms == time
}

/// In single precision, with times of up to 2^20 milliseconds and up to 2^24
/// samples, the index of a route is a number from 0 to 1. It is one half with
/// fewer than three samples, 0 where all of at least three were lost, and 1 where
/// at least three were answered in the same time, one that adds up without
/// rounding. It rests on the samples of that route alone.
pub proof fn law_stability_index<F: Fn(Op) -> Scalar>(
    unit: F,
    h: HistoryView,
    id: Seq<char>,
    other: Seq<char>,
    sample: StabilitySample,
)
    requires
        single_precision(unit),
        h.of(id).len() <= MOST_SAMPLES,
        forall|i: int|
            0 <= i < h.of(id).len() && !(#[trigger] h.of(id)[i]).loss ==> plausible(
                h.of(id)[i].rtt_ms,
            ),
    ensures
        ({
            let index = h.index(unit, id);
            let samples = h.of(id);
            &&& !index.nan()
            &&& index.at_least(Scalar::zero_value())
            &&& Scalar::one_value().at_least(index)
            &&& samples.len() < 3 ==> index == (Scalar { bits: HALF_BITS })
            &&& samples.len() >= 3 && (forall|i: int|
                0 <= i < samples.len() ==> (#[trigger] samples[i]).loss) ==> index
                == Scalar::zero_value()
            &&& forall|time: Scalar| #[trigger]
                answered_alike(samples, time) && samples.len() >= 3 && adds_up(
                    time,
                    samples.len() as int,
                ) ==> index == Scalar::one_value()
            &&& other != id ==> h.recorded(other, sample).index(unit, id) == index
        }),
{
    let samples = h.of(id);
    lemma_index(unit, samples);
    law_index_in_range(unit, h, id);
    if other != id {
        law_index_is_per_route(unit, h, h, id, other, sample);
    }
    assert forall|time: Scalar| #[trigger]
        answered_alike(samples, time) && samples.len() >= 3 && adds_up(
            time,
            samples.len() as int,
        ) implies h.index(unit, id) == Scalar::one_value() by {
        let t = good_times(samples);
        lemma_all_alike(samples, time);
        assert(samples[0].rtt_ms == time && !samples[0].loss);
        lemma_plausible(time);
        lemma_equal_mean(unit, t, time);
        assert forall|i: int| 0 <= i < t.len() implies (#[trigger] t[i]).value() == mean_of(
            unit,
            t,
        ).value() by {
            assert(t[i] == time);
        }
        assert(level(unit, t));
    }
}

/// Every whole number of milliseconds adds up, as long as the sum has at most 24
/// bits.
pub proof fn law_whole_times_add_up(time: Scalar, k: int, n: int)
    requires
        0 <= k,
        k * n <= MOST_SAMPLES,
        time.value() == k * pow2(149),
    ensures
        adds_up(time, n),
{
    assert(is_scaled(time, k, 149));
}

} // verus!
