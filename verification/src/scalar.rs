//! Single-precision quantities, carried by their IEEE 754 bit pattern.
//!
//! Scores, round-trip times, margins and weights are measured in single
//! precision. The library holds their bit patterns and compares them by integer
//! arithmetic; sums, products and the like are done by an arithmetic unit that
//! the caller supplies.

use vstd::arithmetic::div_mod::{
    lemma_basic_div, lemma_div_by_multiple, lemma_div_denominator, lemma_div_is_ordered,
};
use vstd::arithmetic::power2::{
    lemma2_to64, lemma_pow2_adds, lemma_pow2_pos, lemma_pow2_strictly_increases, pow2,
};
use vstd::prelude::*;

verus! {

/// A single-precision number. `bits` is its IEEE 754 binary32 encoding.
#[derive(Debug, Clone, Copy, PartialEq, Eq, Structural)]
pub struct Scalar {
    pub bits: u32,
}

impl View for Scalar {
    type V = Scalar;

    open spec fn view(&self) -> Scalar {
        *self
    }
}

/// 2^23: the number of fraction codes per exponent.
pub const FRACTION_CODES: u32 = 0x0080_0000;

/// 2^31: the sign bit.
pub const SIGN_BIT: u32 = 0x8000_0000;

/// The encoding of 0.0.
pub const ZERO_BITS: u32 = 0x0000_0000;

/// The encoding of 0.5.
pub const HALF_BITS: u32 = 0x3f00_0000;

/// The encoding of 1.0.
pub const ONE_BITS: u32 = 0x3f80_0000;

/// The encoding of positive infinity.
pub const INFINITY_BITS: u32 = 0x7f80_0000;

/// The magnitude that a code below the sign bit stands for, in units of 2^-149.
/// The code of infinity comes out above that of every finite number.
pub open spec fn code_magnitude(code: int) -> int {
    let exponent = code / 0x80_0000;
    let fraction = code % 0x80_0000;
    if exponent == 0 {
        fraction
    } else {
        (0x80_0000 + fraction) * pow2((exponent - 1) as nat)
    }
}

impl Scalar {
    /// Whether the sign bit is set.
    pub open spec fn negative(self) -> bool {
        self.bits >= 0x8000_0000
    }

    /// The encoding without its sign bit.
    pub open spec fn code(self) -> int {
        if self.negative() {
            self.bits - 0x8000_0000
        } else {
            self.bits as int
        }
    }

    /// Whether this is not a number.
    pub open spec fn nan(self) -> bool {
        self.code() > 0x7f80_0000
    }

    /// The number itself, in units of 2^-149, of which every finite
    /// single-precision number is a whole multiple.
    pub open spec fn value(self) -> int {
        if self.negative() {
            -code_magnitude(self.code())
        } else {
            code_magnitude(self.code())
        }
    }

    /// `self < other`: false as soon as one side is not a number.
    pub open spec fn less(self, other: Scalar) -> bool {
        !self.nan() && !other.nan() && self.value() < other.value()
    }

    /// `self >= other`: false as soon as one side is not a number.
    pub open spec fn at_least(self, other: Scalar) -> bool {
        !self.nan() && !other.nan() && self.value() >= other.value()
    }

    /// Whether this is not a number, as a test at run time.
    pub fn is_nan(&self) -> (r: bool)
        ensures
            r == self.nan(),
    {
        if self.bits >= SIGN_BIT {
            self.bits - SIGN_BIT > INFINITY_BITS
        } else {
            self.bits > INFINITY_BITS
        }
    }

    /// Whether this is infinity of either sign.
    pub fn is_infinite(&self) -> (r: bool)
        ensures
            r == (self.code() == 0x7f80_0000),
    {
        if self.bits >= SIGN_BIT {
            self.bits - SIGN_BIT == INFINITY_BITS
        } else {
            self.bits == INFINITY_BITS
        }
    }

    /// `self < other`.
    pub fn lt(&self, other: &Scalar) -> (r: bool)
        ensures
            r == self.less(*other),
    {
        if self.is_nan() || other.is_nan() {
            return false;
        }
        proof {
            lemma_rank_orders(*self, *other);
        }
        self.rank() < other.rank()
    }

    /// `self >= other`.
    pub fn ge(&self, other: &Scalar) -> (r: bool)
        ensures
            r == self.at_least(*other),
    {
        if self.is_nan() || other.is_nan() {
            return false;
        }
        proof {
            lemma_rank_orders(*self, *other);
        }
        self.rank() >= other.rank()
    }

    /// `self > other`.
    pub fn gt(&self, other: &Scalar) -> (r: bool)
        ensures
            r == other.less(*self),
    {
        other.lt(self)
    }

    /// The larger of two numbers; a number wins over what is not one.
    pub open spec fn larger(self, other: Scalar) -> Scalar {
        if self.nan() || self.less(other) {
            other
        } else {
            self
        }
    }

    /// The larger of two numbers; a number wins over what is not one.
    pub fn max(&self, other: &Scalar) -> (r: Scalar)
        ensures
            r == self.larger(*other),
    {
        if self.is_nan() || self.lt(other) {
            *other
        } else {
            *self
        }
    }

    /// Whether this is 0 of either sign.
    pub open spec fn is_zero(self) -> bool {
        self.code() == 0
    }

    /// Whether this is a number other than infinity.
    pub open spec fn finite(self) -> bool {
        self.code() < 0x7f80_0000
    }

    /// The number without its sign.
    pub open spec fn magnitude(self) -> Scalar {
        Scalar { bits: self.code() as u32 }
    }

    /// The number without its sign.
    pub fn abs(&self) -> (r: Scalar)
        ensures
            r == self.magnitude(),
    {
        if self.bits >= SIGN_BIT {
            Scalar { bits: self.bits - SIGN_BIT }
        } else {
            *self
        }
    }

    /// The number itself, or the bound that it lies beyond.
    pub open spec fn within(self, low: Scalar, high: Scalar) -> Scalar {
        if self.less(low) {
            low
        } else if high.less(self) {
            high
        } else {
            self
        }
    }

    /// The number itself, or the bound that it lies beyond.
    pub fn clamp(&self, low: Scalar, high: Scalar) -> (r: Scalar)
        ensures
            r == self.within(low, high),
    {
        if self.lt(&low) {
            low
        } else if self.gt(&high) {
            high
        } else {
            *self
        }
    }

    /// The number 0.
    pub open spec fn zero_value() -> Scalar {
        Scalar { bits: ZERO_BITS }
    }

    /// The number 1.
    pub open spec fn one_value() -> Scalar {
        Scalar { bits: ONE_BITS }
    }

    /// The number held to the range from 0 to 1.
    pub open spec fn unit_range(self) -> Scalar {
        self.within(Self::zero_value(), Self::one_value())
    }

    /// The number held to the range from 0 to 1.
    pub fn clamp_unit(&self) -> (r: Scalar)
        ensures
            r == self.unit_range(),
    {
        self.clamp(Scalar { bits: ZERO_BITS }, Scalar { bits: ONE_BITS })
    }

    /// The whole part of the number, held to what 64 bits can carry; nothing for
    /// what is negative or no number.
    pub open spec fn whole_part(self) -> int {
        let whole = self.value() / pow2(149) as int;
        if self.nan() || self.negative() {
            0
        } else if whole > u64::MAX {
            u64::MAX as int
        } else {
            whole
        }
    }

    /// The whole part of the number, as a 64-bit integer.
    pub fn to_u64(&self) -> (r: u64)
        ensures
            r == self.whole_part(),
    {
        if self.bits >= SIGN_BIT || self.bits > INFINITY_BITS {
            return 0;
        }
        let exponent: u32 = self.bits / FRACTION_CODES;
        let fraction: u32 = self.bits % FRACTION_CODES;
        if exponent < 127 {
            proof {
                lemma_below_one(self.bits as int);
            }
            return 0;
        }
        let m: u64 = (FRACTION_CODES + fraction) as u64;
        if exponent > 190 {
            proof {
                lemma_beyond_64_bits(self.bits as int);
            }
            return u64::MAX;
        }
        proof {
            lemma_whole(m as int, exponent as int);
        }
        if exponent <= 150 {
            let n: u32 = 150 - exponent;
            let mut out: u64 = m;
            let mut k: u32 = 0;
            proof {
                lemma_pow2_small();
            }
            while k < n
                invariant
                    k <= n,
                    out as int == m as int / pow2(k as nat) as int,
                decreases n - k,
            {
                proof {
                    lemma_pow2_pos(k as nat);
                    lemma_pow2_adds(k as nat, 1);
                    lemma_pow2_small();
                    lemma_div_denominator(m as int, pow2(k as nat) as int, 2);
                }
                out = out / 2;
                k = k + 1;
            }
            out
        } else {
            let n: u32 = exponent - 150;
            let mut out: u64 = m;
            let mut k: u32 = 0;
            proof {
                lemma_pow2_small();
            }
            while k < n
                invariant
                    k <= n <= 40,
                    m < 0x100_0000,
                    out == m * pow2(k as nat),
                decreases n - k,
            {
                proof {
                    lemma_pow2_adds(k as nat, 1);
                    lemma_pow2_small();
                    lemma_shifted_fits(m as int, k as nat);
                    let p = pow2(k as nat) as int;
                    assert(m * p * 2 == m * (p * 2)) by (nonlinear_arith);
                }
                out = out * 2;
                k = k + 1;
            }
            out
        }
    }

    /// The integer by which two numbers compare.
    pub closed spec fn rank_of(self) -> int {
        if self.negative() {
            -self.code()
        } else {
            self.code()
        }
    }

    fn rank(&self) -> (r: i64)
        ensures
            r == self.rank_of(),
    {
        if self.bits >= SIGN_BIT {
            -((self.bits - SIGN_BIT) as i64)
        } else {
            self.bits as i64
        }
    }
}

proof fn lemma_pow2_small()
    ensures
        pow2(0) == 1,
        pow2(1) == 2,
        pow2(23) == 0x80_0000,
        pow2(24) == 0x100_0000,
        pow2(40) == 0x100_0000_0000,
        pow2(64) == 0x1_0000_0000_0000_0000,
{
    lemma2_to64();
    lemma_pow2_adds(24, 16);
}

/// A code of an exponent below 127 stands for less than one.
proof fn lemma_below_one(code: int)
    requires
        0 <= code < 127 * 0x80_0000,
    ensures
        code_magnitude(code) / pow2(149) as int == 0,
{
    let one: int = 127 * 0x80_0000int;
    lemma_code_orders(code, one);
    lemma_pow2_adds(23, 126);
    lemma_pow2_small();
    assert(code_magnitude(one) == pow2(149));
    lemma_basic_div(code_magnitude(code), pow2(149) as int);
}

/// A code of an exponent above 190 stands for more than 64 bits can carry.
proof fn lemma_beyond_64_bits(code: int)
    requires
        191 * 0x80_0000 <= code <= 0x7f80_0000,
    ensures
        code_magnitude(code) / pow2(149) as int > u64::MAX,
{
    let base: int = 191 * 0x80_0000int;
    if base < code {
        lemma_code_orders(base, code);
    }
    lemma_pow2_small();
    lemma_pow2_adds(23, 190);
    lemma_pow2_adds(64, 149);
    lemma_pow2_pos(149);
    assert(code_magnitude(base) == pow2(213));
    lemma_div_by_multiple(pow2(64) as int, pow2(149) as int);
    lemma_div_is_ordered(code_magnitude(base), code_magnitude(code), pow2(149) as int);
}

/// The whole part by exponent.
proof fn lemma_whole(m: int, e: int)
    requires
        0 <= m,
        127 <= e <= 190,
    ensures
        e <= 150 ==> m * pow2((e - 1) as nat) / pow2(149) as int == m / pow2((150 - e) as nat) as int,
        e > 150 ==> m * pow2((e - 1) as nat) / pow2(149) as int == m * pow2((e - 150) as nat),
{
    if e <= 150 {
        let p = pow2((e - 1) as nat) as int;
        let q = pow2((150 - e) as nat) as int;
        lemma_pow2_pos((e - 1) as nat);
        lemma_pow2_pos((150 - e) as nat);
        lemma_pow2_adds((e - 1) as nat, (150 - e) as nat);
        assert(0 <= m * p) by (nonlinear_arith)
            requires
                0 <= m,
                0 < p,
        ;
        lemma_div_denominator(m * p, p, q);
        lemma_div_by_multiple(m, p);
    } else {
        let p = pow2((e - 150) as nat) as int;
        let q = pow2(149) as int;
        lemma_pow2_pos(149);
        lemma_pow2_adds((e - 150) as nat, 149);
        assert(m * (p * q) == (m * p) * q) by (nonlinear_arith);
        lemma_div_by_multiple(m * p, q);
    }
}

/// Shifting 24 bits by less than 40 places leaves room for one more.
proof fn lemma_shifted_fits(m: int, k: nat)
    requires
        0 <= m < 0x100_0000,
        k < 40,
    ensures
        m * pow2(k) * 2 <= u64::MAX,
{
    lemma_pow2_small();
    lemma_pow2_pos(k);
    lemma_pow2_adds(k, 1);
    if k + 1 < 40 {
        lemma_pow2_strictly_increases(k + 1, 40);
    }
    let p = pow2(k) as int;
    assert(2 * p <= 0x100_0000_0000);
    assert(m * p * 2 < 0x1_0000_0000_0000_0000) by (nonlinear_arith)
        requires
            0 <= m < 0x100_0000,
            0 < p,
            2 * p <= 0x100_0000_0000,
    ;
}

/// Two codes compare as the magnitudes they stand for.
pub proof fn lemma_code_orders(a: int, b: int)
    requires
        0 <= a < b <= 0x7f80_0000,
    ensures
        0 <= code_magnitude(a) < code_magnitude(b),
{
    let ea = a / 0x80_0000;
    let eb = b / 0x80_0000;
    let fa = a % 0x80_0000;
    let fb = b % 0x80_0000;
    if ea > 0 {
        lemma_pow2_pos((ea - 1) as nat);
        let p = pow2((ea - 1) as nat) as int;
        assert((0x80_0000 + fa) * p >= 0) by (nonlinear_arith)
            requires
                fa >= 0,
                p > 0,
        ;
    }
    if ea == eb {
        if ea > 0 {
            let p = pow2((ea - 1) as nat) as int;
            assert((0x80_0000 + fa) * p < (0x80_0000 + fb) * p) by (nonlinear_arith)
                requires
                    fa < fb,
                    p > 0,
            ;
        }
    } else {
        lemma_pow2_pos((eb - 1) as nat);
        let q = pow2((eb - 1) as nat) as int;
        assert((0x80_0000 + fb) * q >= 0x80_0000 * q) by (nonlinear_arith)
            requires
                fb >= 0,
                q > 0,
        ;
        if ea > 0 {
            let p = pow2((ea - 1) as nat) as int;
            lemma_pow2_adds((ea - 1) as nat, 1);
            lemma_pow2_small();
            assert(pow2(ea as nat) == 2 * p);
            if ea < eb - 1 {
                lemma_pow2_strictly_increases(ea as nat, (eb - 1) as nat);
            }
            assert((0x80_0000 + fa) * p < 0x100_0000 * p) by (nonlinear_arith)
                requires
                    fa < 0x80_0000,
                    p > 0,
            ;
        }
    }
}

/// `rank_of` orders numbers as their values do.
proof fn lemma_rank_orders(x: Scalar, y: Scalar)
    requires
        !x.nan(),
        !y.nan(),
    ensures
        (x.rank_of() < y.rank_of()) == (x.value() < y.value()),
        (x.rank_of() >= y.rank_of()) == (x.value() >= y.value()),
{
    let a = x.code();
    let b = y.code();
    assert(code_magnitude(0) == 0);
    if a > 0 {
        lemma_code_orders(0, a);
    }
    if b > 0 {
        lemma_code_orders(0, b);
    }
    if a < b {
        lemma_code_orders(a, b);
    }
    if b < a {
        lemma_code_orders(b, a);
    }
}

/// A number that is held to the unit range lies from 0 to 1; what is no number
/// stays none.
pub proof fn law_unit_range(x: Scalar)
    ensures
        x.unit_range().nan() == x.nan(),
        !x.nan() ==> x.unit_range().at_least(Scalar::zero_value()) && Scalar::one_value().at_least(
            x.unit_range(),
        ),
{
    assert(code_magnitude(0) == 0);
    lemma_code_orders(0, ONE_BITS as int);
}

/// Whole numbers of up to 24 bits, times a power of two, are single-precision
/// numbers.
pub proof fn lemma_number(k: int, e: nat) -> (m: Scalar)
    requires
        0 <= k <= 0x100_0000,
        e <= 240,
    ensures
        m.finite(),
        !m.negative(),
        m.value() == k * pow2(e),
    decreases e,
{
    lemma_pow2_small();
    lemma_pow2_adds(e, 1);
    if k == 0x100_0000 {
        let code = (e + 2) * 0x80_0000;
        assert(code / 0x80_0000 == e + 2 && code % 0x80_0000 == 0);
        Scalar { bits: code as u32 }
    } else if k >= 0x80_0000 {
        let code = (e + 1) * 0x80_0000 + (k - 0x80_0000);
        assert(code / 0x80_0000 == e + 1 && code % 0x80_0000 == k - 0x80_0000);
        Scalar { bits: code as u32 }
    } else if e == 0 {
        assert(k / 0x80_0000 == 0 && k % 0x80_0000 == k);
        Scalar { bits: k as u32 }
    } else {
        let m = lemma_number(2 * k, (e - 1) as nat);
        lemma_pow2_adds((e - 1) as nat, 1);
        let p = pow2((e - 1) as nat) as int;
        assert((2 * k) * p == k * (p * 2)) by (nonlinear_arith);
        m
    }
}

/// The number with the other sign.
pub proof fn lemma_opposite(m: Scalar) -> (r: Scalar)
    requires
        m.finite(),
        !m.negative(),
    ensures
        r.finite(),
        r.value() == -m.value(),
{
    Scalar { bits: (m.bits + 0x8000_0000) as u32 }
}

/// A number between two finite ones is finite.
pub proof fn lemma_bounded_is_finite(x: Scalar, m: Scalar)
    requires
        !x.nan(),
        m.finite(),
        !m.negative(),
        -m.value() <= x.value() <= m.value(),
    ensures
        x.finite(),
{
    if !x.finite() {
        lemma_code_orders(m.code(), 0x7f80_0000);
    }
}

/// The whole part of a number fits 64 bits.
pub proof fn lemma_whole_part(x: Scalar)
    ensures
        0 <= x.whole_part() <= u64::MAX,
{
    lemma_pow2_pos(149);
    if !x.nan() && !x.negative() {
        let c = x.code();
        if c > 0 {
            lemma_code_orders(0, c);
        }
        assert(code_magnitude(0) == 0);
        lemma_div_is_ordered(0, x.value(), pow2(149) as int);
        lemma_basic_div(0, pow2(149) as int);
    }
}

/// The value of 1, and that only 1 has it.
pub proof fn lemma_one()
    ensures
        Scalar::one_value().finite(),
        Scalar::one_value().value() == pow2(149),
        Scalar::zero_value().finite(),
        Scalar::zero_value().value() == 0,
        forall|x: Scalar|
            x.finite() && #[trigger] x.value() == pow2(149) ==> x == Scalar::one_value(),
{
    let one = Scalar::one_value();
    lemma_pow2_small();
    lemma_pow2_adds(23, 126);
    lemma_pow2_pos(149);
    assert(one.value() == pow2(149));
    assert(code_magnitude(0) == 0);
    assert forall|x: Scalar| x.finite() && #[trigger] x.value() == pow2(149) implies x == one by {
        let c = x.code();
        if c > 0 {
            lemma_code_orders(0, c);
        }
        assert(!x.negative());
        if c < one.code() {
            lemma_code_orders(c, one.code());
        }
        if one.code() < c {
            lemma_code_orders(one.code(), c);
        }
    }
}

} // verus!
