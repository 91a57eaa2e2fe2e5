//! Arithmetic on scalars, done by a unit that the caller supplies.

use crate::scalar::{Scalar, ZERO_BITS};
use vstd::arithmetic::power2::pow2;
use vstd::prelude::*;

verus! {

/// One operation of single-precision arithmetic.
#[derive(Debug, Clone, Copy, PartialEq, Eq, Structural)]
pub enum Op {
    /// The sum of two scalars.
    Plus(Scalar, Scalar),
    /// The difference of two scalars.
    Minus(Scalar, Scalar),
    /// The product of two scalars.
    Times(Scalar, Scalar),
    /// The quotient of two scalars.
    Over(Scalar, Scalar),
    /// The square root of a scalar.
    Root(Scalar),
    /// A whole number as a scalar.
    Whole(u64),
}

/// Whether a unit takes every operation and always gives the same result for
/// the same one.
pub open spec fn dependable<F: Fn(Op) -> Scalar>(unit: F) -> bool {
    &&& forall|op: Op| #[trigger] call_requires(unit, (op,))
    &&& forall|op: Op, a: Scalar, b: Scalar| #[trigger]
        call_ensures(unit, (op,), a) && #[trigger] call_ensures(unit, (op,), b) ==> a == b
}

/// The result that a unit gives for an operation.
pub open spec fn result<F: Fn(Op) -> Scalar>(unit: F, op: Op) -> Scalar {
    choose|r: Scalar| call_ensures(unit, (op,), r)
}

/// Has a unit do one operation.
pub fn compute<F: Fn(Op) -> Scalar>(unit: &F, op: Op) -> (r: Scalar)
    requires
        dependable(*unit),
    ensures
        r == result(*unit, op),
{
    let r = unit(op);
    r
}

/// The sum that a unit gives.
pub open spec fn sum_of<F: Fn(Op) -> Scalar>(unit: F, a: Scalar, b: Scalar) -> Scalar {
    result(unit, Op::Plus(a, b))
}

/// The difference that a unit gives.
pub open spec fn diff_of<F: Fn(Op) -> Scalar>(unit: F, a: Scalar, b: Scalar) -> Scalar {
    result(unit, Op::Minus(a, b))
}

/// The product that a unit gives.
pub open spec fn product_of<F: Fn(Op) -> Scalar>(unit: F, a: Scalar, b: Scalar) -> Scalar {
    result(unit, Op::Times(a, b))
}

/// The quotient that a unit gives.
pub open spec fn quotient_of<F: Fn(Op) -> Scalar>(unit: F, a: Scalar, b: Scalar) -> Scalar {
    result(unit, Op::Over(a, b))
}

/// The scalar that a unit gives for a whole number.
pub open spec fn whole_of<F: Fn(Op) -> Scalar>(unit: F, n: int) -> Scalar {
    result(unit, Op::Whole(n as u64))
}

/// The sum of a list, from the front.
pub open spec fn total_of<F: Fn(Op) -> Scalar>(unit: F, s: Seq<Scalar>) -> Scalar
    decreases s.len(),
{
    if s.len() == 0 {
        Scalar::zero_value()
    } else {
        sum_of(unit, total_of(unit, s.drop_last()), s.last())
    }
}

/// The mean of a list.
pub open spec fn mean_of<F: Fn(Op) -> Scalar>(unit: F, s: Seq<Scalar>) -> Scalar {
    quotient_of(unit, total_of(unit, s), whole_of(unit, s.len() as int))
}

/// The sum of two scalars.
pub fn sum<F: Fn(Op) -> Scalar>(unit: &F, a: Scalar, b: Scalar) -> (r: Scalar)
    requires
        dependable(*unit),
    ensures
        r == sum_of(*unit, a, b),
{
    compute(unit, Op::Plus(a, b))
}

/// The difference of two scalars.
pub fn diff<F: Fn(Op) -> Scalar>(unit: &F, a: Scalar, b: Scalar) -> (r: Scalar)
    requires
        dependable(*unit),
    ensures
        r == diff_of(*unit, a, b),
{
    compute(unit, Op::Minus(a, b))
}

/// The product of two scalars.
pub fn product<F: Fn(Op) -> Scalar>(unit: &F, a: Scalar, b: Scalar) -> (r: Scalar)
    requires
        dependable(*unit),
    ensures
        r == product_of(*unit, a, b),
{
    compute(unit, Op::Times(a, b))
}

/// The quotient of two scalars.
pub fn quotient<F: Fn(Op) -> Scalar>(unit: &F, a: Scalar, b: Scalar) -> (r: Scalar)
    requires
        dependable(*unit),
    ensures
        r == quotient_of(*unit, a, b),
{
    compute(unit, Op::Over(a, b))
}

/// A count as a scalar.
pub fn whole<F: Fn(Op) -> Scalar>(unit: &F, n: usize) -> (r: Scalar)
    requires
        dependable(*unit),
    ensures
        r == whole_of(*unit, n as int),
{
    compute(unit, Op::Whole(n as u64))
}

/// The sum of a list, from the front.
pub fn total<F: Fn(Op) -> Scalar>(unit: &F, s: &Vec<Scalar>) -> (r: Scalar)
    requires
        dependable(*unit),
    ensures
        r == total_of(*unit, s@),
{
    let mut acc = Scalar { bits: ZERO_BITS };
    let mut i: usize = 0;
    while i < s.len()
        invariant
            dependable(*unit),
            i <= s@.len(),
            acc == total_of(*unit, s@.take(i as int)),
        decreases s@.len() - i,
    {
        assert(s@.take(i as int + 1).drop_last() =~= s@.take(i as int));
        assert(s@.take(i as int + 1).last() == s@[i as int]);
        acc = sum(unit, acc, s[i]);
        i = i + 1;
    }
    assert(s@.take(i as int) =~= s@);
    acc
}

/// The mean of a list.
pub fn mean<F: Fn(Op) -> Scalar>(unit: &F, s: &Vec<Scalar>) -> (r: Scalar)
    requires
        dependable(*unit),
    ensures
        r == mean_of(*unit, s@),
{
    quotient(unit, total(unit, s), whole(unit, s.len()))
}

/// Whether a number is what the quotient of two integers is rounded to, in units
/// of 2^-149: it lies on the same side of every finite number as the quotient
/// does.
pub open spec fn rounds(r: Scalar, num: int, den: int) -> bool {
    &&& !r.nan()
    &&& forall|m: Scalar| #[trigger]
        m.finite() ==> {
            &&& num <= m.value() * den ==> r.value() <= m.value()
            &&& m.value() * den <= num ==> m.value() <= r.value()
        }
}

/// Whether a number is what the square root of another is rounded to.
pub open spec fn rounds_root(r: Scalar, x: Scalar) -> bool {
    &&& !r.nan()
    &&& forall|m: Scalar| #[trigger]
        m.finite() && m.value() >= 0 ==> {
            &&& x.value() * pow2(149) <= m.value() * m.value() ==> r.value() <= m.value()
            &&& m.value() * m.value() <= x.value() * pow2(149) ==> m.value() <= r.value()
        }
}

/// Whether a unit divides in order: of numbers that are not negative, the larger
/// one divided by the smaller one does not come out below the other quotient.
/// Rounding keeps this.
pub open spec fn divides_in_order<F: Fn(Op) -> Scalar>(unit: F) -> bool {
    forall|a: Scalar, b: Scalar, c: Scalar, d: Scalar|
        !a.nan() && !c.nan() && 0 <= a.value() <= c.value() && b.finite() && d.finite() && 0
            < d.value() <= b.value() ==> {
            let low = #[trigger] result(unit, Op::Over(a, b));
            let high = #[trigger] result(unit, Op::Over(c, d));
            !low.nan() && !high.nan() && low.value() <= high.value()
        }
}

/// Whether a unit computes in single precision: every result is the exact one,
/// rounded. Of infinite operands only that a product with a number other than 0,
/// and a quotient by a number above 0, is a number.
pub open spec fn single_precision<F: Fn(Op) -> Scalar>(unit: F) -> bool {
    &&& forall|a: Scalar, b: Scalar|
        a.finite() && b.finite() ==> rounds(
            #[trigger] result(unit, Op::Plus(a, b)),
            a.value() + b.value(),
            1,
        )
    &&& forall|a: Scalar, b: Scalar|
        a.finite() && b.finite() ==> rounds(
            #[trigger] result(unit, Op::Minus(a, b)),
            a.value() - b.value(),
            1,
        )
    &&& forall|a: Scalar, b: Scalar|
        a.finite() && b.finite() ==> rounds(
            #[trigger] result(unit, Op::Times(a, b)),
            a.value() * b.value(),
            pow2(149) as int,
        )
    &&& forall|a: Scalar, b: Scalar|
        !a.nan() && b.finite() && b.value() != 0 ==> !(#[trigger] result(unit, Op::Times(a, b))).nan()
    &&& forall|a: Scalar, b: Scalar|
        a.finite() && b.finite() && b.value() > 0 ==> rounds(
            #[trigger] result(unit, Op::Over(a, b)),
            a.value() * pow2(149),
            b.value(),
        )
    &&& forall|a: Scalar, b: Scalar|
        !a.nan() && b.finite() && b.value() > 0 ==> !(#[trigger] result(unit, Op::Over(a, b))).nan()
    &&& forall|a: Scalar|
        a.finite() && a.value() >= 0 ==> rounds_root(#[trigger] result(unit, Op::Root(a)), a)
    &&& forall|n: int|
        0 <= n <= u64::MAX ==> rounds(
            #[trigger] result(unit, Op::Whole(n as u64)),
            n * pow2(149),
            1,
        )
}

} // verus!
