//! What the arithmetic of numbers keeps: their order, and the results that need no rounding.

use crate::float;
use crate::float::Float64;
use crate::rounding;
use vstd::arithmetic::power2::*;
use vstd::prelude::*;

verus! {

/// The place in the order of the number nearest to so many units.
pub open spec fn nearest_key(v: int) -> int {
    let top = float::INFINITY_BITS as nat;
    if v < 0 {
        -rounding::nearest((-v) as nat, 1, 52, top)
    } else {
        rounding::nearest(v as nat, 1, 52, top) as int
    }
}

/// The place in the order of the number nearest to a ratio of units.
pub open spec fn ratio_key(n: nat, d: nat) -> nat {
    rounding::nearest(n, d, 52, float::INFINITY_BITS as nat)
}

/// The pattern of infinity.
pub proof fn lemma_top()
    ensures
        pow2(52) == 0x10_0000_0000_0000,
        float::INFINITY_BITS as nat / pow2(52) >= 2,
        float::INFINITY_BITS as nat % pow2(52) == 0,
{
    lemma2_to64();
    lemma2_to64_rest();
    assert(0x7ff0_0000_0000_0000nat / 0x10_0000_0000_0000nat == 0x7ff);
    assert(0x7ff0_0000_0000_0000nat % 0x10_0000_0000_0000nat == 0);
}

/// Zero has no units, and every other number has some.
pub proof fn lemma_zero_units(x: Float64)
    ensures
        x.zero() ==> x.units() == 0,
        !x.zero() ==> x.units() > 0,
        rounding::units(0, 52) == 0,
{
    lemma_top();
    assert(rounding::units(0, 52) == 0) by {
        assert(0nat / pow2(52) == 0);
        assert(0 * pow2(52) == 0) by (nonlinear_arith);
        assert(0 * pow2(0) == 0) by (nonlinear_arith);
    }
    if !x.zero() {
        rounding::lemma_units_increase(0, x.magnitude(), 52);
    }
}

/// Zero has the value zero.
pub proof fn lemma_zero_value(x: Float64)
    requires
        x.zero(),
    ensures
        x.value() == 0,
{
    lemma_zero_units(x);
}

/// The order of numbers is that of their values.
pub proof fn lemma_order(a: Float64, b: Float64)
    requires
        a.finite(),
        b.finite(),
    ensures
        float::less(a, b) <==> a.value() < b.value(),
        a.key() <= b.key() <==> a.value() <= b.value(),
        a.key() == b.key() <==> a.value() == b.value(),
{
    let m = a.magnitude();
    let n = b.magnitude();
    lemma_zero_units(a);
    lemma_zero_units(b);
    if m < n {
        rounding::lemma_units_increase(m, n, 52);
    } else if n < m {
        rounding::lemma_units_increase(n, m, 52);
    }
}

/// A magnitude and a sign make the number that has them.
pub proof fn lemma_signed(negative: bool, magnitude: nat)
    requires
        magnitude <= float::INFINITY_BITS,
    ensures
        float::signed(negative, magnitude).magnitude() == magnitude,
        float::signed(negative, magnitude).negative() == negative,
        !float::signed(negative, magnitude).nan(),
        float::signed(negative, magnitude).key() == if negative {
            -magnitude
        } else {
            magnitude as int
        },
{
}

/// A sum is the number nearest to the sum of the values.
pub proof fn lemma_sum_key(a: Float64, b: Float64)
    requires
        a.finite(),
        b.finite(),
    ensures
        !float::sum(a, b).nan(),
        float::sum(a, b).key() == nearest_key(a.value() + b.value()),
{
    let v = a.value() + b.value();
    let top = float::INFINITY_BITS as nat;
    if v < 0 {
        lemma_signed(true, rounding::nearest((-v) as nat, 1, 52, top));
    } else if v > 0 {
        lemma_signed(false, rounding::nearest(v as nat, 1, 52, top));
    } else {
        lemma_signed(a.negative() && b.negative(), 0);
        lemma_nearest_key_exact(Float64 { bits: 0 });
        lemma_zero_units(Float64 { bits: 0 });
    }
}

/// The number nearest to the value of a number is that number.
pub proof fn lemma_nearest_key_exact(x: Float64)
    requires
        x.finite(),
    ensures
        nearest_key(x.value()) == x.key(),
{
    float::lemma_nearest_exact(x.magnitude(), 1);
    assert(x.units() * 1 == x.units());
    lemma_zero_units(x);
}

/// Rounding keeps the order.
pub proof fn lemma_nearest_key_monotone(v: int, w: int)
    requires
        v <= w,
    ensures
        nearest_key(v) <= nearest_key(w),
{
    lemma_top();
    let top = float::INFINITY_BITS as nat;
    if v < 0 && w < 0 {
        rounding::lemma_nearest_monotone((-w) as nat, 1, (-v) as nat, 1, 52, top);
    } else if v >= 0 {
        rounding::lemma_nearest_monotone(v as nat, 1, w as nat, 1, 52, top);
    }
}

/// Adding the same number to two keeps their order.
pub proof fn lemma_sum_monotone(a: Float64, b: Float64, c: Float64)
    requires
        a.finite(),
        b.finite(),
        c.finite(),
        a.key() <= b.key(),
    ensures
        float::sum(a, c).key() <= float::sum(b, c).key(),
        float::sum(c, a).key() <= float::sum(c, b).key(),
{
    lemma_order(a, b);
    lemma_sum_key(a, c);
    lemma_sum_key(b, c);
    lemma_sum_key(c, a);
    lemma_sum_key(c, b);
    lemma_nearest_key_monotone(a.value() + c.value(), b.value() + c.value());
}

/// The other sign.
pub proof fn lemma_negated(x: Float64)
    requires
        !x.nan(),
    ensures
        !float::negated(x).nan(),
        float::negated(x).key() == -x.key(),
        float::negated(x).value() == -x.value(),
        float::negated(x).finite() == x.finite(),
        float::negated(x).magnitude() == x.magnitude(),
        float::negated(x).negative() == !x.negative(),
{
    lemma_signed(!x.negative(), x.magnitude());
}

/// A difference is the number nearest to the difference of the values.
pub proof fn lemma_difference_key(a: Float64, b: Float64)
    requires
        a.finite(),
        b.finite(),
    ensures
        !float::difference(a, b).nan(),
        float::difference(a, b).key() == nearest_key(a.value() - b.value()),
{
    lemma_negated(b);
    lemma_sum_key(a, float::negated(b));
}

/// A product of two numbers that are not negative is the number nearest to the product of the
/// values.
pub proof fn lemma_product_key(a: Float64, b: Float64)
    requires
        a.finite(),
        b.finite(),
        a.key() >= 0,
        b.key() >= 0,
    ensures
        !float::product(a, b).nan(),
        float::product(a, b).key() == ratio_key(a.units() * b.units(), float::one_in_units()),
{
    lemma_zero_units(a);
    lemma_zero_units(b);
    let one = float::one_in_units();
    let n = a.units() * b.units();
    lemma_signed(a.negative() != b.negative(), ratio_key(n, one));
    lemma_pow2_pos(1074);
    if a.negative() || b.negative() {
        assert(n == 0) by (nonlinear_arith)
            requires
                a.units() == 0 || b.units() == 0,
                n == a.units() * b.units(),
        ;
        lemma_ratio_zero(one);
    }
}

/// A quotient of a number that is not negative and a positive one is the number nearest to the
/// quotient of the values.
pub proof fn lemma_quotient_key(a: Float64, b: Float64)
    requires
        a.finite(),
        b.finite(),
        a.key() >= 0,
        b.key() > 0,
    ensures
        b.units() > 0,
        !float::quotient(a, b).nan(),
        float::quotient(a, b).key() == ratio_key(a.units() * float::one_in_units(), b.units()),
{
    lemma_zero_units(a);
    lemma_zero_units(b);
    let one = float::one_in_units();
    let n = a.units() * one;
    lemma_signed(a.negative() != b.negative(), ratio_key(n, b.units()));
    if a.negative() {
        assert(n == 0) by (nonlinear_arith)
            requires
                a.units() == 0,
                n == a.units() * one,
        ;
        lemma_ratio_zero(b.units());
    }
}

/// Nothing, shared out, is nothing.
pub proof fn lemma_ratio_zero(d: nat)
    requires
        d > 0,
    ensures
        ratio_key(0, d) == 0,
{
    lemma_zero_units(Float64 { bits: 0 });
    float::lemma_nearest_exact(0, d);
    assert(0 * d == 0) by (nonlinear_arith);
}

/// One has as many units as one has.
pub proof fn lemma_one()
    ensures
        rounding::units(float::ONE_BITS as nat, 52) == float::one_in_units(),
        float::one_in_units() > 0,
{
    lemma_top();
    lemma_pow2_pos(1074);
    assert(0x3ff0_0000_0000_0000nat / 0x10_0000_0000_0000nat == 0x3ff);
    lemma_pow2_adds(52, 1022);
}

/// A positive number divided by itself is one.
pub proof fn lemma_quotient_itself(x: Float64)
    requires
        x.finite(),
        x.key() > 0,
    ensures
        float::quotient(x, x).key() == float::ONE_BITS,
        float::quotient(x, x) == (Float64 { bits: float::ONE_BITS }),
{
    lemma_one();
    lemma_quotient_key(x, x);
    float::lemma_nearest_exact(float::ONE_BITS as nat, x.units());
    let one = float::one_in_units();
    assert(x.units() * one == one * x.units()) by (nonlinear_arith);
}

/// One times a number is that number.
pub proof fn lemma_product_one(x: Float64)
    requires
        x.finite(),
    ensures
        float::product(Float64 { bits: float::ONE_BITS }, x) == x,
{
    lemma_one();
    let one = float::one_in_units();
    float::lemma_nearest_exact(x.magnitude(), one);
    assert(x.units() * one == one * x.units()) by (nonlinear_arith);
}

/// Zero times a number is zero.
pub proof fn lemma_product_zero(x: Float64, z: Float64)
    requires
        x.finite(),
        z.zero(),
    ensures
        float::product(x, z).zero(),
        float::product(z, x).zero(),
{
    let one = float::one_in_units();
    lemma_one();
    lemma_zero_units(z);
    lemma_ratio_zero(one);
    assert(x.units() * 0 == 0 && 0 * x.units() == 0) by (nonlinear_arith);
}

/// Zero divided by a number other than zero is zero.
pub proof fn lemma_quotient_zero(z: Float64, x: Float64)
    requires
        z.zero(),
        !x.nan(),
        !x.zero(),
    ensures
        float::quotient(z, x).zero(),
{
    lemma_zero_units(z);
    lemma_zero_units(x);
    let one = float::one_in_units();
    assert(0 * one == 0) by (nonlinear_arith);
    if x.finite() {
        lemma_ratio_zero(x.units());
    }
}

/// Adding zero leaves the place in the order.
pub proof fn lemma_sum_zero(x: Float64, z: Float64)
    requires
        x.finite(),
        z.zero(),
    ensures
        !float::sum(x, z).nan(),
        float::sum(x, z).key() == x.key(),
{
    lemma_zero_units(z);
    lemma_sum_key(x, z);
    lemma_nearest_key_exact(x);
}

/// A number less itself is zero.
pub proof fn lemma_difference_itself(x: Float64)
    requires
        x.finite(),
    ensures
        float::difference(x, x).zero(),
{
    lemma_negated(x);
}

/// Multiplying by the same number keeps the order, where nothing is negative.
pub proof fn lemma_product_monotone(a: Float64, b: Float64, c: Float64)
    requires
        a.finite(),
        b.finite(),
        c.finite(),
        0 <= a.key() <= b.key(),
        0 <= c.key(),
    ensures
        0 <= float::product(a, c).key() <= float::product(b, c).key(),
{
    lemma_top();
    lemma_one();
    lemma_product_key(a, c);
    lemma_product_key(b, c);
    lemma_order(a, b);
    lemma_nonnegative(a);
    lemma_nonnegative(b);
    let one = float::one_in_units();
    let n = a.units() * c.units();
    let m = b.units() * c.units();
    assert(n * one <= m * one) by (nonlinear_arith)
        requires
            a.units() <= b.units(),
            n == a.units() * c.units(),
            m == b.units() * c.units(),
    ;
    rounding::lemma_nearest_monotone(n, one, m, one, 52, float::INFINITY_BITS as nat);
}

/// Dividing by the same positive number keeps the order, where nothing is negative.
pub proof fn lemma_quotient_monotone(a: Float64, b: Float64, c: Float64)
    requires
        a.finite(),
        b.finite(),
        c.finite(),
        0 <= a.key() <= b.key(),
        0 < c.key(),
    ensures
        0 <= float::quotient(a, c).key() <= float::quotient(b, c).key(),
{
    lemma_top();
    lemma_quotient_key(a, c);
    lemma_quotient_key(b, c);
    lemma_order(a, b);
    lemma_nonnegative(a);
    lemma_nonnegative(b);
    let one = float::one_in_units();
    let d = c.units();
    let n = a.units() * one;
    let m = b.units() * one;
    assert(n * d <= m * d) by (nonlinear_arith)
        requires
            a.units() <= b.units(),
            n == a.units() * one,
            m == b.units() * one,
    ;
    rounding::lemma_nearest_monotone(n, d, m, d, 52, float::INFINITY_BITS as nat);
}

proof fn lemma_nonnegative(x: Float64)
    requires
        x.key() >= 0,
    ensures
        x.value() == x.units(),
{
    lemma_zero_units(x);
}

/// Adding what is not negative does not come out below, and taking it away does not come out
/// above.
pub proof fn lemma_padded(x: Float64, pad: Float64)
    requires
        x.finite(),
        !pad.nan(),
        pad.key() >= 0,
    ensures
        !float::difference(x, pad).nan(),
        !float::sum(x, pad).nan(),
        float::difference(x, pad).key() <= x.key() <= float::sum(x, pad).key(),
{
    lemma_negated(pad);
    if pad.finite() {
        lemma_nonnegative(pad);
        lemma_sum_key(x, pad);
        lemma_difference_key(x, pad);
        lemma_nearest_key_exact(x);
        lemma_nearest_key_monotone(x.value() - pad.value(), x.value());
        lemma_nearest_key_monotone(x.value(), x.value() + pad.value());
    }
}

/// The whole number zero is zero.
pub proof fn lemma_whole_zero()
    ensures
        float::from_whole(0).zero(),
{
    let one = float::one_in_units();
    assert(0 * one == 0) by (nonlinear_arith);
    lemma_ratio_zero(1);
}

/// A finite number divided by a positive whole number stays finite.
pub proof fn lemma_quotient_by_whole(x: Float64, n: nat)
    requires
        x.finite(),
        n > 0,
    ensures
        float::quotient(x, float::from_whole(n as int)).finite(),
{
    let one = float::one_in_units();
    let w = float::from_whole(n as int);
    let top = float::INFINITY_BITS as nat;
    lemma_top();
    lemma_one();
    let u = n * one;
    assert(one * 1 <= u * 1 && u >= one) by (nonlinear_arith)
        requires
            u == n * one,
            n > 0,
    ;
    float::lemma_nearest_exact(float::ONE_BITS as nat, 1);
    assert(one * 1 == one);
    rounding::lemma_nearest_monotone(one, 1, u, 1, 52, top);
    lemma_signed(false, ratio_key(u, 1));
    assert(w.magnitude() >= float::ONE_BITS);
    if w.finite() {
        lemma_zero_units(w);
        if w.magnitude() > float::ONE_BITS {
            rounding::lemma_units_increase(float::ONE_BITS as nat, w.magnitude(), 52);
        }
        assert(w.units() >= one);
        let d = w.units();
        let m = x.units() * one;
        assert(m * 1 <= x.units() * d) by (nonlinear_arith)
            requires
                m == x.units() * one,
                one <= d,
        ;
        rounding::lemma_nearest_monotone(m, d, x.units(), 1, 52, top);
        float::lemma_nearest_exact(x.magnitude(), 1);
        assert(x.units() * 1 == x.units());
        lemma_signed(x.negative(), ratio_key(m, d));
    }
}

/// The place in the order of a quotient by a positive number.
proof fn lemma_signed_quotient_key(a: Float64, b: Float64)
    requires
        a.finite(),
        b.finite(),
        b.key() > 0,
    ensures
        b.units() > 0,
        !float::quotient(a, b).nan(),
        float::quotient(a, b).key() == if a.negative() {
            -ratio_key(a.units() * float::one_in_units(), b.units())
        } else {
            ratio_key(a.units() * float::one_in_units(), b.units()) as int
        },
{
    lemma_zero_units(b);
    lemma_signed(a.negative(), ratio_key(a.units() * float::one_in_units(), b.units()));
}

/// Dividing by the same positive number keeps the order.
pub proof fn lemma_quotient_order(a: Float64, b: Float64, c: Float64)
    requires
        !a.nan(),
        !b.nan(),
        c.finite(),
        a.key() <= b.key(),
        0 < c.key(),
    ensures
        !float::quotient(a, c).nan(),
        !float::quotient(b, c).nan(),
        float::quotient(a, c).key() <= float::quotient(b, c).key(),
{
    if a.infinite() {
        lemma_signed(a.negative(), float::INFINITY_BITS as nat);
    } else {
        lemma_signed_quotient_key(a, c);
    }
    if b.infinite() {
        lemma_signed(b.negative(), float::INFINITY_BITS as nat);
    } else {
        lemma_signed_quotient_key(b, c);
    }
    if a.finite() && b.finite() {
        lemma_finite_quotient_order(a, b, c);
    }
}

proof fn lemma_finite_quotient_order(a: Float64, b: Float64, c: Float64)
    requires
        a.finite(),
        b.finite(),
        c.finite(),
        a.key() <= b.key(),
        0 < c.key(),
    ensures
        float::quotient(a, c).key() <= float::quotient(b, c).key(),
{
    lemma_signed_quotient_key(a, c);
    lemma_signed_quotient_key(b, c);
    if a.key() >= 0 {
        lemma_quotient_monotone(a, b, c);
    } else if b.key() < 0 {
        lemma_negated(a);
        lemma_negated(b);
        lemma_quotient_monotone(float::negated(b), float::negated(a), c);
        lemma_signed_quotient_key(float::negated(a), c);
        lemma_signed_quotient_key(float::negated(b), c);
    } else if b.negative() {
        lemma_zero_units(b);
        let one = float::one_in_units();
        assert(0 * one == 0) by (nonlinear_arith);
        lemma_ratio_zero(c.units());
    }
}

/// The place in the order of a product with a positive number.
proof fn lemma_signed_product_key(a: Float64, b: Float64)
    requires
        a.finite(),
        b.finite(),
        b.key() > 0,
    ensures
        !float::product(a, b).nan(),
        float::product(a, b).key() == if a.negative() {
            -ratio_key(a.units() * b.units(), float::one_in_units())
        } else {
            ratio_key(a.units() * b.units(), float::one_in_units()) as int
        },
{
    lemma_signed(a.negative(), ratio_key(a.units() * b.units(), float::one_in_units()));
}

proof fn lemma_finite_product_order(a: Float64, b: Float64, c: Float64)
    requires
        a.finite(),
        b.finite(),
        c.finite(),
        a.key() <= b.key(),
        0 < c.key(),
    ensures
        float::product(a, c).key() <= float::product(b, c).key(),
{
    lemma_signed_product_key(a, c);
    lemma_signed_product_key(b, c);
    if a.key() >= 0 {
        lemma_product_monotone(a, b, c);
    } else if b.key() < 0 {
        lemma_negated(a);
        lemma_negated(b);
        lemma_product_monotone(float::negated(b), float::negated(a), c);
        lemma_signed_product_key(float::negated(a), c);
        lemma_signed_product_key(float::negated(b), c);
    } else if b.negative() {
        lemma_zero_units(b);
        assert(0 * c.units() == 0) by (nonlinear_arith);
        lemma_one();
        lemma_ratio_zero(float::one_in_units());
    }
}

/// Multiplying by the same positive number keeps the order.
pub proof fn lemma_product_order(a: Float64, b: Float64, c: Float64)
    requires
        !a.nan(),
        !b.nan(),
        c.finite(),
        a.key() <= b.key(),
        0 < c.key(),
    ensures
        !float::product(a, c).nan(),
        !float::product(b, c).nan(),
        float::product(a, c).key() <= float::product(b, c).key(),
{
    if a.infinite() {
        lemma_signed(a.negative(), float::INFINITY_BITS as nat);
    } else {
        lemma_signed_product_key(a, c);
    }
    if b.infinite() {
        lemma_signed(b.negative(), float::INFINITY_BITS as nat);
    } else {
        lemma_signed_product_key(b, c);
    }
    if a.finite() && b.finite() {
        lemma_finite_product_order(a, b, c);
    }
}

/// Adding the same finite number to two keeps their order.
pub proof fn lemma_sum_order(a: Float64, b: Float64, c: Float64)
    requires
        !a.nan(),
        !b.nan(),
        c.finite(),
        a.key() <= b.key(),
    ensures
        !float::sum(a, c).nan(),
        !float::sum(b, c).nan(),
        float::sum(a, c).key() <= float::sum(b, c).key(),
        !float::sum(c, a).nan(),
        !float::sum(c, b).nan(),
        float::sum(c, a).key() <= float::sum(c, b).key(),
{
    if a.finite() {
        lemma_sum_key(a, c);
        lemma_sum_key(c, a);
    }
    if b.finite() {
        lemma_sum_key(b, c);
        lemma_sum_key(c, b);
    }
    if a.finite() && b.finite() {
        lemma_sum_monotone(a, b, c);
    }
}

/// A whole number becomes the number nearest to it.
pub proof fn lemma_whole_key(n: int)
    ensures
        !float::from_whole(n).nan(),
        float::from_whole(n).key() == nearest_key(n * float::one_in_units()),
{
    let one = float::one_in_units();
    lemma_pow2_pos(1074);
    if n < 0 {
        assert((-n) * one == -(n * one) && n * one < 0) by (nonlinear_arith)
            requires
                n < 0,
                one > 0,
        ;
        lemma_signed(true, ratio_key(((-n) * one) as nat, 1));
    } else {
        assert(n * one >= 0) by (nonlinear_arith)
            requires
                n >= 0,
                one > 0,
        ;
        lemma_signed(false, ratio_key((n * one) as nat, 1));
    }
}

/// Becoming a number keeps the order of whole numbers.
pub proof fn lemma_whole_order(n: int, m: int)
    requires
        n <= m,
    ensures
        float::from_whole(n).key() <= float::from_whole(m).key(),
{
    let one = float::one_in_units();
    lemma_whole_key(n);
    lemma_whole_key(m);
    assert(n * one <= m * one) by (nonlinear_arith)
        requires
            n <= m,
            one >= 0,
    ;
    lemma_nearest_key_monotone(n * one, m * one);
}

/// The whole numbers that sixty-four bits can hold become finite numbers.
pub proof fn lemma_whole_finite(n: int)
    requires
        i64::MIN <= n <= i64::MAX,
    ensures
        float::from_whole(n).finite(),
{
    let one = float::one_in_units();
    let top = float::INFINITY_BITS as nat;
    let size = (if n < 0 {
        -n
    } else {
        n
    }) as nat;
    // The pattern of two to the power of sixty-three.
    let bound: nat = 0x43e0_0000_0000_0000;
    lemma_top();
    lemma2_to64();
    lemma2_to64_rest();
    lemma_pow2_adds(63, 1074);
    lemma_pow2_adds(52, 1085);
    assert(0x43e0_0000_0000_0000nat / 0x10_0000_0000_0000nat == 0x43e);
    assert(rounding::units(bound, 52) == pow2(52) * pow2(1085));
    float::lemma_nearest_exact(bound, 1);
    assert(rounding::units(bound, 52) * 1 == rounding::units(bound, 52));
    assert(size * one <= pow2(63) * one) by (nonlinear_arith)
        requires
            size <= pow2(63),
            one >= 0,
    ;
    rounding::lemma_nearest_monotone(size * one, 1, pow2(63) * one, 1, 52, top);
    lemma_signed(n < 0, ratio_key(size * one, 1));
}

/// Magnitudes from one on: the two below are at least as far away as the next after one is from
/// one, and one sixteenth is at least as much, and a magnitude.
pub proof fn lemma_from_one_on(m: nat)
    requires
        float::ONE_BITS <= m < float::INFINITY_BITS,
    ensures
        ({
            let u = rounding::units(m, 52);
            let part = rounding::units((m - 4 * pow2(52)) as nat, 52);
            &&& part * 16 == u
            &&& rounding::units((m - 2) as nat, 52) + pow2(1022) <= u
            &&& u - part <= rounding::units((m - 2) as nat, 52)
            &&& u + pow2(1022) <= rounding::units(m + 1, 52) <= u + part
        }),
{
    lemma_top();
    lemma2_to64();
    let w = pow2(52);
    let q = (m - 4 * w) as nat;
    let s = rounding::scale(m, 52);
    assert(m / w >= 0x3ff) by {
        assert(0x3ff0_0000_0000_0000nat / 0x10_0000_0000_0000nat == 0x3ff);
        vstd::arithmetic::div_mod::lemma_div_is_ordered(
            float::ONE_BITS as int,
            m as int,
            w as int,
        );
    }
    // One sixteenth.
    assert(m == q + 4 * w);
    assert(m / w == q / w + 4);
    assert(rounding::scale(q, 52) == s - 4);
    let r = rounding::scale(q, 52);
    assert((r + 4) * w == r * w + 4 * w) by (nonlinear_arith);
    let g = rounding::significand(m, 52);
    assert(rounding::significand(q, 52) == g);
    lemma_pow2_adds(r, 4);
    assert(g * (pow2(r) * 16) == (g * pow2(r)) * 16) by (nonlinear_arith);
    // The distance of neighbours.
    rounding::lemma_units_step((m - 2) as nat, 52);
    rounding::lemma_units_step((m - 1) as nat, 52);
    rounding::lemma_units_step(m, 52);
    let a = rounding::scale((m - 2) as nat, 52);
    let c = rounding::scale((m - 1) as nat, 52);
    vstd::arithmetic::div_mod::lemma_div_is_ordered(m - 2, m - 1, w as int);
    vstd::arithmetic::div_mod::lemma_div_is_ordered(m - 1, m as int, w as int);
    assert((0x3ff0_0000_0000_0000nat - 2) / 0x10_0000_0000_0000 == 0x3fe);
    vstd::arithmetic::div_mod::lemma_div_is_ordered(
        float::ONE_BITS - 2,
        m - 2,
        w as int,
    );
    assert(1021 <= a <= c <= s);
    rounding::lemma_pow2_le(1021, a);
    rounding::lemma_pow2_le(1021, c);
    rounding::lemma_pow2_le(a, s);
    rounding::lemma_pow2_le(c, s);
    rounding::lemma_pow2_le(1022, s);
    lemma_pow2_unfold(1022);
    // One sixteenth is far more than the distance of neighbours.
    rounding::lemma_significand(q, 52);
    let part = g * pow2(r);
    assert(part >= 2 * pow2(s)) by (nonlinear_arith)
        requires
            part == g * pow2(r),
            g >= 0x10_0000_0000_0000,
            pow2(s) == pow2(r) * 16,
            pow2(r) >= 0,
    ;
}

/// One tenth of a number from one on takes it below the two numbers before it, and below the one
/// before it where it is negative.
pub proof fn lemma_less_a_tenth(x: Float64, tenth: Float64)
    requires
        x.finite(),
        x.magnitude() >= float::ONE_BITS,
        tenth.finite(),
        !tenth.negative(),
        16 * tenth.units() >= float::one_in_units(),
    ensures
        ({
            let pad = float::product(float::absolute(x), tenth);
            let low = float::difference(x, pad);
            &&& !pad.nan()
            &&& !low.nan()
            &&& low.infinite() ==> low.negative()
            &&& low.finite() ==> low.value() + pow2(1022) <= x.value()
        }),
{
    let m = x.magnitude();
    let size = float::absolute(x);
    let pad = float::product(size, tenth);
    let low = float::difference(x, pad);
    let top = float::INFINITY_BITS as nat;
    let one = float::one_in_units();
    lemma_top();
    lemma_one();
    lemma_signed(false, m);
    lemma_product_key(size, tenth);
    lemma_from_one_on(m);
    let u = x.units();
    let q = (m - 4 * pow2(52)) as nat;
    let part = rounding::units(q, 52);
    let t = tenth.units();
    assert(part * one <= (u * t) * 1) by (nonlinear_arith)
        requires
            part * 16 == u,
            16 * t >= one,
    ;
    rounding::lemma_nearest_monotone(part, 1, u * t, one, 52, top);
    float::lemma_nearest_exact(q, 1);
    assert(part * 1 == part);
    assert(pad.key() >= q);
    lemma_negated(pad);
    if pad.finite() {
        if pad.magnitude() > q {
            rounding::lemma_units_increase(q, pad.magnitude(), 52);
        }
        lemma_nonnegative(pad);
        assert(pad.value() >= part);
        lemma_difference_key(x, pad);
        let v = x.value() - pad.value();
        if !x.negative() {
            let below = Float64 { bits: (m - 2) as u64 };
            assert(below.magnitude() == m - 2 && !below.negative());
            lemma_nearest_key_monotone(v, below.value());
            lemma_nearest_key_exact(below);
            if low.finite() {
                lemma_order(low, below);
            }
        } else {
            let bound = -(rounding::units(m + 1, 52) as int);
            assert(v <= bound);
            lemma_nearest_key_monotone(v, bound);
            if m + 1 == top {
                rounding::lemma_nearest_top(rounding::units(m + 1, 52), 1, 52, top);
                assert(rounding::units(m + 1, 52) * 1 == rounding::units(m + 1, 52));
            } else {
                let below = float::signed(true, m + 1);
                lemma_signed(true, m + 1);
                lemma_nearest_key_exact(below);
                if low.finite() {
                    lemma_order(low, below);
                }
            }
        }
    }
}

/// The size of a number.
pub open spec fn size(v: int) -> int {
    if v < 0 {
        -v
    } else {
        v
    }
}

/// A finite sum is away from the sum of the values by no more than its part in `2^53`.
pub proof fn lemma_sum_error(a: Float64, b: Float64)
    requires
        a.finite(),
        b.finite(),
        float::sum(a, b).finite(),
    ensures
        size(float::sum(a, b).value() - (a.value() + b.value())) * pow2(53) <= size(
            a.value() + b.value(),
        ),
{
    let v = a.value() + b.value();
    let s = float::sum(a, b);
    let top = float::INFINITY_BITS as nat;
    let n = size(v) as nat;
    lemma_top();
    if v == 0 {
        lemma_signed(a.negative() && b.negative(), 0);
        lemma_zero_value(s);
        assert(0 * pow2(53) == 0) by (nonlinear_arith);
    } else {
        lemma_signed(v < 0, ratio_key(n, 1));
        rounding::lemma_nearest_error(n, 1, 52, top);
        assert(rounding::units(ratio_key(n, 1), 52) * 1 == s.units());
        let e = size(s.units() - n);
        assert(size(s.value() - v) == e);
        if 2 * e <= 1 {
            assert(0 * pow2(53) == 0) by (nonlinear_arith);
        }
    }
}

/// A finite difference is away from the difference of the values by no more than its part in
/// `2^53`.
pub proof fn lemma_difference_error(a: Float64, b: Float64)
    requires
        a.finite(),
        b.finite(),
        float::difference(a, b).finite(),
    ensures
        size(float::difference(a, b).value() - (a.value() - b.value())) * pow2(53) <= size(
            a.value() - b.value(),
        ),
{
    lemma_negated(b);
    lemma_sum_error(a, float::negated(b));
}

/// A finite product is away from the product of the values by no more than its part in `2^53`, or
/// half a unit.
pub proof fn lemma_product_error(a: Float64, b: Float64)
    requires
        a.finite(),
        b.finite(),
        float::product(a, b).finite(),
    ensures
        ({
            let v = a.value() * b.value();
            let one = float::one_in_units();
            size(float::product(a, b).value() * one - v) * pow2(53) <= size(v) + pow2(52) * one
        }),
{
    let one = float::one_in_units();
    let v = a.value() * b.value();
    let n = a.units() * b.units();
    let p = float::product(a, b);
    let negative = a.negative() != b.negative();
    lemma_top();
    lemma_one();
    lemma2_to64();
    lemma2_to64_rest();
    lemma_signed(negative, ratio_key(n, one));
    rounding::lemma_nearest_error(n, one, 52, float::INFINITY_BITS as nat);
    let x = a.units();
    let y = b.units();
    assert(v == if negative {
        -n
    } else {
        n as int
    }) by {
        assert((-x) * y == -(x * y) && x * (-y) == -(x * y) && (-x) * (-y) == x * y)
            by (nonlinear_arith);
    }
    let near = p.units() * one;
    assert(p.value() * one == if negative {
        -near
    } else {
        near as int
    }) by {
        assert((-p.units()) * one == -(p.units() * one)) by (nonlinear_arith);
    }
    let e = size(near - n);
    assert(size(p.value() * one - v) == e);
    lemma_error_joined(e, n as int, one as int);
}

proof fn lemma_error_joined(e: int, n: int, d: int)
    requires
        e >= 0,
        n >= 0,
        d >= 0,
        e * pow2(53) <= n || 2 * e <= d,
    ensures
        e * pow2(53) <= n + pow2(52) * d,
{
    lemma2_to64();
    lemma2_to64_rest();
    assert(e * pow2(53) <= n + pow2(52) * d) by (nonlinear_arith)
        requires
            e * pow2(53) <= n || 2 * e <= d,
            pow2(53) == 2 * pow2(52),
            pow2(52) > 0,
            n >= 0,
            d >= 0,
    ;
}

/// A finite quotient times the divisor is away from the dividend by no more than the part of that
/// in `2^53`, or half the divisor.
pub proof fn lemma_quotient_error(a: Float64, b: Float64)
    requires
        a.finite(),
        b.finite(),
        !b.zero(),
        float::quotient(a, b).finite(),
    ensures
        ({
            let one = float::one_in_units();
            size(float::quotient(a, b).value() * b.value() - a.value() * one) * pow2(53) <= size(
                a.value(),
            ) * one + pow2(52) * size(b.value())
        }),
{
    let one = float::one_in_units();
    let n = a.units() * one;
    let d = b.units();
    let q = float::quotient(a, b);
    let negative = a.negative() != b.negative();
    lemma_top();
    lemma_one();
    lemma_zero_units(b);
    lemma_zero_units(a);
    if a.zero() {
        lemma_quotient_zero(a, b);
        lemma_zero_value(q);
        lemma_zero_value(a);
        assert(0 * b.value() == 0 && 0 * one == 0 && 0 * pow2(53) == 0) by (nonlinear_arith);
        assert(pow2(52) * size(b.value()) >= 0) by (nonlinear_arith)
            requires
                size(b.value()) >= 0,
        ;
    } else {
        lemma_signed(negative, ratio_key(n, d));
        rounding::lemma_nearest_error(n, d, 52, float::INFINITY_BITS as nat);
        let near = q.units() * d;
        let e = size(near - n);
        let x = q.units();
        assert((-x) * (d as int) == -(x * d) && x * (-d) == -(x * d) && (-x) * (-d) == x * d)
            by (nonlinear_arith);
        assert((-a.units()) * one == -(a.units() * one)) by (nonlinear_arith);
        assert(size(q.value() * b.value() - a.value() * one) == e);
        lemma_error_joined(e, n as int, d as int);
    }
}

/// The pattern of a power of two.
pub open spec fn power_bits(k: nat) -> nat {
    ((k - 51) * pow2(52)) as nat
}

/// The pattern of a power of two has that many units.
pub proof fn lemma_power_bits(k: nat)
    requires
        52 <= k <= 2097,
    ensures
        rounding::units(power_bits(k), 52) == pow2(k),
        power_bits(k) < float::INFINITY_BITS,
{
    let w = pow2(52);
    let b = power_bits(k);
    lemma_top();
    lemma2_to64();
    assert(b == (k - 51) * w);
    assert(b / w == k - 51) by {
        vstd::arithmetic::div_mod::lemma_div_by_multiple(k - 51, w as int);
    }
    assert((k - 51) * w <= 2046 * w) by (nonlinear_arith)
        requires
            k <= 2097,
            w > 0,
    ;
    if k == 52 {
        assert(1 * w == w);
        assert(0 * w == 0) by (nonlinear_arith);
    } else {
        let s = (k - 52) as nat;
        assert(rounding::scale(b, 52) == s);
        assert((k - 51) * w == s * w + w) by (nonlinear_arith)
            requires
                s == k - 52,
        ;
        lemma_pow2_adds(52, s);
    }
}

/// A result of no more than a power of two is finite, and no more than that power.
pub proof fn lemma_ratio_at_most(n: nat, d: nat, k: nat)
    requires
        d > 0,
        52 <= k <= 2097,
        n <= pow2(k) * d,
    ensures
        ratio_key(n, d) <= power_bits(k),
        ratio_key(n, d) < float::INFINITY_BITS,
        rounding::units(ratio_key(n, d), 52) <= pow2(k),
{
    lemma_top();
    lemma_power_bits(k);
    rounding::lemma_nearest_at_most(
        n,
        d,
        52,
        float::INFINITY_BITS as nat,
        power_bits(k),
    );
    let r = ratio_key(n, d);
    if r < power_bits(k) {
        rounding::lemma_units_increase(r, power_bits(k), 52);
    }
}

/// Sums of no more than a power of two.
pub proof fn lemma_sum_at_most(a: Float64, b: Float64, k: nat)
    requires
        a.finite(),
        b.finite(),
        52 <= k <= 2097,
        size(a.value() + b.value()) <= pow2(k),
    ensures
        float::sum(a, b).finite(),
        float::sum(a, b).units() <= pow2(k),
{
    let v = a.value() + b.value();
    let n = size(v) as nat;
    lemma_pow2_pos(k);
    if v == 0 {
        lemma_signed(a.negative() && b.negative(), 0);
        lemma_zero_units(float::sum(a, b));
    } else {
        assert(pow2(k) * 1 == pow2(k));
        lemma_ratio_at_most(n, 1, k);
        lemma_signed(v < 0, ratio_key(n, 1));
    }
}

/// A sum that is a number needs no rounding.
pub proof fn lemma_sum_exact(a: Float64, b: Float64, r: Float64)
    requires
        a.finite(),
        b.finite(),
        r.finite(),
        r.value() == a.value() + b.value(),
    ensures
        float::sum(a, b).finite(),
        float::sum(a, b).value() == r.value(),
{
    lemma_sum_key(a, b);
    lemma_nearest_key_exact(r);
    assert(float::sum(a, b).finite());
    lemma_order(float::sum(a, b), r);
}

proof fn lemma_units_of_top()
    ensures
        rounding::units(float::INFINITY_BITS as nat, 52) == pow2(2098),
{
    lemma_top();
    assert(0x7ff0_0000_0000_0000nat / 0x10_0000_0000_0000nat == 0x7ff);
    lemma_pow2_adds(52, 2046);
}

/// Whole numbers of no more than fifty-three binary digits, times a power of two, are numbers.
pub proof fn lemma_number_held(m: int, j: nat) -> (r: Float64)
    requires
        size(m) <= pow2(53),
        j <= 2044,
    ensures
        r.finite(),
        r.value() == m * pow2(j),
{
    let top = float::INFINITY_BITS as nat;
    let n = size(m) as nat;
    lemma_units_of_top();
    lemma_pow2_adds(53, j);
    rounding::lemma_pow2_le(53 + j, 2097);
    lemma_pow2_unfold(2098);
    lemma_pow2_pos(2097);
    assert(n * pow2(j) <= pow2(53) * pow2(j)) by (nonlinear_arith)
        requires
            n <= pow2(53),
    ;
    let b = rounding::lemma_held(n, j, 52, top);
    let r = float::signed(m < 0, b);
    lemma_signed(m < 0, b);
    assert((-n) * pow2(j) == -(n * pow2(j))) by (nonlinear_arith);
    r
}

/// Whole numbers of no more than fifty-three binary digits become exactly themselves.
pub proof fn lemma_whole_exact(n: int)
    requires
        size(n) <= pow2(53),
    ensures
        float::from_whole(n).finite(),
        float::from_whole(n).value() == n * float::one_in_units(),
{
    let r = lemma_number_held(n, 1074);
    lemma_whole_key(n);
    lemma_nearest_key_exact(r);
    assert(float::from_whole(n).finite());
    lemma_order(float::from_whole(n), r);
}

/// No number times the divisor is nearer to the dividend than the quotient.
pub proof fn lemma_quotient_closest(a: Float64, b: Float64, c: Float64)
    requires
        a.finite(),
        b.finite(),
        c.finite(),
        b.value() > 0,
        float::quotient(a, b).finite(),
    ensures
        ({
            let one = float::one_in_units();
            size(float::quotient(a, b).value() * b.value() - a.value() * one) <= size(
                c.value() * b.value() - a.value() * one,
            )
        }),
{
    let one = float::one_in_units();
    let top = float::INFINITY_BITS as nat;
    let q = float::quotient(a, b);
    let n = a.units() * one;
    let d = b.units();
    lemma_top();
    lemma_one();
    lemma_zero_units(a);
    lemma_zero_units(b);
    if a.zero() {
        lemma_quotient_zero(a, b);
        lemma_zero_value(q);
        lemma_zero_value(a);
        assert(0 * b.value() == 0 && 0 * one == 0) by (nonlinear_arith);
    } else {
        lemma_signed(a.negative(), ratio_key(n, d));
        if rounding::units(top, 52) * d <= n {
            rounding::lemma_nearest_top(n, d, 52, top);
        }
        let m = c.units();
        rounding::lemma_nearest_is_nearest(n, d, 52, top, c.magnitude());
        let x = q.units();
        assert((-x) * (d as int) == -(x * d) && (-m) * (d as int) == -(m * d)) by (nonlinear_arith);
        assert((-a.units()) * one == -(a.units() * one)) by (nonlinear_arith);
        assert(m * d >= 0 && n >= 0) by (nonlinear_arith)
            requires
                m >= 0,
                d >= 0,
                n >= 0,
        ;
    }
}

/// A factor common to both sides does not change which is the larger.
pub proof fn lemma_size_scaled(u: int, v: int, k: int)
    requires
        k > 0,
        size(u * k) <= size(v * k),
    ensures
        size(u) <= size(v),
{
    assert(size(u) <= size(v)) by {
        let a = size(u);
        let b = size(v);
        assert(a * k == size(u * k) && b * k == size(v * k)) by {
            assert((-u) * k == -(u * k) && (-v) * k == -(v * k)) by (nonlinear_arith);
            assert(u < 0 ==> u * k < 0) by (nonlinear_arith)
                requires
                    k > 0,
            ;
            assert(v < 0 ==> v * k < 0) by (nonlinear_arith)
                requires
                    k > 0,
            ;
            assert(u >= 0 ==> u * k >= 0) by (nonlinear_arith)
                requires
                    k > 0,
            ;
            assert(v >= 0 ==> v * k >= 0) by (nonlinear_arith)
                requires
                    k > 0,
            ;
        }
        assert(a <= b) by (nonlinear_arith)
            requires
                a * k <= b * k,
                k > 0,
        ;
    }
}

/// A finite number divided by one of at least one stays finite, and does not become larger.
pub proof fn lemma_quotient_at_most(a: Float64, b: Float64)
    requires
        a.finite(),
        b.finite(),
        b.value() >= float::one_in_units(),
    ensures
        float::quotient(a, b).finite(),
        float::quotient(a, b).units() <= a.units(),
{
    let one = float::one_in_units();
    let n = a.units() * one;
    let d = b.units();
    let top = float::INFINITY_BITS as nat;
    lemma_top();
    lemma_one();
    lemma_zero_units(a);
    lemma_zero_units(b);
    if a.zero() {
        lemma_quotient_zero(a, b);
        lemma_zero_units(float::quotient(a, b));
    } else {
        assert(n <= a.units() * d) by (nonlinear_arith)
            requires
                n == a.units() * one,
                one <= d,
        ;
        rounding::lemma_nearest_at_most(n, d, 52, top, a.magnitude());
        lemma_signed(a.negative(), ratio_key(n, d));
        let r = ratio_key(n, d);
        if r < a.magnitude() {
            rounding::lemma_units_increase(r, a.magnitude(), 52);
        }
    }
}

/// Which factor comes first does not count.
pub proof fn lemma_product_commutes(a: Float64, b: Float64)
    ensures
        float::product(a, b) == float::product(b, a),
{
    assert(a.units() * b.units() == b.units() * a.units()) by (nonlinear_arith);
}

/// Whether a number is finite and not near the largest numbers.
pub open spec fn moderate(x: Float64) -> bool {
    x.finite() && x.units() <= pow2(2000)
}

/// A bound with a common factor holds without it.
pub proof fn lemma_bound_scaled(x: int, k: int, y: int, one: int)
    requires
        one > 0,
        size(x * one) * k <= y * one,
    ensures
        size(x) * k <= y,
{
    let a = size(x);
    assert(a * one == size(x * one)) by {
        assert((-x) * one == -(x * one)) by (nonlinear_arith);
        assert(x < 0 ==> x * one < 0) by (nonlinear_arith)
            requires
                one > 0,
        ;
        assert(x >= 0 ==> x * one >= 0) by (nonlinear_arith)
            requires
                one > 0,
        ;
    }
    assert(a * k <= y) by (nonlinear_arith)
        requires
            (a * one) * k <= y * one,
            one > 0,
    ;
}

/// A quotient by a whole number, in whole numbers of units.
pub proof fn lemma_whole_quotient_error(a: Float64, n: int)
    requires
        a.finite(),
        1 <= n <= pow2(53),
    ensures
        ({
            let q = float::quotient(a, float::from_whole(n));
            &&& q.finite()
            &&& q.units() <= a.units()
            &&& size(n * q.value() - a.value()) * pow2(53) <= size(a.value()) + n * pow2(52)
        }),
{
    let one = float::one_in_units();
    let w = float::from_whole(n);
    let q = float::quotient(a, w);
    lemma_one();
    lemma_whole_exact(n);
    assert(n * one >= one) by (nonlinear_arith)
        requires
            n >= 1,
            one > 0,
    ;
    lemma_quotient_at_most(a, w);
    lemma_zero_units(w);
    lemma_quotient_error(a, w);
    let x = n * q.value() - a.value();
    assert(q.value() * (n * one) - a.value() * one == x * one) by (nonlinear_arith)
        requires
            x == n * q.value() - a.value(),
    ;
    assert(size(a.value()) * one + pow2(52) * (n * one) == (size(a.value()) + n * pow2(52)) * one)
        by (nonlinear_arith);
    lemma_bound_scaled(x, pow2(53) as int, size(a.value()) + n * pow2(52), one as int);
}

/// A product with a whole number, in whole numbers of units.
pub proof fn lemma_whole_product_error(a: Float64, n: int)
    requires
        a.finite(),
        0 <= n <= pow2(53),
        float::product(a, float::from_whole(n)).finite(),
    ensures
        size(float::product(a, float::from_whole(n)).value() - n * a.value()) * pow2(53) <= n * size(
            a.value(),
        ) + pow2(52),
{
    let one = float::one_in_units();
    let w = float::from_whole(n);
    let p = float::product(a, w);
    lemma_one();
    lemma_whole_exact(n);
    lemma_product_error(a, w);
    let x = p.value() - n * a.value();
    assert(p.value() * one - a.value() * (n * one) == x * one) by (nonlinear_arith)
        requires
            x == p.value() - n * a.value(),
    ;
    let y = n * size(a.value()) + pow2(52);
    let u = a.value();
    assert(size(u * (n * one)) == (n * size(u)) * one) by {
        assert(u >= 0 ==> u * (n * one) >= 0 && u * (n * one) == (n * u) * one) by (nonlinear_arith)
            requires
                n >= 0,
                one > 0,
        ;
        assert(u < 0 ==> u * (n * one) <= 0 && -(u * (n * one)) == (n * (-u)) * one)
            by (nonlinear_arith)
            requires
                n >= 0,
                one > 0,
        ;
    }
    assert((n * size(u)) * one + pow2(52) * one == y * one) by (nonlinear_arith)
        requires
            y == n * size(u) + pow2(52),
    ;
    lemma_bound_scaled(x, pow2(53) as int, y, one as int);
}

/// A number with a minus and without a negative value is zero.
pub proof fn lemma_zero_sign(x: Float64)
    ensures
        x.value() >= 0 ==> x.units() == x.value(),
        x.value() >= 0 && x.negative() ==> x.units() == 0,
{
}

/// Results are negative where the signs of a product or a quotient differ, and a sum that vanishes
/// is negative only where both its sides are. The absolute value is never negative.
pub proof fn lemma_result_signs(a: Float64, b: Float64)
    requires
        !a.nan(),
        !b.nan(),
    ensures
        !float::product(a, b).nan() ==> float::product(a, b).negative() == (a.negative()
            != b.negative()),
        !float::quotient(a, b).nan() ==> float::quotient(a, b).negative() == (a.negative()
            != b.negative()),
        a.finite() && b.finite() && a.value() + b.value() == 0 ==> float::sum(a, b).zero()
            && float::sum(a, b).negative() == (a.negative() && b.negative()),
        !float::absolute(a).negative(),
        float::absolute(a).magnitude() == a.magnitude(),
        a.finite() ==> float::absolute(a).value() == size(a.value()),
{
    let negative = a.negative() != b.negative();
    let one = float::one_in_units();
    lemma_one();
    lemma_signed(negative, 0);
    lemma_signed(negative, float::INFINITY_BITS as nat);
    lemma_signed(negative, ratio_key(a.units() * b.units(), one));
    lemma_signed(negative, ratio_key(a.units() * one, b.units()));
    lemma_signed(a.negative() && b.negative(), 0);
    lemma_signed(false, a.magnitude());
}

/// What is not a number stays so. What is infinite stays infinite in a sum with a finite number,
/// in a product with any but zero, and divided by a finite number; two that are infinite have no
/// difference and no ratio. A number divided by zero is infinite, and zero divided by zero is no
/// number.
pub proof fn lemma_beyond_numbers(a: Float64, b: Float64)
    ensures
        a.nan() || b.nan() ==> float::sum(a, b).nan() && float::product(a, b).nan()
            && float::quotient(a, b).nan() && !float::less(a, b),
        a.infinite() && b.finite() ==> float::sum(a, b) == a && float::sum(b, a) == a,
        a.infinite() && b.infinite() && a.negative() != b.negative() ==> float::sum(a, b).nan(),
        a.infinite() && b.infinite() && a.negative() == b.negative() ==> float::sum(a, b) == a
            && float::difference(a, b).nan(),
        a.infinite() && !b.nan() && !b.zero() ==> float::product(a, b).infinite()
            && float::product(b, a).infinite(),
        a.infinite() && b.zero() ==> float::product(a, b).nan() && float::product(b, a).nan(),
        a.infinite() && b.finite() ==> float::quotient(a, b).infinite() && float::quotient(
            b,
            a,
        ).zero(),
        a.infinite() && b.infinite() ==> float::quotient(a, b).nan(),
        a.finite() && !a.zero() && b.zero() ==> float::quotient(a, b).infinite(),
        a.zero() && b.zero() ==> float::quotient(a, b).nan(),
        a.infinite() && a.negative() && b.finite() ==> float::less(a, b),
        a.infinite() && !a.negative() && b.finite() ==> float::less(b, a),
{
    let negative = a.negative() != b.negative();
    lemma_signed(negative, 0);
    lemma_signed(negative, float::INFINITY_BITS as nat);
    if !b.nan() {
        lemma_signed(!b.negative(), b.magnitude());
    }
    assert(float::not_a_number().nan());
}

} // verus!
