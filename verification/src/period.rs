//! How long a watch waits between two runs of its command.

use crate::float::Float32;
use crate::rounding;
use vstd::arithmetic::power2::*;
use vstd::prelude::*;

verus! {

/// The nanoseconds in one second.
pub const NANOS_PER_SECOND: u64 = 1_000_000_000;

/// A span of time.
#[derive(Clone, Copy, Debug, PartialEq, Eq, Structural)]
pub struct Period {
    /// The whole seconds.
    pub secs: u64,
    /// The nanoseconds after the whole seconds, fewer than one second.
    pub nanos: u32,
}

/// How many units of a single-precision number make one.
pub open spec fn one_in_units_32() -> nat {
    pow2(149)
}

/// Whether a number of seconds is short enough for its whole seconds to be counted.
pub open spec fn countable(seconds: Float32) -> bool {
    seconds.units() < pow2(64) * one_in_units_32()
}

/// The nanoseconds nearest to a number of seconds, ties going to the even one.
pub open spec fn nearest_nanos(seconds: Float32) -> nat {
    rounding::half_even(seconds.units() * NANOS_PER_SECOND as nat, one_in_units_32())
}

/// The bit pattern of `2^64` in single precision.
const TWO_TO_64_BITS: u32 = 0x5f80_0000;

impl Period {
    /// The whole span in nanoseconds.
    pub open spec fn total_nanos(self) -> nat {
        self.secs as nat * NANOS_PER_SECOND as nat + self.nanos as nat
    }

    /// The whole seconds.
    pub fn as_secs(&self) -> (secs: u64)
        ensures
            secs == self.secs,
    {
        self.secs
    }

    /// The whole milliseconds.
    pub fn as_millis(&self) -> (millis: u128)
        requires
            self.nanos < NANOS_PER_SECOND,
        ensures
            millis == self.total_nanos() / 1_000_000,
            millis == 1000 * self.secs + self.nanos / 1_000_000,
    {
        self.secs as u128 * 1000 + self.nanos as u128 / 1_000_000
    }
}

/// Whether a number of seconds is short enough for its whole seconds to be counted.
pub fn is_countable(seconds: Float32) -> (yes: bool)
    requires
        seconds.positive_finite(),
    ensures
        yes == countable(seconds),
        yes <==> seconds.units() < pow2(213),
{
    proof {
        lemma2_to64();
        lemma_pow2_adds(23, 190);
        lemma_pow2_adds(64, 149);
        assert(rounding::units(TWO_TO_64_BITS as nat, 23) == pow2(64) * one_in_units_32());
        if seconds.bits < TWO_TO_64_BITS {
            rounding::lemma_units_increase(seconds.bits as nat, TWO_TO_64_BITS as nat, 23);
        } else if seconds.bits > TWO_TO_64_BITS {
            rounding::lemma_units_increase(TWO_TO_64_BITS as nat, seconds.bits as nat, 23);
        }
    }
    seconds.bits < TWO_TO_64_BITS
}

/// The span nearest to a number of seconds.
pub fn period_of(seconds: Float32) -> (period: Period)
    requires
        seconds.positive_finite(),
        countable(seconds),
    ensures
        period.total_nanos() == nearest_nanos(seconds),
        period.nanos < NANOS_PER_SECOND,
        -pow2(149) <= 2 * ((period.secs * 1_000_000_000 + period.nanos) * pow2(149)
            - seconds.units() * 1_000_000_000) <= pow2(149),
{
    proof {
        lemma_pow2_pos(149);
        rounding::lemma_half_even(seconds.units() * 1_000_000_000, pow2(149));
    }
    let field: u32 = seconds.bits / 0x80_0000;
    let (a, scale): (u32, u32) = if field <= 1 {
        (seconds.bits, 0)
    } else {
        (seconds.bits - (field - 1) * 0x80_0000, field - 1)
    };
    proof {
        lemma2_to64();
        lemma2_to64_rest();
        rounding::lemma_significand(seconds.magnitude(), 23);
        lemma_pow2_pos(scale as nat);
        lemma_pow2_pos(149);
    }
    let ghost one = one_in_units_32();
    let ghost billion = NANOS_PER_SECOND as nat;
    assert(seconds.units() == a as nat * pow2(scale as nat));
    if scale >= 149 {
        let shift: u32 = scale - 149;
        let ghost w = pow2(shift as nat);
        proof {
            lemma_pow2_adds(shift as nat, 149);
            assert(a as nat * (w * one) == (a as nat * w) * one) by (nonlinear_arith);
            assert((a as nat * w) * one * billion == ((a as nat * w) * billion) * one)
                by (nonlinear_arith);
            rounding::lemma_scaled_order(pow2(64), a as nat * w, one);
            vstd::arithmetic::div_mod::lemma_div_by_multiple(
                ((a as nat * w) * billion) as int,
                one as int,
            );
            vstd::arithmetic::div_mod::lemma_mod_multiples_basic(
                ((a as nat * w) * billion) as int,
                one as int,
            );
            assert(w <= a as nat * w) by (nonlinear_arith)
                requires
                    a >= 1,
            ;
            if shift >= 128 {
                rounding::lemma_pow2_le(64, shift as nat);
            }
        }
        Period { secs: (a as u128 * rounding::power_of_two(shift)) as u64, nanos: 0 }
    } else {
        let shift: u32 = 149 - scale;
        let n: u64 = a as u64 * NANOS_PER_SECOND;
        proof {
            lemma_pow2_adds(shift as nat, scale as nat);
            lemma_pow2_pos(shift as nat);
            let w = pow2(scale as nat);
            assert((a as nat * w) * billion == n as nat * w) by (nonlinear_arith)
                requires
                    n == a as nat * billion,
            ;
            rounding::lemma_half_even_scaled(n as nat, pow2(shift as nat), w);
        }
        let nanos: u64 = if shift >= 64 {
            proof {
                rounding::lemma_pow2_le(64, shift as nat);
                rounding::lemma_half_even_small(n as nat, pow2(shift as nat));
            }
            0
        } else {
            proof {
                vstd::arithmetic::div_mod::lemma_div_nonincreasing(
                    n as int,
                    pow2(shift as nat) as int,
                );
            }
            rounding::round_half_even(n as u128, rounding::power_of_two(shift)) as u64
        };
        Period { secs: nanos / NANOS_PER_SECOND, nanos: (nanos % NANOS_PER_SECOND) as u32 }
    }
}

} // verus!
