//! Natural numbers of any size.

use crate::rounding;
use vstd::arithmetic::power2::*;
use vstd::prelude::*;

verus! {

/// The number that 32-bit digits spell, the lowest digit first.
pub open spec fn spelled(v: Seq<u32>) -> nat
    decreases v.len(),
{
    if v.len() == 0 {
        0
    } else {
        spelled(v.drop_last()) + v.last() as nat * pow2((32 * (v.len() - 1)) as nat)
    }
}

/// A natural number.
pub struct Natural {
    limbs: Vec<u32>,
}

impl View for Natural {
    type V = nat;

    closed spec fn view(&self) -> nat {
        spelled(self.limbs@)
    }
}

proof fn lemma_spelled_bound(v: Seq<u32>)
    ensures
        spelled(v) < pow2((32 * v.len()) as nat),
    decreases v.len(),
{
    lemma2_to64();
    if v.len() > 0 {
        let rest = v.drop_last();
        lemma_spelled_bound(rest);
        let w = pow2((32 * rest.len()) as nat);
        lemma_pow2_adds(32, (32 * rest.len()) as nat);
        assert(v.last() as nat * w + w <= 0x1_0000_0000 * w) by (nonlinear_arith)
            requires
                v.last() < 0x1_0000_0000,
        ;
    }
}

/// Higher digits being equal, the first difference decides.
proof fn lemma_decided(a: Seq<u32>, b: Seq<u32>, i: int)
    requires
        0 <= i < a.len(),
        a.len() == b.len(),
        a[i] < b[i],
        forall|j: int| i < j < a.len() ==> #[trigger] a[j] == b[j],
    ensures
        spelled(a) < spelled(b),
    decreases a.len(),
{
    let x = a.drop_last();
    let y = b.drop_last();
    let w = pow2((32 * x.len()) as nat);
    if i == a.len() - 1 {
        lemma_spelled_bound(x);
        assert(a.last() as nat * w + w <= b.last() as nat * w) by (nonlinear_arith)
            requires
                a.last() + 1 <= b.last(),
        ;
    } else {
        assert(a.last() == b.last());
        assert forall|j: int| i < j < x.len() implies #[trigger] x[j] == y[j] by {
            assert(a[j] == b[j]);
        }
        lemma_decided(x, y, i);
    }
}

/// Leading zeros change nothing.
proof fn lemma_leading_zeros(v: Seq<u32>, n: nat)
    requires
        n <= v.len(),
        forall|j: int| n <= j < v.len() ==> #[trigger] v[j] == 0,
    ensures
        spelled(v) == spelled(v.take(n as int)),
    decreases v.len(),
{
    if n == v.len() {
        assert(v.take(n as int) =~= v);
    } else {
        let rest = v.drop_last();
        assert(v.last() == 0);
        assert(rest.take(n as int) =~= v.take(n as int));
        assert(0nat * pow2((32 * rest.len()) as nat) == 0) by (nonlinear_arith);
        lemma_leading_zeros(rest, n);
    }
}

impl Natural {
    /// `n` as a natural number.
    pub fn new(n: u32) -> (r: Natural)
        ensures
            r@ == n,
    {
        let mut limbs: Vec<u32> = Vec::new();
        limbs.push(n);
        proof {
            lemma2_to64();
            assert(limbs@.drop_last() =~= Seq::empty());
            assert(spelled(Seq::<u32>::empty()) == 0);
            assert(n as nat * pow2(0) == n) by (nonlinear_arith)
                requires
                    pow2(0) == 1,
            ;
        }
        Natural { limbs }
    }

    /// `self * factor + addend`.
    pub fn times_plus(&self, factor: u64, addend: u64) -> (r: Natural)
        ensures
            r@ == self@ * factor + addend,
    {
        let mut limbs: Vec<u32> = Vec::new();
        let mut carry: u64 = addend;
        let mut i: usize = 0;
        let ghost mut w: nat = 1;
        proof {
            lemma2_to64();
            assert(self.limbs@.take(0) =~= Seq::empty());
            assert(limbs@ =~= Seq::empty());
            assert(spelled(Seq::<u32>::empty()) == 0);
            assert(0nat * factor == 0) by (nonlinear_arith);
        }
        while i < self.limbs.len()
            invariant
                i <= self.limbs@.len(),
                limbs@.len() == i,
                w == pow2((32 * i) as nat),
                spelled(limbs@) + carry * w == spelled(self.limbs@.take(i as int)) * factor
                    + addend,
            decreases self.limbs@.len() - i,
        {
            let limb: u32 = self.limbs[i];
            assert(limb * factor <= 0xffff_ffff * 0xffff_ffff_ffff_ffff) by (nonlinear_arith)
                requires
                    0 <= limb <= 0xffff_ffff,
                    0 <= factor <= 0xffff_ffff_ffff_ffff,
            ;
            let t: u128 = limb as u128 * factor as u128 + carry as u128;
            let ghost before = limbs@;
            let ghost low: nat = (t % 0x1_0000_0000) as nat;
            let ghost high: nat = (t / 0x1_0000_0000) as nat;
            limbs.push((t % 0x1_0000_0000) as u32);
            proof {
                assert(limbs@.drop_last() =~= before);
                assert(self.limbs@.take(i + 1).drop_last() =~= self.limbs@.take(i as int));
                lemma_pow2_adds(32, (32 * i) as nat);
                lemma2_to64();
                let c = carry as nat;
                let f = factor as nat;
                let l = limb as nat;
                let s = spelled(self.limbs@.take(i as int));
                assert(low * w + high * (0x1_0000_0000 * w) == c * w + (l * w) * f)
                    by (nonlinear_arith)
                    requires
                        low + 0x1_0000_0000 * high == l * f + c,
                ;
                assert((s + l * w) * f == s * f + (l * w) * f) by (nonlinear_arith);
                w = 0x1_0000_0000 * w;
            }
            carry = (t / 0x1_0000_0000) as u64;
            i += 1;
        }
        assert(self.limbs@.take(i as int) =~= self.limbs@);
        let ghost before = limbs@;
        let ghost low: nat = (carry % 0x1_0000_0000) as nat;
        let ghost high: nat = (carry / 0x1_0000_0000) as nat;
        limbs.push((carry % 0x1_0000_0000) as u32);
        let ghost middle = limbs@;
        limbs.push((carry / 0x1_0000_0000) as u32);
        proof {
            assert(middle.drop_last() =~= before);
            assert(limbs@.drop_last() =~= middle);
            assert(spelled(middle) == spelled(before) + low * w);
            assert(32 * (limbs@.len() - 1) == 32 * i + 32);
            lemma_pow2_adds(32, (32 * i) as nat);
            lemma2_to64();
            assert(low * w + high * (0x1_0000_0000 * w) == carry * w) by (nonlinear_arith)
                requires
                    low + 0x1_0000_0000 * high == carry,
            ;
        }
        Natural { limbs }
    }

    /// `self * 2^k`.
    pub fn shifted(self, k: u64) -> (r: Natural)
        ensures
            r@ == self@ * pow2(k as nat),
    {
        let mut r: Natural = self;
        let mut rest: u64 = k;
        let ghost start = self@;
        proof {
            lemma2_to64();
            assert(start * pow2(0) == start) by (nonlinear_arith)
                requires
                    pow2(0) == 1,
            ;
        }
        while rest >= 32
            invariant
                rest <= k,
                r@ == start * pow2((k - rest) as nat),
            decreases rest,
        {
            r = r.times_plus(0x1_0000_0000, 0);
            proof {
                lemma2_to64();
                lemma_pow2_adds((k - rest) as nat, 32);
                assert((start * pow2((k - rest) as nat)) * 0x1_0000_0000 == start * (pow2(
                    (k - rest) as nat,
                ) * 0x1_0000_0000)) by (nonlinear_arith);
            }
            rest -= 32;
        }
        proof {
            lemma2_to64();
            rounding::lemma_pow2_le(rest as nat, 32);
            lemma_pow2_adds((k - rest) as nat, rest as nat);
            assert((start * pow2((k - rest) as nat)) * pow2(rest as nat) == start * (pow2(
                (k - rest) as nat,
            ) * pow2(rest as nat))) by (nonlinear_arith);
        }
        r.times_plus(rounding::power_of_two(rest as u32) as u64, 0)
    }

    fn limb(&self, i: usize) -> (d: u32)
        ensures
            d == if i < self.limbs@.len() {
                self.limbs@[i as int]
            } else {
                0
            },
    {
        if i < self.limbs.len() {
            self.limbs[i]
        } else {
            0
        }
    }

    /// `self <= other`.
    pub fn at_most(&self, other: &Natural) -> (yes: bool)
        ensures
            yes == (self@ <= other@),
    {
        let n: usize = if self.limbs.len() < other.limbs.len() {
            other.limbs.len()
        } else {
            self.limbs.len()
        };
        let ghost a = Seq::new(
            n as nat,
            |i: int|
                if i < self.limbs@.len() {
                    self.limbs@[i]
                } else {
                    0u32
                },
        );
        let ghost b = Seq::new(
            n as nat,
            |i: int|
                if i < other.limbs@.len() {
                    other.limbs@[i]
                } else {
                    0u32
                },
        );
        proof {
            assert(a.take(self.limbs@.len() as int) =~= self.limbs@);
            assert(b.take(other.limbs@.len() as int) =~= other.limbs@);
            lemma_leading_zeros(a, self.limbs@.len() as nat);
            lemma_leading_zeros(b, other.limbs@.len() as nat);
        }
        let mut i: usize = n;
        while i > 0
            invariant
                i <= n,
                a.len() == n,
                b.len() == n,
                forall|j: int|
                    0 <= j < n ==> a[j] == if j < self.limbs@.len() {
                        self.limbs@[j]
                    } else {
                        0
                    },
                forall|j: int|
                    0 <= j < n ==> b[j] == if j < other.limbs@.len() {
                        other.limbs@[j]
                    } else {
                        0
                    },
                self@ == spelled(a),
                other@ == spelled(b),
                forall|j: int| i <= j < n ==> #[trigger] a[j] == b[j],
            decreases i,
        {
            i -= 1;
            let x: u32 = self.limb(i);
            let y: u32 = other.limb(i);
            assert(a[i as int] == x && b[i as int] == y);
            if x < y {
                proof {
                    lemma_decided(a, b, i as int);
                }
                return true;
            }
            if y < x {
                proof {
                    lemma_decided(b, a, i as int);
                }
                return false;
            }
        }
        assert(a =~= b);
        true
    }
}

} // verus!
