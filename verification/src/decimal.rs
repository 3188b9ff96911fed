//! Whole numbers written in decimal.

use vstd::arithmetic::power::*;
use vstd::arithmetic::power2::*;
use vstd::prelude::*;

verus! {

/// The character of one decimal digit.
pub open spec fn digit(d: nat) -> char {
    (48 + d) as char
}

/// `n` in decimal without leading zeros; zero is one `0`.
pub open spec fn digits(n: nat) -> Seq<char>
    decreases n,
{
    if n < 10 {
        seq![digit(n)]
    } else {
        digits(n / 10).push(digit(n % 10))
    }
}

/// `10^places`.
pub open spec fn ten_to(places: nat) -> nat
    decreases places,
{
    if places == 0 {
        1
    } else {
        10 * ten_to((places - 1) as nat)
    }
}

/// The number that decimal digits spell, the lowest digit first.
spec fn spelled(v: Seq<u8>) -> nat
    decreases v.len(),
{
    if v.len() == 0 {
        0
    } else {
        spelled(v.drop_last()) + v.last() as nat * pow(10, (v.len() - 1) as nat) as nat
    }
}

/// The digits as text, the highest digit first.
spec fn shown(v: Seq<u8>) -> Seq<char>
    decreases v.len(),
{
    if v.len() == 0 {
        Seq::empty()
    } else {
        seq![digit(v.last() as nat)] + shown(v.drop_last())
    }
}

spec fn all_digits(v: Seq<u8>) -> bool {
    forall|i: int| 0 <= i < v.len() ==> #[trigger] v[i] <= 9
}

proof fn lemma_spelled_first(v: Seq<u8>)
    requires
        v.len() > 0,
    ensures
        spelled(v) == v[0] + 10 * spelled(v.drop_first()),
    decreases v.len(),
{
    reveal(pow);
    lemma_pow_positive(10, (v.len() - 1) as nat);
    if v.len() == 1 {
        assert(v.drop_last() =~= Seq::empty());
        assert(v.drop_first() =~= Seq::empty());
        assert(pow(10, 0) == 1);
    } else {
        let rest = v.drop_first();
        assert(rest.drop_last() =~= v.drop_last().drop_first());
        lemma_spelled_first(v.drop_last());
        lemma_pow_positive(10, (v.len() - 2) as nat);
        let w = pow(10, (v.len() - 2) as nat) as nat;
        assert(pow(10, (v.len() - 1) as nat) as nat == 10 * w);
        assert(v.last() as nat * (10 * w) == 10 * (v.last() as nat * w)) by (nonlinear_arith);
    }
}

proof fn lemma_shown_first(v: Seq<u8>)
    requires
        v.len() > 0,
    ensures
        shown(v) == shown(v.drop_first()).push(digit(v[0] as nat)),
    decreases v.len(),
{
    if v.len() == 1 {
        assert(v.drop_last() =~= Seq::empty());
        assert(v.drop_first() =~= Seq::empty());
        assert(shown(v) =~= shown(v.drop_first()).push(digit(v[0] as nat)));
    } else {
        let rest = v.drop_first();
        assert(rest.drop_last() =~= v.drop_last().drop_first());
        lemma_shown_first(v.drop_last());
        assert(shown(v) =~= shown(rest).push(digit(v[0] as nat)));
    }
}

/// Digits without a leading zero are the decimal text of the number that they spell.
proof fn lemma_shown_is_digits(v: Seq<u8>)
    requires
        v.len() > 0,
        all_digits(v),
        v.len() > 1 ==> v.last() > 0,
    ensures
        digits(spelled(v)) == shown(v),
        v.last() > 0 ==> spelled(v) > 0,
    decreases v.len(),
{
    lemma_spelled_first(v);
    lemma_shown_first(v);
    let rest = v.drop_first();
    assert(v[0] <= 9);
    if v.len() == 1 {
        assert(rest =~= Seq::empty());
        assert(shown(rest) =~= Seq::empty());
        assert(digits(spelled(v)) =~= shown(v));
    } else {
        assert(rest.last() == v.last());
        assert(all_digits(rest)) by {
            assert forall|i: int| 0 <= i < rest.len() implies #[trigger] rest[i] <= 9 by {
                assert(rest[i] == v[i + 1]);
            }
        }
        lemma_shown_is_digits(rest);
        assert(spelled(v) % 10 == v[0]);
        assert(spelled(v) / 10 == spelled(rest));
        assert(digits(spelled(v)) =~= shown(v));
    }
}

/// Appends `n` in decimal.
pub fn push_decimal(out: &mut String, n: u64)
    ensures
        final(out)@ == old(out)@ + digits(n as nat),
    decreases n,
{
    if n >= 10 {
        push_decimal(out, n / 10);
    }
    let d: u8 = (n % 10) as u8;
    out.push((48 + d) as char);
    assert(out@ =~= old(out)@ + digits(n as nat));
}

/// `n` in decimal.
pub fn decimal(n: u64) -> (s: String)
    ensures
        s@ == digits(n as nat),
{
    let mut s = String::new();
    push_decimal(&mut s, n);
    assert(s@ =~= digits(n as nat));
    s
}

/// The digits of `n`, the lowest first.
fn digits_of(n: u64) -> (v: Vec<u8>)
    ensures
        v@.len() > 0,
        all_digits(v@),
        v@.len() > 1 ==> v@.last() > 0,
        spelled(v@) == n,
{
    let mut v: Vec<u8> = Vec::new();
    let mut rest: u64 = n;
    let ghost mut w: nat = 1;
    proof {
        reveal(pow);
    }
    while rest >= 10
        invariant
            all_digits(v@),
            w == pow(10, v@.len() as nat),
            n == spelled(v@) + rest * w,
            n >= 1 ==> rest >= 1,
            v@.len() > 0 ==> rest >= 1,
        decreases rest,
    {
        let d: u8 = (rest % 10) as u8;
        let ghost before = v@;
        v.push(d);
        proof {
            assert(v@.drop_last() =~= before);
            lemma_pow_positive(10, before.len() as nat);
            reveal(pow);
            assert(rest * w == (rest % 10) * w + (rest / 10) * (10 * w)) by (nonlinear_arith)
                requires
                    rest == (rest % 10) + 10 * (rest / 10),
            ;
            w = 10 * w;
        }
        rest = rest / 10;
    }
    let ghost before = v@;
    v.push(rest as u8);
    proof {
        assert(v@.drop_last() =~= before);
        lemma_pow_positive(10, before.len() as nat);
    }
    v
}

/// The digits of twice the number.
fn doubled(v: &Vec<u8>) -> (r: Vec<u8>)
    requires
        v@.len() > 0,
        all_digits(v@),
        v@.len() > 1 ==> v@.last() > 0,
    ensures
        r@.len() > 0,
        all_digits(r@),
        r@.len() > 1 ==> r@.last() > 0,
        spelled(r@) == 2 * spelled(v@),
{
    let mut r: Vec<u8> = Vec::new();
    let mut carry: u8 = 0;
    let mut i: usize = 0;
    let ghost mut w: nat = 1;
    proof {
        reveal(pow);
        assert(v@.take(0) =~= Seq::empty());
    }
    while i < v.len()
        invariant
            i <= v@.len(),
            r@.len() == i,
            all_digits(v@),
            all_digits(r@),
            carry <= 1,
            w == pow(10, i as nat),
            spelled(r@) + carry * w == 2 * spelled(v@.take(i as int)),
            i > 0 && v@[i - 1] > 0 && carry == 0 ==> r@.last() > 0,
        decreases v@.len() - i,
    {
        let d: u8 = v[i];
        assert(v@[i as int] <= 9);
        let t: u8 = 2 * d + carry;
        let ghost before = r@;
        let ghost low: nat = (t % 10) as nat;
        let ghost high: nat = (t / 10) as nat;
        let ghost c: nat = carry as nat;
        r.push(t % 10);
        proof {
            assert(r@.drop_last() =~= before);
            assert(v@.take(i + 1).drop_last() =~= v@.take(i as int));
            lemma_pow_positive(10, i as nat);
            reveal(pow);
            assert(low * w + high * (10 * w) == c * w + 2 * (d as nat * w)) by (nonlinear_arith)
                requires
                    low + 10 * high == 2 * (d as nat) + c,
            ;
            w = 10 * w;
        }
        carry = t / 10;
        i += 1;
    }
    assert(v@.take(i as int) =~= v@);
    if carry > 0 {
        let ghost before = r@;
        r.push(carry);
        proof {
            assert(r@.drop_last() =~= before);
            lemma_pow_positive(10, before.len() as nat);
        }
    }
    r
}

/// Appends `a * 2^shift` in decimal.
pub fn push_scaled_decimal(out: &mut String, a: u64, shift: u32)
    ensures
        final(out)@ == old(out)@ + digits(a as nat * pow2(shift as nat)),
{
    let mut v: Vec<u8> = digits_of(a);
    let mut i: u32 = 0;
    proof {
        lemma2_to64();
        assert(a as nat * pow2(0) == a) by (nonlinear_arith)
            requires
                pow2(0) == 1,
        ;
    }
    while i < shift
        invariant
            i <= shift,
            v@.len() > 0,
            all_digits(v@),
            v@.len() > 1 ==> v@.last() > 0,
            spelled(v@) == a as nat * pow2(i as nat),
        decreases shift - i,
    {
        v = doubled(&v);
        proof {
            lemma_pow2_unfold((i + 1) as nat);
            assert(2 * (a as nat * pow2(i as nat)) == a as nat * (2 * pow2(i as nat)))
                by (nonlinear_arith);
        }
        i += 1;
    }
    proof {
        lemma_shown_is_digits(v@);
    }
    let mut j: usize = v.len();
    assert(v@.take(j as int) =~= v@);
    while j > 0
        invariant
            j <= v@.len(),
            all_digits(v@),
            old(out)@ + shown(v@) == out@ + shown(v@.take(j as int)),
        decreases j,
    {
        let d: u8 = v[j - 1];
        assert(v@[j - 1] <= 9);
        let ghost before = out@;
        out.push((48 + d) as char);
        proof {
            assert(v@.take(j as int).drop_last() =~= v@.take(j - 1));
            assert(before + shown(v@.take(j as int)) =~= out@ + shown(v@.take(j - 1)));
        }
        j -= 1;
    }
    assert(v@.take(0) =~= Seq::empty());
    assert(out@ =~= old(out)@ + shown(v@));
}

/// One digit more is a factor of ten and that digit.
pub proof fn lemma_digits_longer(n: nat, d: nat)
    requires
        n > 0,
        d < 10,
    ensures
        digits(10 * n + d) == digits(n).push(digit(d)),
{
}

/// The ten digits follow one another from `0` to `9`.
pub proof fn lemma_digit(d: nat)
    requires
        d < 10,
    ensures
        digits(d) == seq![digit(d)],
        digit(0) == '0',
        digit(9) == '9',
        digit(d) as u32 == '0' as u32 + d,
{
}

/// A power of ten is ten times the one before it, from one on.
pub proof fn lemma_ten_to(places: nat)
    ensures
        ten_to(0) == 1,
        ten_to(places + 1) == 10 * ten_to(places),
{
}

} // verus!
