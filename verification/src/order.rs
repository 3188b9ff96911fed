//! Numbers in order: sorting them, and the least and the greatest of them.

use crate::float::Float64;
use itertools::Itertools;
use itertools::MinMaxResult;
use vstd::prelude::*;

verus! {

/// The least and the greatest of some numbers.
#[derive(Debug, Clone, Copy, PartialEq, Eq, Structural)]
pub enum Extremes {
    /// There is no number.
    Nothing,
    /// There is one number.
    One(Float64),
    /// The least and the greatest of two numbers or more.
    Two(Float64, Float64),
}

/// Those that hold a given place in the order.
pub open spec fn at_key(k: int) -> spec_fn(Float64) -> bool {
    |x: Float64| x.key() == k
}

/// Whether no number comes after a greater one.
pub open spec fn ascending(s: Seq<Float64>) -> bool {
    forall|i: int, j: int| 0 <= i <= j < s.len() ==> (#[trigger] s[i]).key() <= (#[trigger]
    s[j]).key()
}

/// Whether `s` holds the numbers of `v`, and equal ones in the same order as there.
pub open spec fn same_by_key(s: Seq<Float64>, v: Seq<Float64>) -> bool {
    forall|k: int| #[trigger] s.filter(at_key(k)) == v.filter(at_key(k))
}

/// `x` put behind the last number of `s` that is not greater, where `s` is ascending.
pub open spec fn placed(s: Seq<Float64>, x: Float64) -> Seq<Float64>
    decreases s.len(),
{
    if s.len() == 0 || s.last().key() <= x.key() {
        s.push(x)
    } else {
        placed(s.drop_last(), x).push(s.last())
    }
}

/// The numbers in ascending order, equal ones in the order that they have.
pub open spec fn ordered(v: Seq<Float64>) -> Seq<Float64>
    decreases v.len(),
{
    if v.len() == 0 {
        v
    } else {
        placed(ordered(v.drop_last()), v.last())
    }
}

/// The first of the least numbers.
pub open spec fn least(v: Seq<Float64>) -> Float64
    recommends
        v.len() > 0,
    decreases v.len(),
{
    if v.len() <= 1 {
        v[0]
    } else if v.last().key() < least(v.drop_last()).key() {
        v.last()
    } else {
        least(v.drop_last())
    }
}

/// The last of the greatest numbers.
pub open spec fn greatest(v: Seq<Float64>) -> Float64
    recommends
        v.len() > 0,
    decreases v.len(),
{
    if v.len() <= 1 {
        v[0]
    } else if v.last().key() < greatest(v.drop_last()).key() {
        greatest(v.drop_last())
    } else {
        v.last()
    }
}

/// Whether `x` is the first of the least numbers of `v`.
pub open spec fn first_least(v: Seq<Float64>, x: Float64) -> bool {
    exists|i: int|
        0 <= i < v.len() && #[trigger] v[i] == x && (forall|j: int|
            0 <= j < v.len() ==> x.key() <= (#[trigger] v[j]).key()) && (forall|j: int|
            0 <= j < i ==> x.key() < (#[trigger] v[j]).key())
}

/// Whether `x` is the last of the greatest numbers of `v`.
pub open spec fn last_greatest(v: Seq<Float64>, x: Float64) -> bool {
    exists|i: int|
        0 <= i < v.len() && #[trigger] v[i] == x && (forall|j: int|
            0 <= j < v.len() ==> (#[trigger] v[j]).key() <= x.key()) && (forall|j: int|
            i < j < v.len() ==> (#[trigger] v[j]).key() < x.key())
}

/// `Itertools::sorted_by_key`, with the place of a number in the order as its key: the numbers
/// in ascending order, and equal ones in the order that they had (the sort is stable).
#[verifier::external_body]
fn sort_by_key(values: Vec<Float64>) -> (sorted: Vec<Float64>)
    ensures
        ascending(sorted@),
        same_by_key(sorted@, values@),
{
    values.into_iter().sorted_by_key(|x| x.order_key()).collect()
}

/// `Itertools::minmax_by_key`, with the place of a number in the order as its key: nothing of no
/// number, the number where there is one, and else the first of the least and the last of the
/// greatest.
#[verifier::external_body]
fn min_max_by_key(values: Vec<Float64>) -> (found: Extremes)
    ensures
        match found {
            Extremes::Nothing => values@.len() == 0,
            Extremes::One(x) => values@ == seq![x],
            Extremes::Two(low, high) => values@.len() >= 2 && first_least(values@, low)
                && last_greatest(values@, high),
        },
{
    match values.into_iter().minmax_by_key(|x| x.order_key()) {
        MinMaxResult::NoElements => Extremes::Nothing,
        MinMaxResult::OneElement(x) => Extremes::One(x),
        MinMaxResult::MinMax(low, high) => Extremes::Two(low, high),
    }
}

proof fn lemma_filter_push(s: Seq<Float64>, x: Float64, k: int)
    ensures
        s.push(x).filter(at_key(k)) == if x.key() == k {
            s.filter(at_key(k)).push(x)
        } else {
            s.filter(at_key(k))
        },
{
    reveal(Seq::filter);
    assert(s.push(x).drop_last() =~= s);
}

/// What is put into an ascending sequence leaves it ascending, and comes last of its equals.
proof fn lemma_placed(s: Seq<Float64>, x: Float64)
    requires
        ascending(s),
    ensures
        ascending(placed(s, x)),
        placed(s, x).len() == s.len() + 1,
        s.len() > 0 ==> placed(s, x).last().key() == if s.last().key() <= x.key() {
            x.key()
        } else {
            s.last().key()
        },
        forall|k: int| #[trigger]
            placed(s, x).filter(at_key(k)) == s.push(x).filter(at_key(k)),
    decreases s.len(),
{
    reveal(Seq::filter);
    if s.len() == 0 || s.last().key() <= x.key() {
    } else {
        let front = s.drop_last();
        assert(ascending(front));
        lemma_placed(front, x);
        let p = placed(front, x);
        assert(placed(s, x) == p.push(s.last()));
        if front.len() > 0 {
            assert(front.last() == s[s.len() - 2]);
            assert(s[s.len() - 2].key() <= s[s.len() - 1].key());
            assert(p.last().key() <= s.last().key());
        } else {
            assert(p =~= seq![x]);
        }
        assert(ascending(placed(s, x))) by {
            assert forall|i: int, j: int| 0 <= i <= j < placed(s, x).len() implies (
            #[trigger] placed(s, x)[i]).key() <= (#[trigger] placed(s, x)[j]).key() by {
                if j < p.len() {
                    assert(p[i].key() <= p[j].key());
                } else if i < p.len() {
                    assert(p[i].key() <= p[p.len() - 1].key());
                }
            }
        }
        assert forall|k: int| #[trigger]
            placed(s, x).filter(at_key(k)) == s.push(x).filter(at_key(k)) by {
            lemma_filter_push(p, s.last(), k);
            assert(p.filter(at_key(k)) == front.push(x).filter(at_key(k)));
            lemma_filter_push(front, x, k);
            lemma_filter_push(s, x, k);
            assert(s =~= front.push(s.last()));
            lemma_filter_push(front, s.last(), k);
            assert(s.last().key() != x.key());
        }
    }
}

/// `ordered` sorts: its result is ascending, and holds the numbers with equal ones in the order
/// that they had.
pub proof fn lemma_ordered(v: Seq<Float64>)
    ensures
        ordered(v).len() == v.len(),
        ascending(ordered(v)),
        same_by_key(ordered(v), v),
    decreases v.len(),
{
    if v.len() > 0 {
        let front = v.drop_last();
        lemma_ordered(front);
        lemma_placed(ordered(front), v.last());
        assert forall|k: int| #[trigger]
            ordered(v).filter(at_key(k)) == v.filter(at_key(k)) by {
            reveal(Seq::filter);
            assert(ordered(front).push(v.last()).drop_last() =~= ordered(front));
            assert(ordered(front).filter(at_key(k)) == front.filter(at_key(k)));
        }
    }
}

/// A number stands in a sequence if one stands among those with its place in the order.
proof fn lemma_filter_finds(s: Seq<Float64>, k: int)
    requires
        s.filter(at_key(k)).len() > 0,
    ensures
        exists|i: int| 0 <= i < s.len() && (#[trigger] s[i]).key() == k,
    decreases s.len(),
{
    reveal(Seq::filter);
    if s.len() > 0 {
        if s.last().key() == k {
            assert(s[s.len() - 1].key() == k);
        } else {
            lemma_filter_finds(s.drop_last(), k);
            let i = choose|i: int|
                0 <= i < s.drop_last().len() && (#[trigger] s.drop_last()[i]).key() == k;
            assert(s[i].key() == k);
        }
    }
}

/// There is one way to sort: two ascending sequences that hold the same numbers, with equal ones
/// in the same order, are the same.
pub proof fn lemma_sorted_once(s: Seq<Float64>, t: Seq<Float64>)
    requires
        ascending(s),
        ascending(t),
        same_by_key(s, t),
    ensures
        s == t,
    decreases s.len() + t.len(),
{
    reveal(Seq::filter);
    if s.len() == 0 && t.len() == 0 {
        assert(s =~= t);
    } else {
        let k = if s.len() == 0 {
            t.last().key()
        } else if t.len() == 0 {
            s.last().key()
        } else if s.last().key() < t.last().key() {
            t.last().key()
        } else {
            s.last().key()
        };
        assert(s.filter(at_key(k)) == t.filter(at_key(k)));
        assert(s.filter(at_key(k)).len() > 0);
        lemma_filter_finds(s, k);
        lemma_filter_finds(t, k);
        let i = choose|i: int| 0 <= i < s.len() && (#[trigger] s[i]).key() == k;
        let j = choose|j: int| 0 <= j < t.len() && (#[trigger] t[j]).key() == k;
        assert(s[i].key() <= s[s.len() - 1].key());
        assert(t[j].key() <= t[t.len() - 1].key());
        assert(s.filter(at_key(k)).last() == s.last());
        assert(t.filter(at_key(k)).last() == t.last());
        let a = s.drop_last();
        let b = t.drop_last();
        assert forall|c: int| #[trigger] a.filter(at_key(c)) == b.filter(at_key(c)) by {
            assert(s.filter(at_key(c)) == t.filter(at_key(c)));
            if c == k {
                assert(a.filter(at_key(c)) =~= s.filter(at_key(c)).drop_last());
                assert(b.filter(at_key(c)) =~= t.filter(at_key(c)).drop_last());
            }
        }
        lemma_sorted_once(a, b);
        assert(s =~= a.push(s.last()));
        assert(t =~= b.push(t.last()));
    }
}

/// Whichever number is the first of the least, it is `least`.
proof fn lemma_least(v: Seq<Float64>, x: Float64)
    requires
        first_least(v, x),
    ensures
        x == least(v),
    decreases v.len(),
{
    if v.len() > 1 {
        let i = choose|i: int|
            0 <= i < v.len() && #[trigger] v[i] == x && (forall|j: int|
                0 <= j < v.len() ==> x.key() <= (#[trigger] v[j]).key()) && (forall|j: int|
                0 <= j < i ==> x.key() < (#[trigger] v[j]).key());
        let front = v.drop_last();
        if i < v.len() - 1 {
            assert(front[i] == x);
            assert forall|j: int| 0 <= j < front.len() implies x.key() <= (#[trigger]
            front[j]).key() by {
                assert(front[j] == v[j]);
            }
            assert forall|j: int| 0 <= j < i implies x.key() < (#[trigger] front[j]).key() by {
                assert(front[j] == v[j]);
            }
            lemma_least(front, x);
            assert(x.key() <= v[v.len() - 1].key());
        } else {
            lemma_least_member(front);
            let j = choose|j: int| 0 <= j < front.len() && #[trigger] front[j] == least(front);
            assert(v[j] == least(front));
        }
    }
}

proof fn lemma_least_member(v: Seq<Float64>)
    requires
        v.len() > 0,
    ensures
        exists|i: int| 0 <= i < v.len() && #[trigger] v[i] == least(v),
    decreases v.len(),
{
    if v.len() <= 1 {
        assert(v[0] == least(v));
    } else if v.last().key() < least(v.drop_last()).key() {
        assert(v[v.len() - 1] == least(v));
    } else {
        lemma_least_member(v.drop_last());
        let i = choose|i: int|
            0 <= i < v.drop_last().len() && #[trigger] v.drop_last()[i] == least(v.drop_last());
        assert(v[i] == least(v));
    }
}

proof fn lemma_greatest_member(v: Seq<Float64>)
    requires
        v.len() > 0,
    ensures
        exists|i: int| 0 <= i < v.len() && #[trigger] v[i] == greatest(v),
    decreases v.len(),
{
    if v.len() <= 1 {
        assert(v[0] == greatest(v));
    } else if v.last().key() < greatest(v.drop_last()).key() {
        lemma_greatest_member(v.drop_last());
        let i = choose|i: int|
            0 <= i < v.drop_last().len() && #[trigger] v.drop_last()[i] == greatest(
                v.drop_last(),
            );
        assert(v[i] == greatest(v));
    } else {
        assert(v[v.len() - 1] == greatest(v));
    }
}

/// Whichever number is the last of the greatest, it is `greatest`.
proof fn lemma_greatest(v: Seq<Float64>, x: Float64)
    requires
        last_greatest(v, x),
    ensures
        x == greatest(v),
    decreases v.len(),
{
    if v.len() > 1 {
        let i = choose|i: int|
            0 <= i < v.len() && #[trigger] v[i] == x && (forall|j: int|
                0 <= j < v.len() ==> (#[trigger] v[j]).key() <= x.key()) && (forall|j: int|
                i < j < v.len() ==> (#[trigger] v[j]).key() < x.key());
        let front = v.drop_last();
        if i < v.len() - 1 {
            assert(front[i] == x);
            assert forall|j: int| 0 <= j < front.len() implies (#[trigger] front[j]).key()
                <= x.key() by {
                assert(front[j] == v[j]);
            }
            assert forall|j: int| i < j < front.len() implies (#[trigger] front[j]).key()
                < x.key() by {
                assert(front[j] == v[j]);
            }
            lemma_greatest(front, x);
            assert(v[v.len() - 1].key() < x.key());
        } else {
            lemma_greatest_member(front);
            let j = choose|j: int|
                0 <= j < front.len() && #[trigger] front[j] == greatest(front);
            assert(v[j] == greatest(front));
        }
    }
}

/// No number is below `least` or above `greatest`, and both are among the numbers.
pub proof fn lemma_extremes(v: Seq<Float64>)
    requires
        v.len() > 0,
    ensures
        v.contains(least(v)),
        v.contains(greatest(v)),
        forall|i: int|
            0 <= i < v.len() ==> least(v).key() <= (#[trigger] v[i]).key() <= greatest(v).key(),
    decreases v.len(),
{
    lemma_least_member(v);
    lemma_greatest_member(v);
    if v.len() > 1 {
        let front = v.drop_last();
        lemma_extremes(front);
        assert forall|i: int| 0 <= i < v.len() implies least(v).key() <= (#[trigger]
        v[i]).key() <= greatest(v).key() by {
            if i < v.len() - 1 {
                assert(front[i] == v[i]);
            }
        }
    }
}

/// The numbers in ascending order, equal ones in the order that they have.
pub fn sorted_values(values: Vec<Float64>) -> (sorted: Vec<Float64>)
    ensures
        sorted@ == ordered(values@),
{
    let ghost given = values@;
    let sorted = sort_by_key(values);
    proof {
        lemma_ordered(given);
        assert forall|k: int| #[trigger]
            sorted@.filter(at_key(k)) == ordered(given).filter(at_key(k)) by {
            assert(ordered(given).filter(at_key(k)) == given.filter(at_key(k)));
        }
        lemma_sorted_once(sorted@, ordered(given));
    }
    sorted
}

/// The least and the greatest of the numbers.
pub fn extremes(values: Vec<Float64>) -> (found: Extremes)
    ensures
        found == (if values@.len() == 0 {
            Extremes::Nothing
        } else if values@.len() == 1 {
            Extremes::One(values@[0])
        } else {
            Extremes::Two(least(values@), greatest(values@))
        }),
{
    let ghost given = values@;
    let found = min_max_by_key(values);
    proof {
        if let Extremes::Two(low, high) = found {
            lemma_least(given, low);
            lemma_greatest(given, high);
        }
    }
    found
}

/// A number that is there before sorting is there after it.
pub proof fn lemma_ordered_finds(v: Seq<Float64>, i: int)
    requires
        0 <= i < v.len(),
    ensures
        exists|j: int| 0 <= j < ordered(v).len() && (#[trigger] ordered(v)[j]).key() == v[i].key(),
{
    let k = v[i].key();
    lemma_ordered(v);
    lemma_filter_holds(v, i);
    assert(ordered(v).filter(at_key(k)) == v.filter(at_key(k)));
    lemma_filter_finds(ordered(v), k);
}

proof fn lemma_filter_holds(v: Seq<Float64>, i: int)
    requires
        0 <= i < v.len(),
    ensures
        v.filter(at_key(v[i].key())).len() > 0,
    decreases v.len(),
{
    reveal(Seq::filter);
    if i < v.len() - 1 {
        assert(v.drop_last()[i] == v[i]);
        lemma_filter_holds(v.drop_last(), i);
    }
}

/// Whether numbers that are equal are the same: zeros all have one sign.
pub open spec fn one_zero(v: Seq<Float64>) -> bool {
    forall|i: int, j: int|
        0 <= i < v.len() && 0 <= j < v.len() && (#[trigger] v[i]).key() == (#[trigger] v[j]).key()
            ==> v[i] == v[j]
}

/// Where equal numbers are the same, those with one place in the order are that many copies.
proof fn lemma_copies(v: Seq<Float64>, x: Float64)
    requires
        forall|i: int| 0 <= i < v.len() && (#[trigger] v[i]).key() == x.key() ==> v[i] == x,
    ensures
        v.filter(at_key(x.key())) == Seq::new(v.to_multiset().count(x), |i: int| x),
    decreases v.len(),
{
    broadcast use vstd::seq_lib::group_to_multiset_ensures;
    broadcast use vstd::multiset::group_multiset_axioms;

    reveal(Seq::filter);
    let k = x.key();
    if v.len() > 0 {
        let front = v.drop_last();
        assert forall|i: int| 0 <= i < front.len() && (#[trigger] front[i]).key() == k implies
            front[i] == x by {
            assert(front[i] == v[i]);
        }
        lemma_copies(front, x);
        assert(front.push(v.last()) =~= v);
        assert(v[v.len() - 1].key() == k ==> v[v.len() - 1] == x);
        assert(v.to_multiset() == front.to_multiset().insert(v.last()));
        assert(v.filter(at_key(k)) =~= Seq::new(v.to_multiset().count(x), |i: int| x));
    } else {
        assert(!v.contains(x));
        assert(v.filter(at_key(k)) =~= Seq::new(v.to_multiset().count(x), |i: int| x));
    }
}

/// Sorting does not depend on the order that the numbers have, where zeros all have one sign.
pub proof fn lemma_ordered_alike(v: Seq<Float64>, w: Seq<Float64>)
    requires
        v.to_multiset() == w.to_multiset(),
        one_zero(v),
    ensures
        ordered(v) == ordered(w),
{
    broadcast use vstd::seq_lib::group_to_multiset_ensures;

    lemma_ordered(v);
    lemma_ordered(w);
    assert forall|k: int| #[trigger]
        ordered(v).filter(at_key(k)) == ordered(w).filter(at_key(k)) by {
        assert(ordered(v).filter(at_key(k)) == v.filter(at_key(k)));
        assert(ordered(w).filter(at_key(k)) == w.filter(at_key(k)));
        if exists|i: int| 0 <= i < v.len() && (#[trigger] v[i]).key() == k {
            let i = choose|i: int| 0 <= i < v.len() && (#[trigger] v[i]).key() == k;
            let x = v[i];
            assert forall|j: int| 0 <= j < w.len() && (#[trigger] w[j]).key() == k implies w[j]
                == x by {
                assert(w.contains(w[j]));
                assert(v.to_multiset().count(w[j]) > 0);
                let p = choose|p: int| 0 <= p < v.len() && v[p] == w[j];
                assert(v[p].key() == v[i].key());
            }
            lemma_copies(v, x);
            lemma_copies(w, x);
        } else {
            if v.filter(at_key(k)).len() > 0 {
                lemma_filter_finds(v, k);
            }
            if w.filter(at_key(k)).len() > 0 {
                lemma_filter_finds(w, k);
                let j = choose|j: int| 0 <= j < w.len() && (#[trigger] w[j]).key() == k;
                assert(w.contains(w[j]));
                assert(v.to_multiset().count(w[j]) > 0);
                let p = choose|p: int| 0 <= p < v.len() && v[p] == w[j];
                assert(v[p].key() == k);
            }
            assert(v.filter(at_key(k)) =~= w.filter(at_key(k)));
        }
    }
    lemma_sorted_once(ordered(v), ordered(w));
}

proof fn lemma_filter_member(v: Seq<Float64>, x: Float64)
    ensures
        v.contains(x) <==> v.filter(at_key(x.key())).contains(x),
    decreases v.len(),
{
    reveal(Seq::filter);
    let f = v.filter(at_key(x.key()));
    if v.len() > 0 {
        let front = v.drop_last();
        let g = front.filter(at_key(x.key()));
        lemma_filter_member(front, x);
        if v.contains(x) {
            let i = choose|i: int| 0 <= i < v.len() && v[i] == x;
            if i < front.len() {
                assert(front[i] == x);
                let j = choose|j: int| 0 <= j < g.len() && g[j] == x;
                assert(f[j] == x);
            } else {
                assert(f[f.len() - 1] == x);
            }
        }
        if f.contains(x) {
            let j = choose|j: int| 0 <= j < f.len() && f[j] == x;
            if j < g.len() {
                assert(g[j] == x);
                let i = choose|i: int| 0 <= i < front.len() && front[i] == x;
                assert(v[i] == x);
            } else {
                assert(v[v.len() - 1] == x);
            }
        }
    }
}

/// What is there after sorting was there before.
pub proof fn lemma_ordered_member(v: Seq<Float64>, i: int)
    requires
        0 <= i < ordered(v).len(),
    ensures
        v.contains(ordered(v)[i]),
{
    let x = ordered(v)[i];
    lemma_ordered(v);
    assert(ordered(v).contains(x));
    lemma_filter_member(ordered(v), x);
    assert(ordered(v).filter(at_key(x.key())) == v.filter(at_key(x.key())));
    lemma_filter_member(v, x);
}

} // verus!
