//! Finite maps from days to values, read in the order of their days.
//!
//! A finite map has exactly one listing: the sequence of its entries by
//! ascending key. Sums over a map are defined on that sequence. The lemmas
//! here connect a listing that a collection hands out with the listing of
//! its contents.

use vstd::prelude::*;

use crate::collections::lists;

verus! {

/// The entries of `m` by ascending key, where `m` is finite.
pub open spec fn listing<V>(m: Map<int, V>) -> Seq<(int, V)> {
    choose|s: Seq<(int, V)>| lists(s, m)
}

/// The sum of the first `n` values of `s`.
pub open spec fn sum_first(s: Seq<(int, int)>, n: int) -> int
    decreases n,
{
    if n <= 0 {
        0
    } else {
        sum_first(s, n - 1) + s[n - 1].1
    }
}

/// Among the first `n` entries of `s`, the sum of the values whose key is at
/// most `day`.
pub open spec fn sum_until(s: Seq<(int, int)>, day: int, n: int) -> int
    decreases n,
{
    if n <= 0 {
        0
    } else {
        sum_until(s, day, n - 1) + if s[n - 1].0 <= day {
            s[n - 1].1
        } else {
            0
        }
    }
}

/// The sum of all values of `m`.
pub open spec fn total(m: Map<int, int>) -> int {
    sum_first(listing(m), listing(m).len() as int)
}

/// The sum of the values of `m` at `day` and before.
pub open spec fn total_upto(m: Map<int, int>, day: int) -> int {
    sum_until(listing(m), day, listing(m).len() as int)
}

/// The last entry of a listing has the greatest key, and the entries before
/// it list the map without that key.
pub proof fn lemma_lists_last<V>(s: Seq<(int, V)>, m: Map<int, V>)
    requires
        lists(s, m),
        s.len() > 0,
    ensures
        lists(s.drop_last(), m.remove(s.last().0)),
        m.contains_pair(s.last().0, s.last().1),
        forall|k: int| m.contains_key(k) ==> k <= s.last().0,
{
    let t = s.drop_last();
    let top = s.last().0;
    let rest = m.remove(top);
    assert(s[s.len() - 1] == s.last());
    assert forall|i: int| 0 <= i < t.len() implies rest.contains_pair((#[trigger] t[i]).0, t[i].1) by {
        assert(t[i] == s[i]);
        assert(s[i].0 < s[s.len() - 1].0);
    }
    assert forall|k: int| #[trigger] rest.contains_key(k) implies exists|i: int|
        0 <= i < t.len() && (#[trigger] t[i]).0 == k by {
        assert(m.contains_key(k));
        let i = choose|i: int| 0 <= i < s.len() && (#[trigger] s[i]).0 == k;
        assert(i < s.len() - 1);
        assert(t[i] == s[i]);
    }
    assert forall|i: int, j: int| 0 <= i < j < t.len() implies (#[trigger] t[i]).0 < (
    #[trigger] t[j]).0 by {
        assert(t[i] == s[i]);
        assert(t[j] == s[j]);
    }
    assert forall|k: int| m.contains_key(k) implies k <= top by {
        let i = choose|i: int| 0 <= i < s.len() && (#[trigger] s[i]).0 == k;
        if i < s.len() - 1 {
            assert(s[i].0 < s[s.len() - 1].0);
        }
    }
}

/// A map has at most one listing.
pub proof fn lemma_lists_unique<V>(s: Seq<(int, V)>, t: Seq<(int, V)>, m: Map<int, V>)
    requires
        lists(s, m),
        lists(t, m),
    ensures
        s == t,
    decreases s.len(),
{
    if s.len() == 0 {
        if t.len() > 0 {
            assert(m.contains_key(t[0].0));
        }
        assert(s =~= t);
    } else {
        assert(m.contains_key(s[0].0));
        assert(t.len() > 0);
        lemma_lists_last(s, m);
        lemma_lists_last(t, m);
        assert(m.contains_key(s.last().0));
        assert(m.contains_key(t.last().0));
        assert(s.last() == t.last());
        lemma_lists_unique(s.drop_last(), t.drop_last(), m.remove(s.last().0));
        assert(s =~= s.drop_last().push(s.last()));
        assert(t =~= t.drop_last().push(t.last()));
    }
}

/// A map with a listing is finite and has as many keys as the listing has
/// entries.
pub proof fn lemma_lists_finite<V>(s: Seq<(int, V)>, m: Map<int, V>)
    requires
        lists(s, m),
    ensures
        m.dom().finite(),
        m.dom().len() == s.len(),
    decreases s.len(),
{
    if s.len() == 0 {
        assert(m.dom() =~= Set::empty());
    } else {
        lemma_lists_last(s, m);
        let top = s.last().0;
        lemma_lists_finite(s.drop_last(), m.remove(top));
        assert(m.dom() =~= m.remove(top).dom().insert(top));
    }
}

/// A listing of `m` is the listing of `m`.
pub proof fn lemma_listing<V>(s: Seq<(int, V)>, m: Map<int, V>)
    requires
        lists(s, m),
    ensures
        listing(m) == s,
        lists(listing(m), m),
{
    lemma_lists_unique(s, listing(m), m);
}

/// A finite, non-empty set of integers has a greatest member.
pub proof fn lemma_greatest_member(s: Set<int>)
    requires
        s.finite(),
        s.len() > 0,
    ensures
        exists|k: int| s.contains(k) && forall|j: int| s.contains(j) ==> j <= k,
    decreases s.len(),
{
    let x = s.choose();
    let rest = s.remove(x);
    if rest.len() == 0 {
        assert forall|j: int| s.contains(j) implies j <= x by {
            if j != x {
                assert(rest.contains(j));
            }
        }
    } else {
        lemma_greatest_member(rest);
        let k = choose|k: int| rest.contains(k) && forall|j: int| rest.contains(j) ==> j <= k;
        let top = if x <= k {
            k
        } else {
            x
        };
        assert forall|j: int| s.contains(j) implies j <= top by {
            if j != x {
                assert(rest.contains(j));
            }
        }
        assert(s.contains(top));
    }
}

/// Every finite map has a listing.
pub proof fn lemma_listing_exists<V>(m: Map<int, V>)
    requires
        m.dom().finite(),
    ensures
        lists(listing(m), m),
    decreases m.dom().len(),
{
    if m.dom().len() == 0 {
        let s = Seq::<(int, V)>::empty();
        assert forall|k: int| #[trigger] m.contains_key(k) implies exists|i: int|
            0 <= i < s.len() && (#[trigger] s[i]).0 == k by {
            assert(m.dom().contains(k));
        }
        assert(lists(s, m));
    } else {
        lemma_greatest_member(m.dom());
        let top = choose|k: int|
            m.dom().contains(k) && forall|j: int| m.dom().contains(j) ==> j <= k;
        let rest = m.remove(top);
        lemma_listing_exists(rest);
        let t = listing(rest);
        let s = t.push((top, m[top]));
        assert forall|i: int, j: int| 0 <= i < j < s.len() implies (#[trigger] s[i]).0 < (
        #[trigger] s[j]).0 by {
            assert(s[i] == t[i]);
            assert(rest.contains_key(t[i].0));
            assert(m.dom().contains(t[i].0));
            if j < t.len() {
                assert(s[j] == t[j]);
            }
        }
        assert forall|i: int| 0 <= i < s.len() implies m.contains_pair((#[trigger] s[i]).0, s[i].1) by {
            if i < t.len() {
                assert(s[i] == t[i]);
                assert(rest.contains_pair(t[i].0, t[i].1));
            }
        }
        assert forall|k: int| #[trigger] m.contains_key(k) implies exists|i: int|
            0 <= i < s.len() && (#[trigger] s[i]).0 == k by {
            if k == top {
                assert(s[t.len() as int].0 == k);
            } else {
                assert(rest.contains_key(k));
                let i = choose|i: int| 0 <= i < t.len() && (#[trigger] t[i]).0 == k;
                assert(s[i] == t[i]);
            }
        }
        assert(lists(s, m));
    }
}

/// Up to an entry of an ascending sequence, the sum of the values at or
/// before its key is the sum of the values up to and including it.
pub proof fn lemma_sum_until_entry(s: Seq<(int, int)>, i: int, n: int)
    requires
        forall|a: int, b: int| 0 <= a < b < s.len() ==> (#[trigger] s[a]).0 < (#[trigger] s[b]).0,
        0 <= i < s.len(),
        0 <= n <= s.len(),
    ensures
        sum_until(s, s[i].0, n) == sum_first(s, if n <= i + 1 {
            n
        } else {
            i + 1
        }),
    decreases n,
{
    if n > 0 {
        lemma_sum_until_entry(s, i, n - 1);
        if n - 1 < i {
            assert(s[n - 1].0 < s[i].0);
        } else if n - 1 > i {
            assert(s[i].0 < s[n - 1].0);
        }
    }
}

/// From a day that no key exceeds, the sum of the values at or before it is
/// the sum of all values.
pub proof fn lemma_sum_until_all(s: Seq<(int, int)>, day: int, n: int)
    requires
        0 <= n <= s.len(),
        forall|i: int| 0 <= i < s.len() ==> (#[trigger] s[i]).0 <= day,
    ensures
        sum_until(s, day, n) == sum_first(s, n),
    decreases n,
{
    if n > 0 {
        lemma_sum_until_all(s, day, n - 1);
        assert(s[n - 1].0 <= day);
    }
}

/// Where no value is negative, the sum of the values at or before a day does
/// not fall as the day advances.
pub proof fn lemma_sum_until_monotone(s: Seq<(int, int)>, early: int, late: int, n: int)
    requires
        0 <= n <= s.len(),
        early <= late,
        forall|i: int| 0 <= i < s.len() ==> (#[trigger] s[i]).1 >= 0,
    ensures
        sum_until(s, early, n) <= sum_until(s, late, n),
    decreases n,
{
    if n > 0 {
        lemma_sum_until_monotone(s, early, late, n - 1);
        assert(s[n - 1].1 >= 0);
    }
}

} // verus!
