//! Sorting texts by their characters, keeping equal ones in their order.

use vstd::prelude::*;

use crate::text::{copy, rows};

verus! {

/// Whether `a` comes before `b` or is equal to it: by the first character in
/// which they differ, and a prefix before what extends it.
pub open spec fn at_most(a: Seq<char>, b: Seq<char>) -> bool
    decreases a.len(),
{
    if a.len() == 0 {
        true
    } else if b.len() == 0 {
        false
    } else if a[0] == b[0] {
        at_most(a.skip(1), b.skip(1))
    } else {
        a[0] < b[0]
    }
}

/// How many of the leading positions in `order` have keys that come no later
/// than `key`.
pub open spec fn slot(order: Seq<int>, keys: Seq<Seq<char>>, key: Seq<char>) -> int
    decreases order.len(),
{
    if order.len() > 0 && !at_most(keys[order.last()], key) {
        slot(order.drop_last(), keys, key)
    } else {
        order.len() as int
    }
}

/// The first `n` positions in the order of their keys; equal keys stay in
/// order of position.
pub open spec fn order_of(keys: Seq<Seq<char>>, n: int) -> Seq<int>
    decreases n,
{
    if n <= 0 {
        Seq::empty()
    } else {
        let before = order_of(keys, n - 1);
        before.insert(slot(before, keys, keys[n - 1]), n - 1)
    }
}

/// Texts put in order.
pub open spec fn sorted(keys: Seq<Seq<char>>) -> Seq<Seq<char>> {
    let order = order_of(keys, keys.len() as int);
    Seq::new(keys.len(), |i: int| keys[order[i]])
}

proof fn lemma_at_most_total(a: Seq<char>, b: Seq<char>)
    ensures
        at_most(a, b) || at_most(b, a),
    decreases a.len(),
{
    if a.len() > 0 && b.len() > 0 && a[0] == b[0] {
        lemma_at_most_total(a.skip(1), b.skip(1));
    }
}

proof fn lemma_at_most_transitive(a: Seq<char>, b: Seq<char>, c: Seq<char>)
    requires
        at_most(a, b),
        at_most(b, c),
    ensures
        at_most(a, c),
    decreases a.len(),
{
    if a.len() > 0 && a[0] == b[0] && b[0] == c[0] {
        lemma_at_most_transitive(a.skip(1), b.skip(1), c.skip(1));
    }
}

proof fn lemma_slot(order: Seq<int>, keys: Seq<Seq<char>>, key: Seq<char>)
    ensures
        0 <= slot(order, keys, key) <= order.len(),
        slot(order, keys, key) > 0 ==> at_most(keys[order[slot(order, keys, key) - 1]], key),
        forall|j: int|
            slot(order, keys, key) <= j < order.len() ==> !at_most(keys[#[trigger] order[j]], key),
    decreases order.len(),
{
    if order.len() > 0 && !at_most(keys[order.last()], key) {
        lemma_slot(order.drop_last(), keys, key);
        let s = slot(order, keys, key);
        assert forall|j: int| s <= j < order.len() implies !at_most(keys[#[trigger] order[j]], key) by {
            if j < order.len() - 1 {
                assert(order[j] == order.drop_last()[j]);
            }
        }
        if s > 0 {
            assert(order[s - 1] == order.drop_last()[s - 1]);
        }
    }
}

/// Sorting arranges every position exactly once, with the keys in order.
pub proof fn lemma_order(keys: Seq<Seq<char>>, n: int)
    requires
        0 <= n <= keys.len(),
    ensures
        order_of(keys, n).len() == n,
        forall|i: int| 0 <= i < n ==> 0 <= #[trigger] order_of(keys, n)[i] < n,
        forall|i: int, j: int|
            0 <= i < j < n ==> #[trigger] order_of(keys, n)[i] != #[trigger] order_of(keys, n)[j],
        forall|k: int| 0 <= k < n ==> #[trigger] order_of(keys, n).contains(k),
        forall|i: int, j: int|
            0 <= i < j < n ==> at_most(
                keys[#[trigger] order_of(keys, n)[i]],
                keys[#[trigger] order_of(keys, n)[j]],
            ),
    decreases n,
{
    if n > 0 {
        lemma_order(keys, n - 1);
        let before = order_of(keys, n - 1);
        let key = keys[n - 1];
        let s = slot(before, keys, key);
        lemma_slot(before, keys, key);
        let order = order_of(keys, n);
        assert(order =~= before.insert(s, n - 1));
        assert forall|i: int| 0 <= i < n implies #[trigger] order[i] == (if i < s {
            before[i]
        } else if i == s {
            n - 1
        } else {
            before[i - 1]
        }) by {}
        assert forall|k: int| 0 <= k < n implies #[trigger] order.contains(k) by {
            if k == n - 1 {
                assert(order[s] == k);
            } else {
                assert(before.contains(k));
                let i = choose|i: int| 0 <= i < before.len() && before[i] == k;
                if i < s {
                    assert(order[i] == k);
                } else {
                    assert(order[i + 1] == k);
                }
            }
        }
        assert forall|i: int, j: int| 0 <= i < j < n implies at_most(
            keys[#[trigger] order[i]],
            keys[#[trigger] order[j]],
        ) by {
            if j == s {
                if i < s - 1 {
                    assert(at_most(keys[before[i]], keys[before[s - 1]]));
                    lemma_at_most_transitive(keys[before[i]], keys[before[s - 1]], key);
                }
            } else if i == s {
                lemma_at_most_total(key, keys[before[j - 1]]);
            }
        }
    }
}

/// Sorting is stable: of two equal keys the earlier one stays first.
pub proof fn lemma_order_stable(keys: Seq<Seq<char>>, n: int, i: int, j: int)
    requires
        0 <= n <= keys.len(),
        0 <= i < j < n,
        keys[order_of(keys, n)[i]] == keys[order_of(keys, n)[j]],
    ensures
        order_of(keys, n)[i] < order_of(keys, n)[j],
    decreases n,
{
    lemma_order(keys, n);
    lemma_order(keys, n - 1);
    let before = order_of(keys, n - 1);
    let key = keys[n - 1];
    let s = slot(before, keys, key);
    lemma_slot(before, keys, key);
    let order = order_of(keys, n);
    assert(order =~= before.insert(s, n - 1));
    if j == s {
        assert(order[i] == before[i]);
    } else if i == s {
        assert(order[j] == before[j - 1]);
        lemma_at_most_total(key, key);
    } else {
        let a = if i < s { i } else { i - 1 };
        let b = if j < s { j } else { j - 1 };
        assert(order[i] == before[a] && order[j] == before[b]);
        lemma_order_stable(keys, n - 1, a, b);
    }
}

/// Whether `a` comes before `b` or is equal to it.
pub fn precedes(a: &[char], b: &[char]) -> (r: bool)
    ensures
        r == at_most(a@, b@),
{
    let mut i: usize = 0;
    assert(a@.skip(0) =~= a@);
    assert(b@.skip(0) =~= b@);
    while i < a.len()
        invariant
            i <= a@.len(),
            i <= b@.len(),
            at_most(a@, b@) == at_most(a@.skip(i as int), b@.skip(i as int)),
        decreases a@.len() - i,
    {
        if i >= b.len() {
            return false;
        }
        if a[i] != b[i] {
            return a[i] < b[i];
        }
        proof {
            assert(a@.skip(i as int).skip(1) =~= a@.skip(i + 1));
            assert(b@.skip(i as int).skip(1) =~= b@.skip(i + 1));
        }
        i += 1;
    }
    true
}

/// The views of positions.
pub open spec fn positions(v: Seq<usize>) -> Seq<int> {
    Seq::new(v.len(), |i: int| v[i] as int)
}

/// The positions of `keys` in the order of the keys.
pub fn sort_order(keys: &[Vec<char>]) -> (r: Vec<usize>)
    ensures
        positions(r@) == order_of(rows(keys@), keys@.len() as int),
{
    let mut order: Vec<usize> = Vec::new();
    let mut n: usize = 0;
    let ghost all = rows(keys@);
    assert(positions(order@) =~= order_of(all, 0));
    while n < keys.len()
        invariant
            n <= keys@.len(),
            all == rows(keys@),
            order@.len() == n,
            positions(order@) == order_of(all, n as int),
        decreases keys@.len() - n,
    {
        proof {
            lemma_order(all, n as int);
        }
        let mut s: usize = order.len();
        assert(positions(order@).take(s as int) =~= positions(order@));
        while s > 0 && !precedes(keys[order[s - 1]].as_slice(), keys[n].as_slice())
            invariant
                n < keys@.len(),
                s <= order@.len(),
                order@.len() == n,
                all == rows(keys@),
                positions(order@) == order_of(all, n as int),
                forall|i: int| 0 <= i < n ==> 0 <= #[trigger] order_of(all, n as int)[i] < n,
                slot(positions(order@), all, all[n as int]) == slot(
                    positions(order@).take(s as int),
                    all,
                    all[n as int],
                ),
            decreases s,
        {
            proof {
                let p = positions(order@).take(s as int);
                assert(p.last() == order@[s - 1] as int);
                assert(p.drop_last() =~= positions(order@).take(s - 1));
                assert(0 <= order_of(all, n as int)[s - 1] < n);
            }
            s -= 1;
            proof {
                if s > 0 {
                    assert(0 <= order_of(all, n as int)[s - 1] < n);
                    assert(positions(order@)[s - 1] == order@[s - 1] as int);
                }
            }
        }
        let ghost old_order = order@;
        order.insert(s, n);
        proof {
            assert(positions(order@) =~= positions(old_order).insert(s as int, n as int));
        }
        n += 1;
    }
    order
}

/// Puts texts in order.
pub fn sort_texts(keys: &[Vec<char>]) -> (r: Vec<Vec<char>>)
    ensures
        rows(r@) == sorted(rows(keys@)),
{
    let order = sort_order(keys);
    let ghost all = rows(keys@);
    proof {
        lemma_order(all, all.len() as int);
    }
    let mut out: Vec<Vec<char>> = Vec::new();
    let mut i: usize = 0;
    while i < order.len()
        invariant
            i <= order@.len(),
            all == rows(keys@),
            order@.len() == keys@.len(),
            positions(order@) == order_of(all, all.len() as int),
            forall|k: int|
                0 <= k < all.len() ==> 0 <= #[trigger] order_of(all, all.len() as int)[k]
                    < all.len(),
            out@.len() == i,
            forall|k: int| 0 <= k < i ==> (#[trigger] out@[k])@ == sorted(all)[k],
        decreases order@.len() - i,
    {
        proof {
            assert(positions(order@)[i as int] == order@[i as int] as int);
            assert(0 <= order_of(all, all.len() as int)[i as int] < all.len());
        }
        out.push(copy(keys[order[i]].as_slice()));
        i += 1;
    }
    assert(rows(out@) =~= sorted(all));
    out
}

} // verus!
