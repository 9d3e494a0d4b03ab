//! The order in which components are ranked: by descending key, ties kept in
//! the order of their indices.

use vstd::prelude::*;

verus! {

/// Index `a` is ranked before index `b`: its key is larger, or the keys are
/// equal and `a` is the smaller index.
pub open spec fn ranks_before(keys: Seq<int>, a: int, b: int) -> bool {
    keys[a] > keys[b] || (keys[a] == keys[b] && a < b)
}

/// `order` lists every index of `keys` exactly once, by descending key, with
/// equal keys in ascending index order.
pub open spec fn is_stable_descending_order(order: Seq<int>, keys: Seq<int>) -> bool {
    &&& order.len() == keys.len()
    &&& forall|i: int| 0 <= i < order.len() ==> 0 <= #[trigger] order[i] < keys.len()
    &&& forall|x: int| 0 <= x < keys.len() ==> #[trigger] order.contains(x)
    &&& forall|i: int, j: int|
        #![trigger order[i], order[j]]
        0 <= i < j < order.len() ==> ranks_before(keys, order[i], order[j])
}

/// The stable descending order of `keys`.
pub open spec fn stable_descending_order(keys: Seq<int>) -> Seq<int> {
    choose|order: Seq<int>| is_stable_descending_order(order, keys)
}

/// The keys, listed in the given order.
pub open spec fn reordered(keys: Seq<int>, order: Seq<int>) -> Seq<int> {
    Seq::new(order.len(), |i: int| keys[order[i]])
}

/// A sequence of keys has at most one stable descending order.
pub proof fn lemma_stable_descending_order_unique(p: Seq<int>, q: Seq<int>, keys: Seq<int>)
    requires
        is_stable_descending_order(p, keys),
        is_stable_descending_order(q, keys),
    ensures
        p == q,
{
    assert forall|i: int| 0 <= i < p.len() implies p[i] == q[i] by {
        lemma_orders_agree_up_to(p, q, keys, i);
    }
    assert(p =~= q);
}

proof fn lemma_orders_agree_up_to(p: Seq<int>, q: Seq<int>, keys: Seq<int>, i: int)
    requires
        is_stable_descending_order(p, keys),
        is_stable_descending_order(q, keys),
        0 <= i < p.len(),
    ensures
        p[i] == q[i],
    decreases i,
{
    let x = p[i];
    let y = q[i];
    if x != y {
        // x occurs somewhere in q and y somewhere in p; neither can occur
        // earlier than i, where the two orders agree
        assert(q.contains(x));
        let jx = choose|j: int| 0 <= j < q.len() && q[j] == x;
        assert(p.contains(y));
        let jy = choose|j: int| 0 <= j < p.len() && p[j] == y;
        if jx < i {
            lemma_orders_agree_up_to(p, q, keys, jx);
            assert(ranks_before(keys, p[jx], p[i]));
        } else if jy < i {
            lemma_orders_agree_up_to(p, q, keys, jy);
            assert(ranks_before(keys, q[jy], q[i]));
        } else {
            assert(ranks_before(keys, q[i], q[jx]));
            assert(ranks_before(keys, p[i], p[jy]));
        }
    }
}

/// Every sequence of keys has a stable descending order.
pub proof fn lemma_stable_descending_order_exists(keys: Seq<int>)
    ensures
        is_stable_descending_order(stable_descending_order(keys), keys),
{
    let order = ranked(keys);
    assert(is_stable_descending_order(order, keys));
}

/// Builds the order by placing the last index into the order of the others.
proof fn ranked(keys: Seq<int>) -> (order: Seq<int>)
    ensures
        is_stable_descending_order(order, keys),
    decreases keys.len(),
{
    if keys.len() == 0 {
        let order = Seq::<int>::empty();
        assert(is_stable_descending_order(order, keys));
        order
    } else {
        let last = keys.len() - 1;
        let others = keys.drop_last();
        let before = ranked(others);
        let at = place_of(others, before, keys[last], 0);
        let order = before.insert(at, last);
        assert forall|x: int| 0 <= x < keys.len() implies #[trigger] order.contains(x) by {
            if x == last {
                assert(order[at] == x);
            } else {
                assert(before.contains(x));
                let i = choose|i: int| 0 <= i < before.len() && before[i] == x;
                if i < at {
                    assert(order[i] == x);
                } else {
                    assert(order[i + 1] == x);
                }
            }
        }
        assert forall|i: int, j: int|
            #![trigger order[i], order[j]]
            0 <= i < j < order.len() implies ranks_before(keys, order[i], order[j]) by {
            let a = if i < at {
                i
            } else {
                i - 1
            };
            let b = if j < at {
                j
            } else {
                j - 1
            };
            if i != at && j != at {
                assert(ranks_before(others, before[a], before[b]));
                assert(others[before[a]] == keys[before[a]]);
                assert(others[before[b]] == keys[before[b]]);
            } else if i == at {
                assert(others[before[b]] == keys[before[b]]);
            } else {
                assert(others[before[a]] == keys[before[a]]);
            }
        }
        order
    }
}

/// The place of a new key among ranked ones: behind every key that is at
/// least as large, in front of every smaller one.
proof fn place_of(keys: Seq<int>, order: Seq<int>, key: int, from: int) -> (at: int)
    requires
        is_stable_descending_order(order, keys),
        0 <= from <= order.len(),
        forall|i: int| 0 <= i < from ==> keys[#[trigger] order[i]] >= key,
    ensures
        from <= at <= order.len(),
        forall|i: int| 0 <= i < at ==> keys[#[trigger] order[i]] >= key,
        forall|i: int| at <= i < order.len() ==> keys[#[trigger] order[i]] < key,
    decreases order.len() - from,
{
    if from == order.len() {
        from
    } else if keys[order[from]] < key {
        assert forall|i: int| from <= i < order.len() implies keys[#[trigger] order[i]] < key by {
            if from < i {
                assert(ranks_before(keys, order[from], order[i]));
            }
        }
        from
    } else {
        place_of(keys, order, key, from + 1)
    }
}

} // verus!
