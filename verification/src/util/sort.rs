//! Ordering by a numeric key, keeping the order of equal keys.

use vstd::prelude::*;

verus! {

/// `order` with the index `n` put behind the last index whose key is not
/// greater than that of `n`.
pub open spec fn insert_by_key(order: Seq<int>, keys: Seq<u64>, n: int) -> Seq<int>
    decreases order.len(),
{
    if order.len() == 0 {
        seq![n]
    } else if keys[order.last()] <= keys[n] {
        order.push(n)
    } else {
        insert_by_key(order.drop_last(), keys, n).push(order.last())
    }
}

/// The first `n` indices of `keys` in ascending order of their keys, indices
/// of equal keys in ascending order.
pub open spec fn order_of_first(keys: Seq<u64>, n: nat) -> Seq<int>
    decreases n,
{
    if n == 0 {
        Seq::empty()
    } else {
        insert_by_key(order_of_first(keys, (n - 1) as nat), keys, n - 1)
    }
}

/// The indices of `keys` in ascending order of their keys, indices of equal
/// keys in ascending order.
pub open spec fn order_by_key(keys: Seq<u64>) -> Seq<int> {
    order_of_first(keys, keys.len())
}

/// `order` lists indices below `bound`, each at most once, in ascending
/// order of key and, among equal keys, of index.
pub open spec fn ordered(order: Seq<int>, keys: Seq<u64>, bound: int) -> bool {
    &&& forall|i: int| 0 <= i < order.len() ==> 0 <= #[trigger] order[i] < bound
    &&& forall|i: int, j: int|
        0 <= i < j < order.len() ==> keys[#[trigger] order[i]] < keys[#[trigger] order[j]] || (
        keys[order[i]] == keys[order[j]] && order[i] < order[j])
}

/// Where `insert_by_key` puts `n`: behind the indices whose keys are not
/// greater, before those whose keys are.
proof fn lemma_insert_position(order: Seq<int>, keys: Seq<u64>, n: int) -> (p: int)
    requires
        ordered(order, keys, n),
        0 <= n < keys.len(),
    ensures
        0 <= p <= order.len(),
        insert_by_key(order, keys, n) == order.insert(p, n),
        forall|i: int| 0 <= i < p ==> keys[#[trigger] order[i]] <= keys[n],
        forall|i: int| p <= i < order.len() ==> keys[#[trigger] order[i]] > keys[n],
    decreases order.len(),
{
    if order.len() == 0 {
        assert(seq![n] =~= order.insert(0, n));
        0
    } else if keys[order.last()] <= keys[n] {
        let p = order.len() as int;
        assert(order.push(n) =~= order.insert(p, n));
        assert forall|i: int| 0 <= i < p implies keys[#[trigger] order[i]] <= keys[n] by {
            if i < p - 1 {
                assert(keys[order[i]] <= keys[order[p - 1]]);
            }
        }
        p
    } else {
        let front = order.drop_last();
        assert(ordered(front, keys, n)) by {
            assert forall|i: int| 0 <= i < front.len() implies 0 <= #[trigger] front[i] < n by {
                assert(front[i] == order[i]);
            }
            assert forall|i: int, j: int| 0 <= i < j < front.len() implies keys[#[trigger] front[i]]
                < keys[#[trigger] front[j]] || (keys[front[i]] == keys[front[j]] && front[i]
                < front[j]) by {
                assert(front[i] == order[i] && front[j] == order[j]);
            }
        }
        let p = lemma_insert_position(front, keys, n);
        assert(front.insert(p, n).push(order.last()) =~= order.insert(p, n));
        assert forall|i: int| 0 <= i < p implies keys[#[trigger] order[i]] <= keys[n] by {
            assert(front[i] == order[i]);
        }
        assert forall|i: int| p <= i < order.len() implies keys[#[trigger] order[i]] > keys[n] by {
            if i < order.len() - 1 {
                assert(front[i] == order[i]);
            }
        }
        p
    }
}

/// Putting the next index into an ordered list leaves it ordered.
proof fn lemma_insert_ordered(order: Seq<int>, keys: Seq<u64>, n: int)
    requires
        ordered(order, keys, n),
        0 <= n < keys.len(),
    ensures
        ordered(insert_by_key(order, keys, n), keys, n + 1),
        insert_by_key(order, keys, n).len() == order.len() + 1,
        insert_by_key(order, keys, n).contains(n),
        forall|i: int| 0 <= i < order.len() ==> insert_by_key(order, keys, n).contains(order[i]),
{
    let p = lemma_insert_position(order, keys, n);
    let out = order.insert(p, n);
    assert forall|i: int| 0 <= i < out.len() implies 0 <= #[trigger] out[i] < n + 1 by {
        if i < p {
            assert(out[i] == order[i]);
        } else if i > p {
            assert(out[i] == order[i - 1]);
        }
    }
    assert forall|i: int, j: int| 0 <= i < j < out.len() implies keys[#[trigger] out[i]]
        < keys[#[trigger] out[j]] || (keys[out[i]] == keys[out[j]] && out[i] < out[j]) by {
        if j < p {
            assert(out[i] == order[i] && out[j] == order[j]);
        } else if j == p {
            assert(out[i] == order[i]);
        } else if i < p {
            assert(out[i] == order[i] && out[j] == order[j - 1]);
        } else if i == p {
            assert(out[j] == order[j - 1]);
        } else {
            assert(out[i] == order[i - 1] && out[j] == order[j - 1]);
        }
    }
    assert(out[p] == n);
    assert forall|i: int| 0 <= i < order.len() implies out.contains(order[i]) by {
        if i < p {
            assert(out[i] == order[i]);
        } else {
            assert(out[i + 1] == order[i]);
        }
    }
}

/// The order of the first `n` indices lists each of them once, by ascending
/// key, and equal keys by ascending index.
pub proof fn lemma_order_of_first(keys: Seq<u64>, n: nat)
    requires
        n <= keys.len(),
    ensures
        order_of_first(keys, n).len() == n,
        ordered(order_of_first(keys, n), keys, n as int),
        forall|k: int| 0 <= k < n ==> order_of_first(keys, n).contains(k),
    decreases n,
{
    if n > 0 {
        let before = order_of_first(keys, (n - 1) as nat);
        lemma_order_of_first(keys, (n - 1) as nat);
        lemma_insert_ordered(before, keys, n - 1);
        let after = order_of_first(keys, n);
        assert forall|k: int| 0 <= k < n implies after.contains(k) by {
            if k < n - 1 {
                assert(before.contains(k));
                let i = choose|i: int| 0 <= i < before.len() && before[i] == k;
                assert(after.contains(before[i]));
            }
        }
    }
}

/// Ordering by key rearranges the indices: every index of `keys` stands in
/// the order exactly once.
pub proof fn lemma_order_is_permutation(keys: Seq<u64>)
    ensures
        order_by_key(keys).len() == keys.len(),
        forall|i: int|
            0 <= i < keys.len() ==> 0 <= #[trigger] order_by_key(keys)[i] < keys.len(),
        forall|i: int, j: int|
            0 <= i < j < keys.len() ==> #[trigger] order_by_key(keys)[i]
                != #[trigger] order_by_key(keys)[j],
        forall|k: int| 0 <= k < keys.len() ==> order_by_key(keys).contains(k),
{
    lemma_order_of_first(keys, keys.len());
}

/// Ordering by key sorts: keys never fall along the order.
pub proof fn lemma_order_is_sorted(keys: Seq<u64>)
    ensures
        forall|i: int, j: int|
            0 <= i < j < keys.len() ==> keys[#[trigger] order_by_key(keys)[i]]
                <= keys[#[trigger] order_by_key(keys)[j]],
{
    lemma_order_of_first(keys, keys.len());
}

/// Ordering by key is stable: of two indices with equal keys the smaller
/// comes first.
pub proof fn lemma_order_is_stable(keys: Seq<u64>)
    ensures
        forall|i: int, j: int|
            0 <= i < j < keys.len() && keys[#[trigger] order_by_key(keys)[i]]
                == keys[#[trigger] order_by_key(keys)[j]] ==> order_by_key(keys)[i]
                < order_by_key(keys)[j],
{
    lemma_order_of_first(keys, keys.len());
}

/// The indices of `keys` in ascending order of their keys, indices of equal
/// keys in ascending order.
pub fn sorted_order(keys: &Vec<u64>) -> (order: Vec<usize>)
    ensures
        order@.len() == keys@.len(),
        forall|i: int| 0 <= i < order@.len() ==> #[trigger] order@[i] as int == order_by_key(keys@)[i],
{
    let mut order: Vec<usize> = Vec::new();
    let mut n: usize = 0;
    while n < keys.len()
        invariant
            n <= keys@.len(),
            order@.len() == n,
            order@.map_values(|i: usize| i as int) == order_of_first(keys@, n as nat),
        decreases keys@.len() - n,
    {
        let ghost before = order@.map_values(|i: usize| i as int);
        proof {
            lemma_order_of_first(keys@, n as nat);
            assert(before.take(n as int) =~= before);
            assert(insert_by_key(before, keys@, n as int) + before.skip(n as int)
                =~= insert_by_key(before, keys@, n as int));
        }
        let mut p: usize = order.len();
        while p > 0 && keys[order[p - 1]] > keys[n]
            invariant
                p <= order@.len(),
                order@.len() == n,
                n < keys@.len(),
                before == order@.map_values(|i: usize| i as int),
                ordered(before, keys@, n as int),
                insert_by_key(before, keys@, n as int) == insert_by_key(
                    before.take(p as int),
                    keys@,
                    n as int,
                ) + before.skip(p as int),
            decreases p,
        {
            proof {
                let head = before.take(p as int);
                assert(head.last() == before[p - 1]);
                assert(head.drop_last() =~= before.take(p - 1));
                assert(insert_by_key(head, keys@, n as int) == insert_by_key(
                    before.take(p - 1),
                    keys@,
                    n as int,
                ).push(before[p - 1]));
                assert(insert_by_key(before.take(p - 1), keys@, n as int).push(before[p - 1])
                    + before.skip(p as int) =~= insert_by_key(
                    before.take(p - 1),
                    keys@,
                    n as int,
                ) + before.skip(p - 1));
            }
            p -= 1;
        }
        proof {
            let head = before.take(p as int);
            if p == 0 {
                assert(insert_by_key(head, keys@, n as int) == seq![n as int]);
            } else {
                assert(head.last() == before[p - 1]);
                assert(insert_by_key(head, keys@, n as int) == head.push(n as int));
            }
            assert(insert_by_key(head, keys@, n as int) + before.skip(p as int) =~= before.insert(
                p as int,
                n as int,
            ));
            assert(order@.insert(p as int, n).map_values(|i: usize| i as int) =~= before.insert(
                p as int,
                n as int,
            ));
        }
        order.insert(p, n);
        n += 1;
    }
    proof {
        assert forall|i: int| 0 <= i < order@.len() implies #[trigger] order@[i] as int
            == order_by_key(keys@)[i] by {
            assert(order@.map_values(|i: usize| i as int)[i] == order@[i] as int);
        }
    }
    order
}

} // verus!
