//! Stable ordering of items by an integer key.

use vstd::prelude::*;
use vstd::seq_lib::lemma_sorted_unique;
use vstd::relations::{sorted_by, total_ordering};

verus! {

/// Position `a` comes before position `b`: its key is smaller, or equal and it stands earlier.
pub open spec fn comes_first(keys: Seq<i32>, a: int, b: int) -> bool {
    keys[a] < keys[b] || (keys[a] == keys[b] && a < b)
}

/// `order` lists positions of `keys` by increasing key, equal keys as they stand.
pub open spec fn in_order(keys: Seq<i32>, order: Seq<int>) -> bool {
    &&& forall|i: int| 0 <= i < order.len() ==> 0 <= #[trigger] order[i] < keys.len()
    &&& forall|i: int, j: int|
        0 <= i < j < order.len() ==> comes_first(keys, #[trigger] order[i], #[trigger] order[j])
}

/// `order` lists every position of `keys` by increasing key, equal keys as they stand.
pub open spec fn is_stable_order(keys: Seq<i32>, order: Seq<int>) -> bool {
    in_order(keys, order) && order.len() == keys.len()
}

/// The positions of `keys` by increasing key, equal keys as they stand.
pub open spec fn stable_order(keys: Seq<i32>) -> Seq<int> {
    choose|order: Seq<int>| is_stable_order(keys, order)
}

/// A list in order holds no position twice.
pub proof fn lemma_in_order_distinct(keys: Seq<i32>, order: Seq<int>)
    requires
        in_order(keys, order),
    ensures
        order.no_duplicates(),
{
    assert forall|i: int, j: int| 0 <= i < order.len() && 0 <= j < order.len() && i
        != j implies order[i] != order[j] by {
        let (a, b) = if i < j { (i, j) } else { (j, i) };
        assert(comes_first(keys, order[a], order[b]));
    }
}

proof fn lemma_stable_order_covers(keys: Seq<i32>, order: Seq<int>)
    requires
        is_stable_order(keys, order),
    ensures
        order.to_set() == vstd::set_lib::set_int_range(0, keys.len() as int),
        order.no_duplicates(),
{
    let all = vstd::set_lib::set_int_range(0, keys.len() as int);
    lemma_in_order_distinct(keys, order);
    order.unique_seq_to_set();
    vstd::set_lib::lemma_int_range(0, keys.len() as int);
    assert(order.to_set().subset_of(all));
    vstd::set_lib::lemma_subset_equality(order.to_set(), all);
}

/// Every position occurs in a stable order.
pub proof fn lemma_stable_order_lists(keys: Seq<i32>, order: Seq<int>, p: int)
    requires
        is_stable_order(keys, order),
        0 <= p < keys.len(),
    ensures
        order.contains(p),
{
    lemma_stable_order_covers(keys, order);
    assert(order.to_set().contains(p));
}

/// There is only one stable order.
pub proof fn lemma_stable_order_unique(keys: Seq<i32>, order: Seq<int>)
    requires
        is_stable_order(keys, order),
    ensures
        order == stable_order(keys),
{
    let other = stable_order(keys);
    assert(is_stable_order(keys, other));
    lemma_stable_order_covers(keys, order);
    lemma_stable_order_covers(keys, other);
    let leq = |a: int, b: int| a == b || comes_first(keys, a, b);
    assert(total_ordering(leq));
    assert(sorted_by(order, leq));
    assert(sorted_by(other, leq));
    assert(order.to_multiset() =~= other.to_multiset()) by {
        order.lemma_multiset_has_no_duplicates();
        other.lemma_multiset_has_no_duplicates();
        broadcast use vstd::seq_lib::to_multiset_contains;

        assert forall|v: int| order.to_multiset().count(v) == other.to_multiset().count(v) by {
            assert(order.contains(v) <==> order.to_set().contains(v));
            assert(other.contains(v) <==> other.to_set().contains(v));
        }
    }
    lemma_sorted_unique(order, other, leq);
}

/// The first position of an ordered list whose key is above `key`.
proof fn lemma_first_above(keys: Seq<i32>, order: Seq<int>, key: i32) -> (at: int)
    requires
        in_order(keys, order),
    ensures
        0 <= at <= order.len(),
        forall|i: int| 0 <= i < at ==> keys[#[trigger] order[i]] <= key,
        forall|i: int| at <= i < order.len() ==> keys[#[trigger] order[i]] > key,
    decreases order.len(),
{
    if order.len() == 0 || keys[order.last()] <= key {
        assert forall|i: int| 0 <= i < order.len() implies keys[#[trigger] order[i]] <= key by {
            if i < order.len() - 1 {
                assert(comes_first(keys, order[i], order[order.len() - 1]));
            }
        }
        order.len() as int
    } else {
        let front = order.drop_last();
        assert(in_order(keys, front));
        let at = lemma_first_above(keys, front, key);
        assert forall|i: int| 0 <= i < at implies keys[#[trigger] order[i]] <= key by {
            assert(front[i] == order[i]);
        }
        assert forall|i: int| at <= i < order.len() implies keys[#[trigger] order[i]] > key by {
            if i < front.len() {
                assert(front[i] == order[i]);
            }
        }
        at
    }
}

proof fn lemma_stable_order_exists(keys: Seq<i32>) -> (order: Seq<int>)
    ensures
        is_stable_order(keys, order),
    decreases keys.len(),
{
    if keys.len() == 0 {
        Seq::empty()
    } else {
        let rest = keys.drop_last();
        let front = lemma_stable_order_exists(rest);
        assert forall|i: int, j: int| 0 <= i < j < front.len() implies comes_first(
            keys,
            #[trigger] front[i],
            #[trigger] front[j],
        ) by {
            assert(comes_first(rest, front[i], front[j]));
        }
        assert(in_order(keys, front));
        let last = keys.len() - 1;
        let at = lemma_first_above(keys, front, keys[last]);
        let order = front.insert(at, last);
        assert forall|i: int, j: int| 0 <= i < j < order.len() implies comes_first(
            keys,
            #[trigger] order[i],
            #[trigger] order[j],
        ) by {
            let oi = if i < at { i } else { i - 1 };
            let oj = if j < at { j } else { j - 1 };
            if i == at {
                assert(order[j] == front[oj]);
            } else if j == at {
                assert(order[i] == front[oi]);
            } else {
                assert(order[i] == front[oi] && order[j] == front[oj]);
            }
        }
        assert forall|i: int| 0 <= i < order.len() implies 0 <= #[trigger] order[i] < keys.len() by {
            if i < at {
                assert(order[i] == front[i]);
            } else if i > at {
                assert(order[i] == front[i - 1]);
            }
        }
        order
    }
}

/// `stable_order` is a stable order.
pub proof fn lemma_stable_order(keys: Seq<i32>)
    ensures
        is_stable_order(keys, stable_order(keys)),
{
    let order = lemma_stable_order_exists(keys);
    assert(is_stable_order(keys, order));
}

/// The first `n` of `items` by increasing key (all of them if there are fewer), equal
/// keys as they stand.
pub open spec fn first_by_key<A>(items: Seq<A>, keys: Seq<i32>, n: nat) -> Seq<A> {
    let order = stable_order(keys);
    let count = if n < items.len() { n } else { items.len() };
    Seq::new(count, |i: int| items[order[i]])
}

/// `first_by_key` gives `n` items (or all, if there are fewer), by increasing key, and
/// an item that it leaves out has no smaller key than any that it gives.
pub proof fn lemma_first_by_key<A>(items: Seq<A>, keys: Seq<i32>, n: nat)
    requires
        keys.len() == items.len(),
    ensures
        ({
            let first = first_by_key(items, keys, n);
            let order = stable_order(keys);
            &&& order.len() == items.len()
            &&& first.len() == if n < items.len() { n } else { items.len() }
            &&& forall|i: int|
                0 <= i < first.len() ==> {
                    &&& 0 <= #[trigger] order[i] < items.len()
                    &&& first[i] == items[order[i]]
                }
            &&& forall|i: int, j: int|
                0 <= i < j < first.len() ==> keys[#[trigger] order[i]] <= keys[#[trigger] order[j]]
            &&& forall|p: int|
                #![trigger items[p]]
                0 <= p < items.len() && !first.contains(items[p]) ==> {
                    &&& first.len() == n
                    &&& forall|i: int|
                        0 <= i < first.len() ==> keys[#[trigger] order[i]] <= keys[p]
                }
        }),
{
    let first = first_by_key(items, keys, n);
    let order = stable_order(keys);
    lemma_stable_order(keys);
    assert forall|i: int, j: int| 0 <= i < j < first.len() implies keys[#[trigger] order[i]]
        <= keys[#[trigger] order[j]] by {
        assert(comes_first(keys, order[i], order[j]));
    }
    assert forall|p: int|
        #![trigger items[p]]
        0 <= p < items.len() && !first.contains(items[p]) implies {
        &&& first.len() == n
        &&& forall|i: int| 0 <= i < first.len() ==> keys[#[trigger] order[i]] <= keys[p]
    } by {
        lemma_stable_order_lists(keys, order, p);
        let r = choose|r: int| 0 <= r < order.len() && order[r] == p;
        if r < first.len() {
            assert(first[r] == items[p]);
        }
        assert forall|i: int| 0 <= i < first.len() implies keys[#[trigger] order[i]]
            <= keys[p] by {
            assert(comes_first(keys, order[i], order[r]));
        }
    }
}

/// Positions as mathematical integers.
pub open spec fn positions(order: Seq<usize>) -> Seq<int> {
    order.map_values(|p: usize| p as int)
}

/// The positions of `keys` by increasing key, equal keys as they stand.
pub fn order_by_key(keys: &Vec<i32>) -> (order: Vec<usize>)
    ensures
        positions(order@) == stable_order(keys@),
        is_stable_order(keys@, positions(order@)),
{
    let order = order_range(keys, 0, keys.len());
    proof {
        lemma_stable_order_unique(keys@, positions(order@));
    }
    order
}

/// Orders the positions from `low` up to `high`.
fn order_range(keys: &Vec<i32>, low: usize, high: usize) -> (order: Vec<usize>)
    requires
        low <= high <= keys@.len(),
    ensures
        in_order(keys@, positions(order@)),
        order@.len() == high - low,
        forall|i: int| 0 <= i < order@.len() ==> low <= #[trigger] order@[i] < high,
    decreases high - low,
{
    let mut order: Vec<usize> = Vec::new();
    if high - low == 0 {
        return order;
    }
    if high - low == 1 {
        order.push(low);
        return order;
    }
    let mid: usize = low + (high - low) / 2;
    let left = order_range(keys, low, mid);
    let right = order_range(keys, mid, high);
    let ghost sorted_left = positions(left@);
    let ghost sorted_right = positions(right@);
    let mut i: usize = 0;
    let mut j: usize = 0;
    while i < left.len() || j < right.len()
        invariant
            low <= mid <= high <= keys@.len(),
            sorted_left == positions(left@),
            sorted_right == positions(right@),
            in_order(keys@, sorted_left),
            in_order(keys@, sorted_right),
            left@.len() == mid - low,
            right@.len() == high - mid,
            forall|k: int| 0 <= k < left@.len() ==> low <= #[trigger] left@[k] < mid,
            forall|k: int| 0 <= k < right@.len() ==> mid <= #[trigger] right@[k] < high,
            i <= left@.len(),
            j <= right@.len(),
            order@.len() == i + j,
            in_order(keys@, positions(order@)),
            forall|k: int| 0 <= k < order@.len() ==> low <= #[trigger] order@[k] < high,
            forall|k: int, l: int|
                0 <= k < order@.len() && i <= l < left@.len() ==> comes_first(
                    keys@,
                    #[trigger] order@[k] as int,
                    #[trigger] left@[l] as int,
                ),
            forall|k: int, l: int|
                0 <= k < order@.len() && j <= l < right@.len() ==> comes_first(
                    keys@,
                    #[trigger] order@[k] as int,
                    #[trigger] right@[l] as int,
                ),
        decreases left@.len() - i + right@.len() - j,
    {
        let ghost before = order@;
        let from_left: bool = if i == left.len() {
            false
        } else if j == right.len() {
            true
        } else {
            keys[left[i]] <= keys[right[j]]
        };
        let next: usize = if from_left { left[i] } else { right[j] };
        proof {
            assert forall|l: int| i <= l < left@.len() && (from_left ==> l > i) implies comes_first(
                keys@,
                next as int,
                #[trigger] left@[l] as int,
            ) by {
                assert(sorted_left[l] == left@[l] as int);
                assert(sorted_left[i as int] == left@[i as int] as int);
                if l > i {
                    assert(comes_first(keys@, sorted_left[i as int], sorted_left[l]));
                }
            }
            assert forall|l: int| j <= l < right@.len() && (!from_left ==> l
                > j) implies comes_first(keys@, next as int, #[trigger] right@[l] as int) by {
                assert(sorted_right[l] == right@[l] as int);
                assert(sorted_right[j as int] == right@[j as int] as int);
                if l > j {
                    assert(comes_first(keys@, sorted_right[j as int], sorted_right[l]));
                }
            }
        }
        order.push(next);
        if from_left {
            i = i + 1;
        } else {
            j = j + 1;
        }
        proof {
            let now = positions(order@);
            assert forall|a: int, b: int| 0 <= a < b < now.len() implies comes_first(
                keys@,
                #[trigger] now[a],
                #[trigger] now[b],
            ) by {
                assert(now[a] == before[a] as int);
                if b < before.len() {
                    assert(positions(before)[a] == before[a] as int);
                    assert(positions(before)[b] == before[b] as int);
                }
            }
            assert(in_order(keys@, now));
        }
    }
    order
}

/// The stable order lists every position once, by increasing key, and equal keys as they
/// stand.
pub proof fn law_stable_order_lists_positions_by_key(keys: Seq<i32>)
    ensures
        stable_order(keys).len() == keys.len(),
        stable_order(keys).no_duplicates(),
        forall|i: int|
            0 <= i < keys.len() ==> 0 <= #[trigger] stable_order(keys)[i] < keys.len(),
        forall|i: int, j: int|
            0 <= i < j < keys.len() ==> {
                ||| keys[#[trigger] stable_order(keys)[i]] < keys[#[trigger] stable_order(keys)[j]]
                ||| keys[stable_order(keys)[i]] == keys[stable_order(keys)[j]] && stable_order(
                    keys,
                )[i] < stable_order(keys)[j]
            },
{
    let order = stable_order(keys);
    lemma_stable_order(keys);
    lemma_in_order_distinct(keys, order);
    assert forall|i: int, j: int| 0 <= i < j < keys.len() implies {
        ||| keys[#[trigger] order[i]] < keys[#[trigger] order[j]]
        ||| keys[order[i]] == keys[order[j]] && order[i] < order[j]
    } by {
        assert(comes_first(keys, order[i], order[j]));
    }
}

} // verus!
