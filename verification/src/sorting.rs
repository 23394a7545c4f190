//! Stable sorting by a list of texts.
use vstd::prelude::*;

use crate::order::{
    key_lt, key_lt_irreflexive, key_lt_total, key_lt_transitive, Order,
};

verus! {

/// Whether the item at `i` stands before the item at `j` once items are sorted: the smaller key
/// first, and of two equal keys the item that arrived first.
pub open spec fn before(keys: Seq<Seq<Seq<char>>>, i: int, j: int) -> bool {
    key_lt(keys[i], keys[j]) || (keys[i] == keys[j] && i < j)
}

/// Whether `order` lists the indices of `keys` in sorted order.
pub open spec fn sorts(order: Seq<int>, keys: Seq<Seq<Seq<char>>>) -> bool {
    &&& order.len() == keys.len()
    &&& forall|a: int| 0 <= a < order.len() ==> 0 <= #[trigger] order[a] < keys.len()
    &&& forall|a: int, b: int|
        0 <= a < b < order.len() ==> before(keys, #[trigger] order[a], #[trigger] order[b])
}

/// `items` in the order that `order` lists.
pub open spec fn arranged<T>(items: Seq<T>, order: Seq<int>) -> Seq<T> {
    order.map_values(|i: int| items[i])
}

/// Whether `sorted` holds exactly the items of `items`, sorted by `keys`, with items of equal keys
/// in the order in which they arrived.
pub open spec fn is_stable_sort<T>(keys: Seq<Seq<Seq<char>>>, items: Seq<T>, sorted: Seq<T>) -> bool {
    exists|order: Seq<int>| #[trigger] sorts(order, keys) && sorted == arranged(items, order)
}

/// An item that can be sorted.
pub trait Keyed: Sized {
    /// The texts by which the item is sorted, the most significant first.
    spec fn key(&self) -> Seq<Seq<char>>;

    /// Compares the keys of two items.
    fn compare(&self, other: &Self) -> (order: Order)
        ensures
            order == key_order(self.key(), other.key()),
    ;
}

/// What a comparison of the keys `a` and `b` answers.
pub open spec fn key_order(a: Seq<Seq<char>>, b: Seq<Seq<char>>) -> Order {
    if a == b {
        Order::Equal
    } else if key_lt(a, b) {
        Order::Less
    } else {
        Order::Greater
    }
}

/// The keys of `items`, in order.
pub open spec fn keys_of<T: Keyed>(items: Seq<T>) -> Seq<Seq<Seq<char>>> {
    items.map_values(|item: T| item.key())
}

/// The indices that a list of machine integers holds.
pub open spec fn indices(order: Seq<usize>) -> Seq<int> {
    order.map_values(|i: usize| i as int)
}

proof fn before_transitive(keys: Seq<Seq<Seq<char>>>, i: int, j: int, k: int)
    requires
        before(keys, i, j),
        before(keys, j, k),
    ensures
        before(keys, i, k),
{
    if key_lt(keys[i], keys[j]) && key_lt(keys[j], keys[k]) {
        key_lt_transitive(keys[i], keys[j], keys[k]);
    }
}

proof fn before_asymmetric(keys: Seq<Seq<Seq<char>>>, i: int, j: int)
    requires
        before(keys, i, j),
    ensures
        !before(keys, j, i),
        i != j,
{
    key_lt_irreflexive(keys[i]);
    if key_lt(keys[i], keys[j]) && key_lt(keys[j], keys[i]) {
        key_lt_transitive(keys[i], keys[j], keys[i]);
    }
}

/// Lists the indices of `items` in sorted order.
pub fn sort_order<T: Keyed>(items: &Vec<T>) -> (order: Vec<usize>)
    ensures
        sorts(indices(order@), keys_of(items@)),
{
    let mut order: Vec<usize> = Vec::new();
    let mut next: usize = 0;
    let ghost keys = keys_of(items@);
    while next < items.len()
        invariant
            next <= items.len(),
            order@.len() == next,
            keys == keys_of(items@),
            forall|a: int| 0 <= a < order@.len() ==> #[trigger] order@[a] < next,
            forall|a: int, b: int|
                0 <= a < b < order@.len() ==> before(
                    keys,
                    #[trigger] order@[a] as int,
                    #[trigger] order@[b] as int,
                ),
        decreases items.len() - next,
    {
        let mut low: usize = 0;
        let mut high: usize = order.len();
        while low < high
            invariant
                next < items.len(),
                low <= high <= order@.len(),
                order@.len() == next,
                keys == keys_of(items@),
                forall|a: int| 0 <= a < order@.len() ==> #[trigger] order@[a] < next,
                forall|a: int, b: int|
                    0 <= a < b < order@.len() ==> before(
                        keys,
                        #[trigger] order@[a] as int,
                        #[trigger] order@[b] as int,
                    ),
                forall|a: int| 0 <= a < low ==> before(keys, #[trigger] order@[a] as int, next as int),
                forall|a: int|
                    high <= a < order@.len() ==> before(keys, next as int, #[trigger] order@[a] as int),
            decreases high - low,
        {
            let middle: usize = low + (high - low) / 2;
            let at: usize = order[middle];
            let greater = match items[at].compare(&items[next]) {
                Order::Greater => true,
                _ => false,
            };
            if greater {
                proof {
                    key_lt_total(keys[at as int], keys[next as int]);
                    assert(before(keys, next as int, at as int));
                    assert forall|a: int| middle <= a < order@.len() implies before(
                        keys,
                        next as int,
                        #[trigger] order@[a] as int,
                    ) by {
                        if a > middle {
                            before_transitive(keys, next as int, at as int, order@[a] as int);
                        }
                    }
                }
                high = middle;
            } else {
                proof {
                    assert(before(keys, at as int, next as int));
                    assert forall|a: int| 0 <= a < middle + 1 implies before(
                        keys,
                        #[trigger] order@[a] as int,
                        next as int,
                    ) by {
                        if a < middle {
                            before_transitive(keys, order@[a] as int, at as int, next as int);
                        }
                    }
                }
                low = middle + 1;
            }
        }
        order.insert(low, next);
        next = next + 1;
    }
    order
}

/// The indices that a sorting order lists are exactly the indices of the keys.
pub proof fn sorts_is_permutation(order: Seq<int>, keys: Seq<Seq<Seq<char>>>)
    requires
        sorts(order, keys),
    ensures
        order.no_duplicates(),
        forall|i: int| 0 <= i < keys.len() <==> #[trigger] order.contains(i),
{
    assert forall|a: int, b: int| 0 <= a < order.len() && 0 <= b < order.len() && a != b implies order[a]
        != order[b] by {
        if a < b {
            before_asymmetric(keys, order[a], order[b]);
        } else {
            before_asymmetric(keys, order[b], order[a]);
        }
    }
    let range = vstd::set_lib::set_int_range(0, keys.len() as int);
    vstd::set_lib::lemma_int_range(0, keys.len() as int);
    order.unique_seq_to_set();
    assert forall|i: int| order.to_set().contains(i) implies range.contains(i) by {
        let a = choose|a: int| 0 <= a < order.len() && order[a] == i;
        assert(order[a] == i);
    }
    vstd::set_lib::lemma_subset_equality(order.to_set(), range);
    assert forall|i: int| 0 <= i < keys.len() <==> #[trigger] order.contains(i) by {
        assert(range.contains(i) <==> order.to_set().contains(i));
    }
}

/// There is only one way to sort: two orders that sort the same keys are the same order.
pub proof fn sorts_is_unique(first: Seq<int>, second: Seq<int>, keys: Seq<Seq<Seq<char>>>)
    requires
        sorts(first, keys),
        sorts(second, keys),
    ensures
        first == second,
{
    sorts_is_permutation(first, keys);
    sorts_is_permutation(second, keys);
    assert forall|k: int| 0 <= k < first.len() implies first[k] == second[k] by {
        sorts_agree_up_to(first, second, keys, k + 1);
    }
    assert(first =~= second);
}

proof fn sorts_agree_up_to(first: Seq<int>, second: Seq<int>, keys: Seq<Seq<Seq<char>>>, n: int)
    requires
        sorts(first, keys),
        sorts(second, keys),
        0 <= n <= keys.len(),
    ensures
        forall|k: int| 0 <= k < n ==> first[k] == second[k],
    decreases n,
{
    if n > 0 {
        let k = n - 1;
        sorts_agree_up_to(first, second, keys, k);
        sorts_is_permutation(first, keys);
        sorts_is_permutation(second, keys);
        assert(second.contains(first[k]));
        let p = choose|p: int| 0 <= p < second.len() && second[p] == first[k];
        assert(first.contains(second[k]));
        let q = choose|q: int| 0 <= q < first.len() && first[q] == second[k];
        if first[k] != second[k] {
            assert(p > k && q > k);
            assert(before(keys, second[k], second[p]));
            assert(before(keys, first[k], first[q]));
            before_asymmetric(keys, second[k], first[k]);
        }
    }
}

/// Sorting neither adds nor drops an item.
pub proof fn stable_sort_keeps_items<T>(keys: Seq<Seq<Seq<char>>>, items: Seq<T>, sorted: Seq<T>)
    requires
        keys.len() == items.len(),
        is_stable_sort(keys, items, sorted),
    ensures
        sorted.len() == items.len(),
        sorted.to_multiset() == items.to_multiset(),
{
    let order = choose|order: Seq<int>| #[trigger]
        sorts(order, keys) && sorted == arranged(items, order);
    sorts_is_permutation(order, keys);
    arranged_keeps_items(items, order);
}

proof fn arranged_keeps_items<T>(items: Seq<T>, order: Seq<int>)
    requires
        order.len() == items.len(),
        order.no_duplicates(),
        forall|i: int| 0 <= i < items.len() <==> #[trigger] order.contains(i),
    ensures
        arranged(items, order).to_multiset() == items.to_multiset(),
    decreases items.len(),
{
    broadcast use vstd::seq_lib::group_to_multiset_ensures;

    let n = items.len() as int;
    if n == 0 {
        assert(arranged(items, order) =~= items);
    } else {
        assert(order.contains(n - 1));
        let p = choose|p: int| 0 <= p < order.len() && order[p] == n - 1;
        let rest = order.remove(p);
        let fewer = items.drop_last();
        assert forall|i: int| 0 <= i < fewer.len() <==> #[trigger] rest.contains(i) by {
            if 0 <= i < fewer.len() {
                assert(order.contains(i));
                let q = choose|q: int| 0 <= q < order.len() && order[q] == i;
                assert(rest[if q < p { q } else { q - 1 }] == i);
            }
            if rest.contains(i) {
                let q = choose|q: int| 0 <= q < rest.len() && rest[q] == i;
                assert(order[if q < p { q } else { q + 1 }] == i);
                assert(order.contains(i));
            }
        }
        arranged_keeps_items(fewer, rest);
        assert(arranged(items, order).remove(p) =~= arranged(fewer, rest)) by {
            assert forall|q: int| 0 <= q < rest.len() implies items[rest[q]] == fewer[rest[q]] by {
                assert(rest.contains(rest[q]));
            }
        }
        assert(arranged(items, order) =~= arranged(fewer, rest).insert(p, items[n - 1]));
        assert(items =~= fewer.push(items[n - 1]));
    }
}

/// Whether the keys of these items ascend strictly.
pub open spec fn ascends<T>(key: spec_fn(T) -> Seq<Seq<char>>, items: Seq<T>) -> bool {
    forall|a: int, b: int|
        0 <= a < b < items.len() ==> key_lt(key(#[trigger] items[a]), key(#[trigger] items[b]))
}

proof fn ascending_is_unique<T>(
    key: spec_fn(T) -> Seq<Seq<char>>,
    first: Seq<T>,
    second: Seq<T>,
    n: int,
)
    requires
        ascends(key, first),
        ascends(key, second),
        first.len() == second.len(),
        forall|item: T| #[trigger] first.contains(item) <==> second.contains(item),
        0 <= n <= first.len(),
    ensures
        forall|k: int| 0 <= k < n ==> first[k] == second[k],
    decreases n,
{
    if n > 0 {
        let k = n - 1;
        ascending_is_unique(key, first, second, k);
        assert(first.contains(first[k]));
        let p = choose|p: int| 0 <= p < second.len() && second[p] == first[k];
        assert(second.contains(second[k]));
        assert(first.contains(second[k]));
        let q = choose|q: int| 0 <= q < first.len() && first[q] == second[k];
        if p < k {
            key_lt_irreflexive(key(first[k]));
            assert(first[p] == first[k]);
        }
        if q < k {
            key_lt_irreflexive(key(second[k]));
            assert(second[q] == second[k]);
        }
        if p > k && q > k {
            key_lt_transitive(key(first[k]), key(second[k]), key(first[k]));
            key_lt_irreflexive(key(first[k]));
        }
    }
}

proof fn stable_sort_ascends<T>(key: spec_fn(T) -> Seq<Seq<char>>, items: Seq<T>, sorted: Seq<T>)
    requires
        items.map_values(key).no_duplicates(),
        is_stable_sort(items.map_values(key), items, sorted),
    ensures
        ascends(key, sorted),
{
    let keys = items.map_values(key);
    let order = choose|order: Seq<int>| #[trigger]
        sorts(order, keys) && sorted == arranged(items, order);
    assert forall|a: int, b: int| 0 <= a < b < sorted.len() implies key_lt(
        key(#[trigger] sorted[a]),
        key(#[trigger] sorted[b]),
    ) by {
        assert(before(keys, order[a], order[b]));
        before_asymmetric(keys, order[a], order[b]);
        assert(keys[order[a]] != keys[order[b]]);
    }
}

/// Items with different keys are sorted the same way, whatever the order in which they arrive.
pub proof fn stable_sort_ignores_arrival_order<T>(
    key: spec_fn(T) -> Seq<Seq<char>>,
    first: Seq<T>,
    second: Seq<T>,
    first_sorted: Seq<T>,
    second_sorted: Seq<T>,
)
    requires
        first.to_multiset() == second.to_multiset(),
        first.map_values(key).no_duplicates(),
        is_stable_sort(first.map_values(key), first, first_sorted),
        is_stable_sort(second.map_values(key), second, second_sorted),
    ensures
        first_sorted == second_sorted,
{
    broadcast use vstd::seq_lib::group_to_multiset_ensures;

    assert forall|i: int, j: int| 0 <= i < first.len() && 0 <= j < first.len() && i != j implies first[i]
        != first[j] by {
        assert(first.map_values(key)[i] != first.map_values(key)[j]);
    }
    first.lemma_multiset_has_no_duplicates();
    assert forall|item: T| #[trigger] second.to_multiset().contains(item) implies second.to_multiset().count(
        item,
    ) == 1 by {
        assert(first.to_multiset().contains(item));
    }
    second.lemma_multiset_has_no_duplicates_conv();
    let keys = second.map_values(key);
    assert forall|i: int, j: int| 0 <= i < keys.len() && 0 <= j < keys.len() && i != j implies keys[i]
        != keys[j] by {
        assert(second.contains(second[i]) && second.contains(second[j]));
        assert(first.to_multiset().contains(second[i]) && first.to_multiset().contains(second[j]));
        assert(first.contains(second[i]) && first.contains(second[j]));
        let p = choose|p: int| 0 <= p < first.len() && first[p] == second[i];
        let q = choose|q: int| 0 <= q < first.len() && first[q] == second[j];
        assert(p != q);
        assert(first.map_values(key)[p] != first.map_values(key)[q]);
    }
    stable_sort_ascends(key, first, first_sorted);
    stable_sort_ascends(key, second, second_sorted);
    stable_sort_keeps_items(first.map_values(key), first, first_sorted);
    stable_sort_keeps_items(second.map_values(key), second, second_sorted);
    assert forall|item: T| #[trigger] first_sorted.contains(item) <==> second_sorted.contains(item) by {
        assert(first_sorted.to_multiset().contains(item) <==> first_sorted.contains(item));
        assert(second_sorted.to_multiset().contains(item) <==> second_sorted.contains(item));
    }
    assert(first_sorted.len() == first_sorted.to_multiset().len());
    assert(second_sorted.len() == second_sorted.to_multiset().len());
    ascending_is_unique(key, first_sorted, second_sorted, first_sorted.len() as int);
    assert(first_sorted =~= second_sorted);
}

/// Whether numbers ascend strictly.
spec fn climbs(numbers: Seq<int>) -> bool {
    forall|a: int, b: int|
        0 <= a < b < numbers.len() ==> #[trigger] numbers[a] < #[trigger] numbers[b]
}

/// Numbers that ascend strictly are told by which numbers they are.
proof fn climbing_is_unique(first: Seq<int>, second: Seq<int>)
    requires
        climbs(first),
        climbs(second),
        forall|i: int| #[trigger] first.contains(i) <==> second.contains(i),
    ensures
        first == second,
    decreases first.len(),
{
    if first.len() == 0 {
        if second.len() > 0 {
            assert(second.contains(second[0]));
            assert(first.contains(second[0]));
        }
        assert(first =~= second);
    } else {
        assert(first.contains(first[0]));
        assert(second.len() > 0);
        let x = first.last();
        let y = second.last();
        assert(first.contains(x) && second.contains(x));
        assert(second.contains(y) && first.contains(y));
        let p = choose|p: int| 0 <= p < second.len() && second[p] == x;
        let q = choose|q: int| 0 <= q < first.len() && first[q] == y;
        if q < first.len() - 1 && p < second.len() - 1 {
            assert(first[q] < first[first.len() - 1]);
            assert(second[p] < second[second.len() - 1]);
        }
        if q == first.len() - 1 || p == second.len() - 1 {
            assert(x == y);
        }
        let rest = first.drop_last();
        let others = second.drop_last();
        assert forall|i: int| #[trigger] rest.contains(i) <==> others.contains(i) by {
            if rest.contains(i) {
                let a = choose|a: int| 0 <= a < rest.len() && rest[a] == i;
                assert(first[a] == i && first[a] < first[first.len() - 1]);
                assert(first.contains(i));
                let b = choose|b: int| 0 <= b < second.len() && second[b] == i;
                assert(b != second.len() - 1);
                assert(others[b] == i);
            }
            if others.contains(i) {
                let b = choose|b: int| 0 <= b < others.len() && others[b] == i;
                assert(second[b] == i && second[b] < second[second.len() - 1]);
                assert(second.contains(i));
                assert(first.contains(i));
                let a = choose|a: int| 0 <= a < first.len() && first[a] == i;
                assert(a != first.len() - 1);
                assert(rest[a] == i);
            }
        }
        assert(climbs(rest)) by {
            assert forall|a: int, b: int| 0 <= a < b < rest.len() implies #[trigger] rest[a]
                < #[trigger] rest[b] by {
                assert(first[a] < first[b]);
            }
        }
        assert(climbs(others)) by {
            assert forall|a: int, b: int| 0 <= a < b < others.len() implies #[trigger] others[a]
                < #[trigger] others[b] by {
                assert(second[a] < second[b]);
            }
        }
        climbing_is_unique(rest, others);
        assert(first =~= rest.push(x));
        assert(second =~= others.push(y));
    }
}

/// Choosing among arranged items is arranging the chosen ones.
proof fn filter_follows_the_arrangement<T>(
    items: Seq<T>,
    order: Seq<int>,
    pred: spec_fn(T) -> bool,
)
    ensures
        arranged(items, order).filter(pred) == arranged(
            items,
            order.filter(|i: int| pred(items[i])),
        ),
    decreases order.len(),
{
    reveal(Seq::filter);
    let chosen = |i: int| pred(items[i]);
    if order.len() > 0 {
        let fewer = order.drop_last();
        filter_follows_the_arrangement(items, fewer, pred);
        assert(arranged(items, order).drop_last() =~= arranged(items, fewer));
        assert(arranged(items, order).last() == items[order.last()]);
    }
    assert(arranged(items, order).filter(pred) =~= arranged(items, order.filter(chosen)));
}

/// Among chosen indices of a list that sorts the same keys, those with equal keys ascend.
proof fn chosen_indices_climb(order: Seq<int>, chosen: spec_fn(int) -> bool)
    requires
        forall|a: int, b: int|
            0 <= a < b < order.len() && chosen(#[trigger] order[a]) && chosen(#[trigger] order[b])
                ==> order[a] < order[b],
    ensures
        climbs(order.filter(chosen)),
        forall|i: int| #[trigger]
            order.filter(chosen).contains(i) <==> order.contains(i) && chosen(i),
    decreases order.len(),
{
    reveal(Seq::filter);
    let list = order.filter(chosen);
    if order.len() > 0 {
        let fewer = order.drop_last();
        let last = order.last();
        assert forall|a: int, b: int|
            0 <= a < b < fewer.len() && chosen(#[trigger] fewer[a]) && chosen(#[trigger] fewer[b])
            implies fewer[a] < fewer[b] by {
            assert(order[a] < order[b]);
        }
        chosen_indices_climb(fewer, chosen);
        let before = fewer.filter(chosen);
        assert forall|i: int| #[trigger] list.contains(i) <==> order.contains(i) && chosen(i) by {
            if list.contains(i) {
                let p = choose|p: int| 0 <= p < list.len() && list[p] == i;
                if p < before.len() {
                    assert(before[p] == i);
                    assert(before.contains(i));
                    let q = choose|q: int| 0 <= q < fewer.len() && fewer[q] == i;
                    assert(order[q] == i);
                } else {
                    assert(order[order.len() - 1] == i);
                }
            }
            if order.contains(i) && chosen(i) {
                let q = choose|q: int| 0 <= q < order.len() && order[q] == i;
                if q < fewer.len() {
                    assert(fewer[q] == i);
                    assert(before.contains(i));
                    let p = choose|p: int| 0 <= p < before.len() && before[p] == i;
                    assert(list[p] == i);
                } else {
                    assert(list[list.len() - 1] == i);
                }
            }
        }
        assert forall|a: int, b: int| 0 <= a < b < list.len() implies #[trigger] list[a]
            < #[trigger] list[b] by {
            if b < before.len() {
                assert(before[a] < before[b]);
            } else {
                assert(before[a] == list[a]);
                assert(before.contains(list[a]));
                let q = choose|q: int| 0 <= q < fewer.len() && fewer[q] == list[a];
                assert(order[q] == list[a] && order[order.len() - 1] == list[b]);
                assert(order[q] < order[order.len() - 1]);
            }
        }
    }
}

/// Items with equal keys stay in the order in which they arrived.
pub proof fn equal_keys_keep_their_order<T>(
    key: spec_fn(T) -> Seq<Seq<char>>,
    items: Seq<T>,
    sorted: Seq<T>,
    shared: Seq<Seq<char>>,
)
    requires
        is_stable_sort(items.map_values(key), items, sorted),
    ensures
        sorted.filter(|item: T| key(item) == shared) == items.filter(
            |item: T| key(item) == shared,
        ),
{
    let pred = |item: T| key(item) == shared;
    let chosen = |i: int| pred(items[i]);
    let keys = items.map_values(key);
    let order = choose|order: Seq<int>| #[trigger]
        sorts(order, keys) && sorted == arranged(items, order);
    let own = Seq::new(items.len(), |i: int| i);
    sorts_is_permutation(order, keys);
    filter_follows_the_arrangement(items, order, pred);
    filter_follows_the_arrangement(items, own, pred);
    assert(arranged(items, own) =~= items);
    assert forall|a: int, b: int|
        0 <= a < b < order.len() && chosen(#[trigger] order[a]) && chosen(#[trigger] order[b])
        implies order[a] < order[b] by {
        assert(before(keys, order[a], order[b]));
        assert(keys[order[a]] == shared && keys[order[b]] == shared);
        key_lt_irreflexive(shared);
    }
    chosen_indices_climb(order, chosen);
    chosen_indices_climb(own, chosen);
    assert forall|i: int| #[trigger] order.filter(chosen).contains(i) <==> own.filter(
        chosen,
    ).contains(i) by {
        assert(order.contains(i) <==> 0 <= i < items.len());
        if 0 <= i < items.len() {
            assert(own[i] == i);
        }
        if own.contains(i) {
            let p = choose|p: int| 0 <= p < own.len() && own[p] == i;
            assert(own[p] == p);
        }
    }
    climbing_is_unique(order.filter(chosen), own.filter(chosen));
}

} // verus!
