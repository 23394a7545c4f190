//! A map from texts to values that keeps its keys sorted.
use vstd::prelude::*;

use crate::order::{
    compare_text, text_lt, text_lt_irreflexive, text_lt_total, text_lt_transitive, Order,
};
use crate::text::views;

verus! {

/// Whether every text comes before all texts that follow it.
pub open spec fn strictly_increasing(texts: Seq<Seq<char>>) -> bool {
    forall|i: int, j: int|
        0 <= i < j < texts.len() ==> text_lt(#[trigger] texts[i], #[trigger] texts[j])
}

/// A strictly increasing list of texts holds no text twice.
pub proof fn strictly_increasing_is_distinct(texts: Seq<Seq<char>>)
    requires
        strictly_increasing(texts),
    ensures
        texts.no_duplicates(),
{
    assert forall|i: int, j: int| 0 <= i < texts.len() && 0 <= j < texts.len() && i != j implies texts[i]
        != texts[j] by {
        text_lt_irreflexive(texts[i]);
        if i < j {
            assert(text_lt(texts[i], texts[j]));
        } else {
            assert(text_lt(texts[j], texts[i]));
        }
    }
}

/// Two strictly increasing lists of the same texts are equal from any position on at which they
/// agree before.
pub proof fn same_increasing_texts(first: Seq<Seq<char>>, second: Seq<Seq<char>>, n: int)
    requires
        strictly_increasing(first),
        strictly_increasing(second),
        forall|text: Seq<char>| #[trigger] first.contains(text) <==> second.contains(text),
        0 <= n <= first.len(),
        n <= second.len(),
        forall|k: int| 0 <= k < n ==> first[k] == second[k],
    ensures
        first == second,
    decreases first.len() - n,
{
    if n < first.len() && n < second.len() {
        let a = first[n];
        let b = second[n];
        assert(first.contains(a) && second.contains(b) && first.contains(b));
        let p = choose|p: int| 0 <= p < second.len() && second[p] == a;
        let q = choose|q: int| 0 <= q < first.len() && first[q] == b;
        text_lt_irreflexive(a);
        text_lt_irreflexive(b);
        if p < n {
            assert(text_lt(first[p], first[n]));
        }
        if q < n {
            assert(text_lt(second[q], second[n]));
        }
        if p > n && q > n {
            assert(text_lt(second[n], second[p]));
            assert(text_lt(first[n], first[q]));
            text_lt_transitive(a, b, a);
        }
        assert(a == b);
        same_increasing_texts(first, second, n + 1);
    } else {
        if n < first.len() {
            assert(first.contains(first[n]));
            let p = choose|p: int| 0 <= p < second.len() && second[p] == first[n];
            text_lt_irreflexive(first[n]);
            assert(text_lt(first[p], first[n]));
        }
        if n < second.len() {
            assert(second.contains(second[n]) && first.contains(second[n]));
            let q = choose|q: int| 0 <= q < first.len() && first[q] == second[n];
            text_lt_irreflexive(second[n]);
            assert(text_lt(second[q], second[n]));
        }
        assert(first =~= second);
    }
}

/// Whether `keys` are the keys of `map`, in ascending order.
pub open spec fn lists_keys<V>(keys: Seq<Seq<char>>, map: Map<Seq<char>, V>) -> bool {
    &&& strictly_increasing(keys)
    &&& forall|key: Seq<char>| #[trigger] keys.contains(key) <==> map.contains_key(key)
}

/// Whether `values` are the values that `map` gives these keys, in the same order.
pub open spec fn lists_values<V>(
    keys: Seq<Seq<char>>,
    map: Map<Seq<char>, V>,
    values: Seq<V>,
) -> bool {
    &&& values.len() == keys.len()
    &&& forall|i: int| 0 <= i < values.len() ==> #[trigger] values[i] == map[keys[i]]
}

/// Texts mapped to values, with the keys in ascending order.
pub struct SortedMap<V> {
    keys: Vec<String>,
    values: Vec<V>,
}

impl<V> View for SortedMap<V> {
    type V = Map<Seq<char>, V>;

    closed spec fn view(&self) -> Map<Seq<char>, V> {
        Map::new(
            |key: Seq<char>| views(self.keys@).contains(key),
            |key: Seq<char>| self.values@[views(self.keys@).index_of(key)],
        )
    }
}

impl<V> SortedMap<V> {
    /// There is one value for each key, and the keys ascend.
    pub closed spec fn wf(self) -> bool {
        &&& self.keys@.len() == self.values@.len()
        &&& strictly_increasing(views(self.keys@))
    }

    proof fn lookup(self, i: int)
        requires
            self.wf(),
            0 <= i < self.keys@.len(),
        ensures
            self@.contains_key(self.keys@[i]@),
            self@[self.keys@[i]@] == self.values@[i],
    {
        let texts = views(self.keys@);
        strictly_increasing_is_distinct(texts);
        assert(texts[i] == self.keys@[i]@);
        assert(texts.contains(self.keys@[i]@));
        let found = texts.index_of(self.keys@[i]@);
        assert(texts[found] == texts[i]);
    }

    /// The empty map.
    pub fn new() -> (map: Self)
        ensures
            map.wf(),
            map@ == Map::<Seq<char>, V>::empty(),
    {
        let map = SortedMap { keys: Vec::new(), values: Vec::new() };
        assert(map@ =~= Map::<Seq<char>, V>::empty());
        map
    }

    /// Finds the first position whose key is not smaller than `key`.
    fn position(&self, key: &str) -> (found: (usize, bool))
        requires
            self.wf(),
        ensures
            found.0 <= self.keys@.len(),
            found.1 == self@.contains_key(key@),
            found.1 ==> found.0 < self.keys@.len() && self.keys@[found.0 as int]@ == key@,
            forall|i: int| 0 <= i < found.0 ==> text_lt(#[trigger] self.keys@[i]@, key@),
            !found.1 ==> forall|i: int|
                found.0 <= i < self.keys@.len() ==> text_lt(key@, #[trigger] self.keys@[i]@),
    {
        let ghost texts = views(self.keys@);
        let mut low: usize = 0;
        let mut high: usize = self.keys.len();
        while low < high
            invariant
                self.wf(),
                texts == views(self.keys@),
                low <= high <= self.keys@.len(),
                forall|i: int| 0 <= i < low ==> text_lt(#[trigger] self.keys@[i]@, key@),
                forall|i: int|
                    high <= i < self.keys@.len() ==> text_lt(key@, #[trigger] self.keys@[i]@),
            decreases high - low,
        {
            let middle: usize = low + (high - low) / 2;
            let ghost at = texts[middle as int];
            match compare_text(self.keys[middle].as_str(), key) {
                Order::Equal => {
                    proof {
                        self.lookup(middle as int);
                        assert forall|i: int| 0 <= i < middle implies text_lt(
                            #[trigger] self.keys@[i]@,
                            key@,
                        ) by {
                            assert(text_lt(texts[i], texts[middle as int]));
                        }
                    }
                    return (middle, true);
                },
                Order::Less => {
                    proof {
                        assert forall|i: int| 0 <= i < middle + 1 implies text_lt(
                            #[trigger] self.keys@[i]@,
                            key@,
                        ) by {
                            if i < middle {
                                assert(text_lt(texts[i], texts[middle as int]));
                                text_lt_transitive(texts[i], at, key@);
                            }
                        }
                    }
                    low = middle + 1;
                },
                Order::Greater => {
                    proof {
                        text_lt_total(at, key@);
                        assert forall|i: int| middle <= i < self.keys@.len() implies text_lt(
                            key@,
                            #[trigger] self.keys@[i]@,
                        ) by {
                            if i > middle {
                                assert(text_lt(texts[middle as int], texts[i]));
                                text_lt_transitive(key@, at, texts[i]);
                            }
                        }
                    }
                    high = middle;
                },
            }
        }
        proof {
            if texts.contains(key@) {
                let i = choose|i: int| 0 <= i < texts.len() && texts[i] == key@;
                assert(self.keys@[i]@ == key@);
                text_lt_irreflexive(key@);
            }
        }
        (low, false)
    }

    /// Whether `key` has a value.
    pub fn contains_key(&self, key: &str) -> (yes: bool)
        requires
            self.wf(),
        ensures
            yes == self@.contains_key(key@),
    {
        self.position(key).1
    }

    /// The value of `key`, if it has one.
    pub fn get(&self, key: &str) -> (value: Option<&V>)
        requires
            self.wf(),
        ensures
            value == (if self@.contains_key(key@) {
                Some(&self@[key@])
            } else {
                None
            }),
    {
        let (at, found) = self.position(key);
        if found {
            proof {
                self.lookup(at as int);
            }
            Some(&self.values[at])
        } else {
            None
        }
    }

    /// Gives `key` the value `value`, unless `key` has a value already; says whether it had none.
    pub fn insert_new(&mut self, key: String, value: V) -> (inserted: bool)
        requires
            old(self).wf(),
        ensures
            final(self).wf(),
            inserted == !old(self)@.contains_key(key@),
            inserted ==> final(self)@ == old(self)@.insert(key@, value),
            !inserted ==> *final(self) == *old(self),
    {
        let (at, found) = self.position(key.as_str());
        if found {
            return false;
        }
        let ghost before = *self;
        let ghost text = key@;
        self.keys.insert(at, key);
        self.values.insert(at, value);
        proof {
            let texts = views(self.keys@);
            let earlier = views(before.keys@);
            assert(texts =~= earlier.insert(at as int, text));
            assert forall|i: int, j: int| 0 <= i < j < texts.len() implies text_lt(
                #[trigger] texts[i],
                #[trigger] texts[j],
            ) by {
                if i == at {
                    assert(before.keys@[j - 1]@ == texts[j]);
                } else if j == at {
                    assert(before.keys@[i]@ == texts[i]);
                } else {
                    let p = if i < at { i } else { i - 1 };
                    let q = if j < at { j } else { j - 1 };
                    assert(text_lt(earlier[p], earlier[q]));
                }
            }
            assert(self.wf());
            let expected = before@.insert(text, value);
            assert forall|k: Seq<char>| self@.contains_key(k) <==> expected.contains_key(k) by {
                if texts.contains(k) {
                    let i = choose|i: int| 0 <= i < texts.len() && texts[i] == k;
                    if i != at {
                        let p = if i < at { i } else { i - 1 };
                        assert(earlier[p] == k);
                        assert(earlier.contains(k));
                    }
                }
                if earlier.contains(k) {
                    let p = choose|p: int| 0 <= p < earlier.len() && earlier[p] == k;
                    let i = if p < at { p } else { p + 1 };
                    assert(texts[i] == k);
                }
                if k == text {
                    assert(texts[at as int] == k);
                }
            }
            assert forall|k: Seq<char>| self@.contains_key(k) implies self@[k] == expected[k] by {
                let i = choose|i: int| 0 <= i < texts.len() && texts[i] == k;
                assert(self.keys@[i]@ == k);
                self.lookup(i);
                if i != at {
                    let p = if i < at { i } else { i - 1 };
                    assert(before.keys@[p]@ == k);
                    before.lookup(p);
                    assert(k != text);
                }
            }
            assert(self@ =~= expected);
        }
        true
    }

    /// Empties the map.
    pub fn clear(&mut self)
        ensures
            final(self).wf(),
            final(self)@ == Map::<Seq<char>, V>::empty(),
    {
        self.keys.clear();
        self.values.clear();
        assert(self@ =~= Map::<Seq<char>, V>::empty());
    }

    /// The keys, in ascending order.
    pub fn into_keys(self) -> (keys: Vec<String>)
        requires
            self.wf(),
        ensures
            lists_keys(views(keys@), self@),
    {
        self.keys
    }

    /// The values, in the order of their keys.
    pub fn into_values(self) -> (values: Vec<V>)
        requires
            self.wf(),
        ensures
            exists|keys: Seq<Seq<char>>| #[trigger] lists_keys(keys, self@) && lists_values(
                keys,
                self@,
                values@,
            ),
    {
        proof {
            let keys = views(self.keys@);
            assert(lists_keys(keys, self@));
            assert forall|i: int| 0 <= i < keys.len() implies #[trigger] self.values@[i]
                == self@[keys[i]] by {
                self.lookup(i);
                assert(keys[i] == self.keys@[i]@);
            }
            assert(lists_values(keys, self@, self.values@));
        }
        self.values
    }
}

} // verus!
