//! An insertion-ordered table from text keys to values.
//!
//! The order and the lookup by key come from `indexmap::IndexMap`, which maps
//! each key to the slot of a vector that holds the value.

use indexmap::IndexMap;
use vstd::prelude::*;
use crate::text::{lemma_text_order_total, text_lt};

verus! {

/// `indexmap::IndexMap`: a hash map that keeps its pairs in an order. The
/// library reaches into it through the functions below alone.
#[verifier::external_type_specification]
#[verifier::external_body]
#[verifier::reject_recursive_types(K)]
#[verifier::reject_recursive_types(V)]
#[verifier::reject_recursive_types(S)]
pub struct ExIndexMap<K, V, S>(IndexMap<K, V, S>);

/// The pairs of key and slot that the map holds, in the map's order.
pub uninterp spec fn index_pairs(m: IndexMap<String, usize>) -> Seq<(Seq<char>, usize)>;

/// Whether `key` is the key of one of the pairs.
pub open spec fn has_key(pairs: Seq<(Seq<char>, usize)>, key: Seq<char>) -> bool {
    exists|i: int| 0 <= i < pairs.len() && (#[trigger] pairs[i]).0 == key
}

/// Whether `after` holds the items of `before` in another order: `to` sends
/// each place of `after` to the place in `before` that its item came from, and
/// `back` undoes it.
pub open spec fn reordered_by<T>(before: Seq<T>, after: Seq<T>, to: Seq<int>, back: Seq<int>) -> bool {
    &&& after.len() == before.len()
    &&& to.len() == before.len()
    &&& back.len() == before.len()
    &&& forall|i: int|
        0 <= i < after.len() ==> 0 <= #[trigger] to[i] < before.len() && back[to[i]] == i
            && after[i] == before[to[i]]
    &&& forall|k: int|
        0 <= k < before.len() ==> 0 <= #[trigger] back[k] < after.len() && to[back[k]] == k
}

/// Whether `after` holds the items of `before` in another order.
pub open spec fn reordered<T>(before: Seq<T>, after: Seq<T>) -> bool {
    exists|to: Seq<int>, back: Seq<int>| reordered_by(before, after, to, back)
}

/// `IndexMap::new` makes a map without pairs.
#[verifier::external_body]
fn index_new() -> (m: IndexMap<String, usize>)
    ensures
        index_pairs(m) == Seq::<(Seq<char>, usize)>::empty(),
{
    IndexMap::new()
}

/// `IndexMap::len` is the number of pairs.
#[verifier::external_body]
fn index_len(m: &IndexMap<String, usize>) -> (n: usize)
    ensures
        n == index_pairs(*m).len(),
{
    m.len()
}

/// `IndexMap::get_full` finds the pair whose key equals `key` and hands out
/// its place in the order with its slot, and nothing where no pair has such
/// a key.
#[verifier::external_body]
fn index_find(m: &IndexMap<String, usize>, key: &str) -> (found: Option<(usize, usize)>)
    ensures
        match found {
            Some((place, slot)) => place < index_pairs(*m).len() && index_pairs(*m)[place as int]
                == (key@, slot),
            None => !has_key(index_pairs(*m), key@),
        },
{
    m.get_full(key).map(|(place, _, slot)| (place, *slot))
}

/// `IndexMap::get_index` hands out the pair at a place of the map's order.
#[verifier::external_body]
fn index_at(m: &IndexMap<String, usize>, i: usize) -> (pair: (String, usize))
    requires
        i < index_pairs(*m).len(),
    ensures
        (pair.0@, pair.1) == index_pairs(*m)[i as int],
{
    let (key, slot) = m.get_index(i).unwrap();
    (key.clone(), *slot)
}

/// `IndexMap::insert` puts a pair whose key the map does not hold yet last
/// in the order and leaves the other pairs as they were.
#[verifier::external_body]
fn index_insert(m: &mut IndexMap<String, usize>, key: String, slot: usize)
    requires
        !has_key(index_pairs(*old(m)), key@),
    ensures
        index_pairs(*final(m)) == index_pairs(*old(m)).push((key@, slot)),
{
    m.insert(key, slot);
}

/// `IndexMap::sort_keys` rearranges the pairs so that their keys ascend in
/// the order of `String`; it neither adds nor drops a pair.
#[verifier::external_body]
fn index_sort_keys(m: &mut IndexMap<String, usize>)
    ensures
        reordered(index_pairs(*old(m)), index_pairs(*final(m))),
        forall|i: int, j: int|
            0 <= i < j < index_pairs(*final(m)).len() ==> !text_lt(
                (#[trigger] index_pairs(*final(m))[j]).0,
                (#[trigger] index_pairs(*final(m))[i]).0,
            ),
{
    m.sort_keys();
}

/// A table from text keys to values that keeps the order in which the keys
/// came in.
#[derive(Debug)]
pub struct Table<V> {
    index: IndexMap<String, usize>,
    slots: Vec<V>,
}

/// Whether no two places of `keys` hold the same text.
pub open spec fn distinct(keys: Seq<Seq<char>>) -> bool {
    forall|i: int, j: int| 0 <= i < j < keys.len() ==> #[trigger] keys[i] != #[trigger] keys[j]
}

/// Whether the texts ascend strictly in the order of `String`.
pub open spec fn ascending(keys: Seq<Seq<char>>) -> bool {
    forall|i: int, j: int|
        0 <= i < j < keys.len() ==> text_lt(#[trigger] keys[i], #[trigger] keys[j])
}

/// The place of `key` among `keys`, where it occurs.
pub open spec fn place_of(keys: Seq<Seq<char>>, key: Seq<char>) -> Option<int> {
    if keys.contains(key) {
        Some(choose|i: int| 0 <= i < keys.len() && keys[i] == key)
    } else {
        None
    }
}

/// Whether `value` stands under `key` in the table of `keys` and `values`.
pub open spec fn holds_pair<V>(keys: Seq<Seq<char>>, values: Seq<V>, key: Seq<char>, value: V) -> bool {
    exists|j: int| 0 <= j < keys.len() && j < values.len() && keys[j] == key && values[j] == value
}

/// Whether two tables hold the same keys with the same values, whatever
/// their order.
pub open spec fn same_pairs<V>(
    keys: Seq<Seq<char>>,
    values: Seq<V>,
    other_keys: Seq<Seq<char>>,
    other_values: Seq<V>,
) -> bool {
    &&& keys.len() == other_keys.len()
    &&& forall|i: int|
        0 <= i < keys.len() ==> holds_pair(other_keys, other_values, #[trigger] keys[i], values[i])
    &&& forall|i: int|
        0 <= i < other_keys.len() ==> holds_pair(
            keys,
            values,
            #[trigger] other_keys[i],
            other_values[i],
        )
}

impl<V> Table<V> {
    /// The table's invariant: every pair points to a slot, and no two pairs
    /// share a key or a slot.
    pub closed spec fn wf(&self) -> bool {
        let pairs = index_pairs(self.index);
        &&& forall|i: int| 0 <= i < pairs.len() ==> (#[trigger] pairs[i]).1 < self.slots@.len()
        &&& forall|i: int, j: int|
            0 <= i < j < pairs.len() ==> (#[trigger] pairs[i]).0 != (#[trigger] pairs[j]).0
                && pairs[i].1 != pairs[j].1
    }

    /// The keys, in the table's order.
    pub closed spec fn keys(&self) -> Seq<Seq<char>> {
        Seq::new(index_pairs(self.index).len(), |i: int| index_pairs(self.index)[i].0)
    }

    /// The values, each at the place of its key.
    pub closed spec fn values(&self) -> Seq<V> {
        Seq::new(
            index_pairs(self.index).len(),
            |i: int| self.slots@[index_pairs(self.index)[i].1 as int],
        )
    }

    /// A well-formed table has one value for each key and no key twice.
    pub proof fn lemma_wf(&self)
        requires
            self.wf(),
        ensures
            self.keys().len() == self.values().len(),
            distinct(self.keys()),
    {
    }

    /// An empty table.
    pub fn new() -> (t: Table<V>)
        ensures
            t.wf(),
            t.keys() == Seq::<Seq<char>>::empty(),
            t.values() == Seq::<V>::empty(),
    {
        Table { index: index_new(), slots: Vec::new() }
    }

    /// The number of keys.
    pub fn len(&self) -> (n: usize)
        ensures
            n == self.keys().len(),
            n == self.values().len(),
    {
        index_len(&self.index)
    }

    /// The place of `key` in the table's order, where the table holds it.
    pub fn position(&self, key: &str) -> (place: Option<usize>)
        requires
            self.wf(),
        ensures
            match place {
                Some(i) => i < self.keys().len() && self.keys()[i as int] == key@,
                None => !self.keys().contains(key@),
            },
            place.is_some() == self.keys().contains(key@),
    {
        match index_find(&self.index, key) {
            Some((place, _)) => {
                assert(self.keys()[place as int] == key@);
                Some(place)
            },
            None => {
                assert forall|i: int| 0 <= i < self.keys().len() implies self.keys()[i] != key@ by {
                    let p = index_pairs(self.index)[i];
                }
                None
            },
        }
    }

    /// Whether the table holds `key`.
    pub fn contains_key(&self, key: &str) -> (held: bool)
        requires
            self.wf(),
        ensures
            held == self.keys().contains(key@),
    {
        self.position(key).is_some()
    }

    /// The key at a place of the table's order.
    pub fn key_at(&self, i: usize) -> (key: String)
        requires
            self.wf(),
            i < self.keys().len(),
        ensures
            key@ == self.keys()[i as int],
    {
        index_at(&self.index, i).0
    }

    /// The value at a place of the table's order.
    pub fn value_at(&self, i: usize) -> (value: &V)
        requires
            self.wf(),
            i < self.values().len(),
        ensures
            *value == self.values()[i as int],
    {
        let pair = index_at(&self.index, i);
        assert(index_pairs(self.index)[i as int].1 == pair.1);
        &self.slots[pair.1]
    }

    /// The value stored under `key`, where the table holds the key.
    pub fn get(&self, key: &str) -> (value: Option<&V>)
        requires
            self.wf(),
        ensures
            match value {
                Some(v) => exists|i: int|
                    0 <= i < self.keys().len() && self.keys()[i] == key@ && self.values()[i] == *v,
                None => !self.keys().contains(key@),
            },
    {
        match self.position(key) {
            Some(i) => Some(self.value_at(i)),
            None => None,
        }
    }

    /// Replaces the value at a place of the table's order.
    pub fn set_value_at(&mut self, i: usize, value: V)
        requires
            old(self).wf(),
            i < old(self).values().len(),
        ensures
            final(self).wf(),
            final(self).keys() == old(self).keys(),
            final(self).values() == old(self).values().update(i as int, value),
    {
        let pair = index_at(&self.index, i);
        assert(index_pairs(self.index)[i as int].1 == pair.1);
        self.slots.set(pair.1, value);
        assert(self.values() =~= old(self).values().update(i as int, value));
    }

    /// Stores `value` under `key`: in the place of the value that the key
    /// had, or last in the order where the key is new.
    pub fn insert(&mut self, key: String, value: V)
        requires
            old(self).wf(),
        ensures
            final(self).wf(),
            match place_of(old(self).keys(), key@) {
                Some(i) => final(self).keys() == old(self).keys() && final(self).values() == old(
                    self,
                ).values().update(i, value),
                None => final(self).keys() == old(self).keys().push(key@) && final(self).values()
                    == old(self).values().push(value),
            },
    {
        match self.position(key.as_str()) {
            Some(i) => {
                proof {
                    let c = place_of(self.keys(), key@)->0;
                    assert(c == i);
                }
                self.set_value_at(i, value);
            },
            None => {
                assert(!has_key(index_pairs(self.index), key@)) by {
                    if has_key(index_pairs(self.index), key@) {
                        let i = choose|i: int|
                            0 <= i < index_pairs(self.index).len() && (#[trigger] index_pairs(
                                self.index,
                            )[i]).0 == key@;
                        assert(self.keys()[i] == key@);
                    }
                }
                let slot = self.slots.len();
                self.slots.push(value);
                index_insert(&mut self.index, key, slot);
                assert(self.keys() =~= old(self).keys().push(key@));
                assert(self.values() =~= old(self).values().push(value));
            },
        }
    }
    /// Puts the keys in the ascending order of `String`; each key keeps its
    /// value.
    pub fn sort_keys(&mut self)
        requires
            old(self).wf(),
        ensures
            final(self).wf(),
            ascending(final(self).keys()),
            same_pairs(old(self).keys(), old(self).values(), final(self).keys(), final(self).values()),
    {
        index_sort_keys(&mut self.index);
        proof {
            let before = index_pairs(old(self).index);
            let after = index_pairs(self.index);
            let (to, back) = choose|to: Seq<int>, back: Seq<int>|
                reordered_by(before, after, to, back);
            assert forall|i: int, j: int| 0 <= i < j < after.len() implies (#[trigger] after[i]).0
                != (#[trigger] after[j]).0 && after[i].1 != after[j].1 by {
                let x = to[i];
                let y = to[j];
                assert(back[x] == i && back[y] == j);
                if x < y {
                    assert(before[x].0 != before[y].0);
                } else {
                    assert(before[y].0 != before[x].0);
                }
            }
            assert forall|i: int| 0 <= i < after.len() implies (#[trigger] after[i]).1
                < self.slots@.len() by {
                assert(after[i] == before[to[i]]);
            }
            assert forall|i: int, j: int| 0 <= i < j < self.keys().len() implies text_lt(
                #[trigger] self.keys()[i],
                #[trigger] self.keys()[j],
            ) by {
                assert(after[i].0 != after[j].0);
                lemma_text_order_total(after[i].0, after[j].0);
            }
            assert forall|i: int| 0 <= i < old(self).keys().len() implies holds_pair(
                self.keys(),
                self.values(),
                #[trigger] old(self).keys()[i],
                old(self).values()[i],
            ) by {
                let j = back[i];
                assert(to[j] == i);
                assert(self.keys()[j] == old(self).keys()[i]);
                assert(self.values()[j] == old(self).values()[i]);
            }
            assert forall|j: int| 0 <= j < self.keys().len() implies holds_pair(
                old(self).keys(),
                old(self).values(),
                #[trigger] self.keys()[j],
                self.values()[j],
            ) by {
                let i = to[j];
                assert(old(self).keys()[i] == self.keys()[j]);
                assert(old(self).values()[i] == self.values()[j]);
            }
        }
    }
}

} // verus!
