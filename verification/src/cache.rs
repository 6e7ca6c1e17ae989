//! The verification cache: for each resource the digest that was computed
//! for it and the time at which that was done.

use vstd::prelude::*;
use vstd::string::*;
use crate::table::{ascending, place_of, same_pairs, Table};
use crate::text::{same_text, texts};

verus! {

/// Data stored in the cache for each resource.
#[derive(Debug, PartialEq, Eq)]
pub struct CacheFields {
    /// Number of seconds since "the epoch".
    pub last_verified: u64,
    pub checksum: String,
}

/// What a cache entry is: the time of the verification and the text of the
/// digest.
pub struct CacheFieldsView {
    pub last_verified: u64,
    pub checksum: Seq<char>,
}

impl View for CacheFields {
    type V = CacheFieldsView;

    open spec fn view(&self) -> CacheFieldsView {
        CacheFieldsView { last_verified: self.last_verified, checksum: self.checksum@ }
    }
}

impl Clone for CacheFields {
    fn clone(&self) -> (copy: Self)
        ensures
            copy == *self,
    {
        CacheFields { last_verified: self.last_verified, checksum: self.checksum.clone() }
    }
}

/// The views of a list of cache entries.
pub open spec fn field_views(values: Seq<CacheFields>) -> Seq<CacheFieldsView> {
    values.map_values(|f: CacheFields| f@)
}

/// The digest that the cache answers for the resource `name`, last modified
/// at `modified`: the digest of its entry where the cache is in use and the
/// entry was verified no earlier than the resource was modified. Where the
/// time of modification is not known, the cache has no answer.
pub open spec fn cached_digest(
    keys: Seq<Seq<char>>,
    values: Seq<CacheFieldsView>,
    name: Seq<char>,
    modified: Option<u64>,
    use_cache: bool,
) -> Option<Seq<char>> {
    match place_of(keys, name) {
        Some(i) => if use_cache && modified is Some && modified->0 <= values[i].last_verified {
            Some(values[i].checksum)
        } else {
            None
        },
        None => None,
    }
}

/// Those of the names `keys` that are among `seen`, in their order.
pub open spec fn retained_keys(keys: Seq<Seq<char>>, seen: Seq<Seq<char>>) -> Seq<Seq<char>>
    decreases keys.len(),
{
    if keys.len() == 0 {
        keys
    } else {
        let before = retained_keys(keys.drop_last(), seen);
        if seen.contains(keys.last()) {
            before.push(keys.last())
        } else {
            before
        }
    }
}

/// The entries of those of the names `keys` that are among `seen`, in
/// their order.
pub open spec fn retained_values(
    keys: Seq<Seq<char>>,
    values: Seq<CacheFieldsView>,
    seen: Seq<Seq<char>>,
) -> Seq<CacheFieldsView>
    decreases keys.len(),
{
    if keys.len() == 0 || values.len() == 0 {
        Seq::<CacheFieldsView>::empty()
    } else {
        let before = retained_values(keys.drop_last(), values.drop_last(), seen);
        if seen.contains(keys.last()) {
            before.push(values.last())
        } else {
            before
        }
    }
}

/// Every retained name is one of the names.
proof fn lemma_retained_are_keys(keys: Seq<Seq<char>>, seen: Seq<Seq<char>>)
    ensures
        forall|k: int|
            0 <= k < retained_keys(keys, seen).len() ==> keys.contains(
                #[trigger] retained_keys(keys, seen)[k],
            ),
    decreases keys.len(),
{
    if keys.len() > 0 {
        let head = keys.drop_last();
        let before = retained_keys(head, seen);
        lemma_retained_are_keys(head, seen);
        assert forall|k: int| 0 <= k < retained_keys(keys, seen).len() implies keys.contains(
            #[trigger] retained_keys(keys, seen)[k],
        ) by {
            if k < before.len() {
                assert(head.contains(before[k]));
                let w = choose|w: int| 0 <= w < head.len() && head[w] == before[k];
                assert(keys[w] == before[k]);
            } else {
                assert(keys[keys.len() - 1] == keys.last());
            }
        }
    }
}

/// The initial text of a cache file: a JSON object without members.
pub open spec fn empty_cache_text() -> Seq<char> {
    "{\n}"@
}

/// The verification cache, from the name of a resource to its entry.
#[derive(Debug)]
pub struct Cache {
    pub entries: Table<CacheFields>,
}

impl Cache {
    /// Whether the cache is in order.
    pub open spec fn wf(&self) -> bool {
        self.entries.wf()
    }

    /// The names that the cache has entries for, in its order.
    pub open spec fn keys(&self) -> Seq<Seq<char>> {
        self.entries.keys()
    }

    /// The entries, each at the place of its name.
    pub open spec fn values(&self) -> Seq<CacheFieldsView> {
        field_views(self.entries.values())
    }

    /// A cache without entries.
    pub fn new() -> (cache: Cache)
        ensures
            cache.wf(),
            cache.keys() == Seq::<Seq<char>>::empty(),
            cache.values() == Seq::<CacheFieldsView>::empty(),
    {
        let cache = Cache { entries: Table::new() };
        assert(cache.values() =~= Seq::<CacheFieldsView>::empty());
        cache
    }

    /// The entry of the resource `name`, where the cache has one.
    pub fn get(&self, name: &str) -> (entry: Option<&CacheFields>)
        requires
            self.wf(),
        ensures
            match entry {
                Some(e) => place_of(self.keys(), name@) is Some && self.values()[place_of(
                    self.keys(),
                    name@,
                )->0] == e@,
                None => place_of(self.keys(), name@) is None,
            },
    {
        proof {
            self.entries.lemma_wf();
        }
        match self.entries.position(name) {
            Some(i) => {
                assert(self.values()[i as int] == self.entries.values()[i as int]@);
                Some(self.entries.value_at(i))
            },
            None => None,
        }
    }

    /// The digest of the resource `name` as far as the cache can answer for
    /// it: where it does, the content need not be read.
    pub fn lookup(&self, name: &str, modified: Option<u64>, use_cache: bool) -> (digest: Option<String>)
        requires
            self.wf(),
        ensures
            match digest {
                Some(d) => cached_digest(self.keys(), self.values(), name@, modified, use_cache)
                    == Some(d@),
                None => cached_digest(self.keys(), self.values(), name@, modified, use_cache) is None,
            },
    {
        if !use_cache {
            return None;
        }
        match (self.get(name), modified) {
            (Some(entry), Some(m)) => if m <= entry.last_verified {
                Some(entry.checksum.clone())
            } else {
                None
            },
            _ => None,
        }
    }

    /// Stores `entry` under `key`: in the place of the entry that the key
    /// had, or last in the order where the key is new.
    pub fn insert(&mut self, key: String, entry: CacheFields)
        requires
            old(self).wf(),
        ensures
            final(self).wf(),
            match place_of(old(self).keys(), key@) {
                Some(i) => final(self).keys() == old(self).keys() && final(self).values() == old(
                    self,
                ).values().update(i, entry@),
                None => final(self).keys() == old(self).keys().push(key@) && final(self).values()
                    == old(self).values().push(entry@),
            },
    {
        let ghost before = self.values();
        proof {
            self.entries.lemma_wf();
        }
        self.entries.insert(key, entry);
        proof {
            match place_of(old(self).keys(), key@) {
                Some(i) => {
                    assert(self.values() =~= before.update(i, entry@));
                },
                None => {
                    assert(self.values() =~= before.push(entry@));
                },
            }
        }
    }

    /// The number of entries.
    pub fn len(&self) -> (n: usize)
        ensures
            n == self.keys().len(),
            n == self.values().len(),
    {
        self.entries.len()
    }

    /// The name at a place of the cache's order.
    pub fn key_at(&self, i: usize) -> (key: String)
        requires
            self.wf(),
            i < self.keys().len(),
        ensures
            key@ == self.keys()[i as int],
    {
        self.entries.key_at(i)
    }

    /// The entry at a place of the cache's order.
    pub fn value_at(&self, i: usize) -> (entry: &CacheFields)
        requires
            self.wf(),
            i < self.values().len(),
        ensures
            entry@ == self.values()[i as int],
    {
        self.entries.value_at(i)
    }

    /// Forgets the resources that are gone: only the entries whose names
    /// are among `seen` stay, in their order.
    pub fn prune(&mut self, seen: &Vec<String>)
        requires
            old(self).wf(),
        ensures
            final(self).wf(),
            final(self).keys() == retained_keys(old(self).keys(), texts(seen@)),
            final(self).values() == retained_values(old(self).keys(), old(self).values(), texts(seen@)),
    {
        let ghost keys = self.keys();
        let ghost values = self.values();
        let ghost names = texts(seen@);
        let mut stay = Cache::new();
        let mut i: usize = 0;
        proof {
            self.entries.lemma_wf();
        }
        while i < self.len()
            invariant
                i <= self.keys().len(),
                self.wf(),
                keys == self.keys(),
                values == self.values(),
                keys.len() == values.len(),
                crate::table::distinct(keys),
                names == texts(seen@),
                stay.wf(),
                stay.keys() == retained_keys(keys.take(i as int), names),
                stay.values() == retained_values(keys.take(i as int), values.take(i as int), names),
            decreases self.keys().len() - i,
        {
            let key = self.key_at(i);
            proof {
                assert(keys.take(i + 1).drop_last() == keys.take(i as int));
                assert(values.take(i + 1).drop_last() == values.take(i as int));
                assert(keys.take(i + 1).last() == key@);
                assert(values.take(i + 1).last() == values[i as int]);
            }
            if holds_name(seen, key.as_str()) {
                proof {
                    lemma_retained_are_keys(keys.take(i as int), names);
                    if stay.keys().contains(key@) {
                        let k = choose|k: int| 0 <= k < stay.keys().len() && stay.keys()[k] == key@;
                        assert(keys.take(i as int).contains(stay.keys()[k]));
                        let w = choose|w: int|
                            0 <= w < keys.take(i as int).len() && keys.take(i as int)[w] == key@;
                        assert(keys[w] == keys[i as int]);
                    }
                    assert(place_of(stay.keys(), key@) is None);
                }
                stay.insert(key, self.value_at(i).clone());
            }
            i += 1;
        }
        assert(keys.take(keys.len() as int) == keys);
        assert(values.take(keys.len() as int) == values);
        *self = stay;
    }

    /// Puts the names in ascending order, as the cache file lists them.
    pub fn sort(&mut self)
        requires
            old(self).wf(),
        ensures
            final(self).wf(),
            ascending(final(self).keys()),
            same_pairs(old(self).keys(), old(self).values(), final(self).keys(), final(self).values()),
    {
        self.entries.sort_keys();
        proof {
            let k0 = old(self).entries.keys();
            let v0 = old(self).entries.values();
            let k1 = self.entries.keys();
            let v1 = self.entries.values();
            assert forall|i: int| 0 <= i < k0.len() implies crate::table::holds_pair(
                k1,
                field_views(v1),
                #[trigger] k0[i],
                field_views(v0)[i],
            ) by {
                old(self).entries.lemma_wf();
                assert(crate::table::holds_pair(k1, v1, k0[i], v0[i]));
                let j = choose|j: int|
                    0 <= j < k1.len() && j < v1.len() && k1[j] == k0[i] && v1[j] == v0[i];
                assert(field_views(v1)[j] == field_views(v0)[i]);
            }
            assert forall|i: int| 0 <= i < k1.len() implies crate::table::holds_pair(
                k0,
                field_views(v0),
                #[trigger] k1[i],
                field_views(v1)[i],
            ) by {
                self.entries.lemma_wf();
                assert(crate::table::holds_pair(k0, v0, k1[i], v1[i]));
                let j = choose|j: int|
                    0 <= j < k0.len() && j < v0.len() && k0[j] == k1[i] && v0[j] == v1[i];
                assert(field_views(v0)[j] == field_views(v1)[i]);
            }
        }
    }
}

/// Whether `name` is among `names`.
fn holds_name(names: &Vec<String>, name: &str) -> (held: bool)
    ensures
        held == texts(names@).contains(name@),
{
    let mut i: usize = 0;
    while i < names.len()
        invariant
            i <= names.len(),
            forall|k: int| 0 <= k < i ==> texts(names@)[k] != name@,
        decreases names.len() - i,
    {
        if same_text(names[i].as_str(), name) {
            assert(texts(names@)[i as int] == name@);
            return true;
        }
        i += 1;
    }
    false
}

/// Reads a cache from the text of its file: the text to decode is the
/// file's own, or the initial text where the file is empty, which is then to
/// be written to the file.
pub fn read_cache_from_file(contents: &str) -> (text: String)
    ensures
        text@ == (if contents@.len() == 0 {
            empty_cache_text()
        } else {
            contents@
        }),
{
    if contents.is_empty() {
        "{\n}".to_owned()
    } else {
        contents.to_owned()
    }
}

} // verus!
