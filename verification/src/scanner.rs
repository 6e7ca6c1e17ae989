//! The scan of the resources directory: from what was seen of each resource
//! to the snapshot of digests and file names, the refreshed cache and the
//! duplicates to delete.

use vstd::prelude::*;
use vstd::string::*;
use crate::cache::{cached_digest, Cache, CacheFields, CacheFieldsView};
use crate::table::{ascending, place_of, same_pairs, Table};
use crate::text::texts;

verus! {

/// What was seen of one resource of the directory: its file name, the time
/// of its last modification in seconds since the epoch where that is known,
/// and a digest. The digest is the one of the content where the cache has
/// no answer for the resource; where it has one, the digest is not looked
/// at.
#[derive(Debug, PartialEq, Eq)]
pub struct Sighting {
    pub name: String,
    pub modified: Option<u64>,
    pub digest: String,
}

/// What a sighting is, with its strings as texts.
pub struct SightingView {
    pub name: Seq<char>,
    pub modified: Option<u64>,
    pub digest: Seq<char>,
}

impl View for Sighting {
    type V = SightingView;

    open spec fn view(&self) -> SightingView {
        SightingView { name: self.name@, modified: self.modified, digest: self.digest@ }
    }
}

/// The views of a list of sightings.
pub open spec fn sighting_views(sightings: Seq<Sighting>) -> Seq<SightingView> {
    sightings.map_values(|s: Sighting| s@)
}

/// The state of a scan: the digests and file names of the snapshot, the
/// names and entries of the new cache, and the file names of the duplicates.
pub struct Scan {
    pub digests: Seq<Seq<char>>,
    pub names: Seq<Seq<char>>,
    pub cache_keys: Seq<Seq<char>>,
    pub cache_values: Seq<CacheFieldsView>,
    pub duplicates: Seq<Seq<char>>,
}

/// The state before any resource was seen.
pub open spec fn scan_start() -> Scan {
    Scan {
        digests: Seq::<Seq<char>>::empty(),
        names: Seq::<Seq<char>>::empty(),
        cache_keys: Seq::<Seq<char>>::empty(),
        cache_values: Seq::<CacheFieldsView>::empty(),
        duplicates: Seq::<Seq<char>>::empty(),
    }
}

/// The digest that counts for a sighting: the answer of the cache before
/// the scan where it has one, else the digest of the sighting.
pub open spec fn effective_digest(
    keys: Seq<Seq<char>>,
    values: Seq<CacheFieldsView>,
    s: SightingView,
    use_cache: bool,
) -> Seq<char> {
    match cached_digest(keys, values, s.name, s.modified, use_cache) {
        Some(d) => d,
        None => s.digest,
    }
}

/// The name under which the new cache holds the entry of a sighting: the
/// file name where the cache before the scan knows it, else the digest,
/// which is the name that the resource is about to get.
pub open spec fn cache_key(keys: Seq<Seq<char>>, s: SightingView) -> Seq<char> {
    if place_of(keys, s.name) is Some {
        s.name
    } else {
        s.digest
    }
}

/// The entry that the new cache holds for a sighting: the entry of the
/// cache before the scan where that answered, else the digest of the
/// sighting, verified at the time `now`.
pub open spec fn cache_entry(
    keys: Seq<Seq<char>>,
    values: Seq<CacheFieldsView>,
    s: SightingView,
    use_cache: bool,
    now: u64,
) -> CacheFieldsView {
    if cached_digest(keys, values, s.name, s.modified, use_cache) is Some {
        values[place_of(keys, s.name)->0]
    } else {
        CacheFieldsView { last_verified: now, checksum: s.digest }
    }
}

/// The state after one more resource was seen. A resource whose digest the
/// snapshot holds already is a duplicate and leaves no other trace; any
/// other resource joins the snapshot and gets its entry in the new cache.
pub open spec fn scan_step(
    st: Scan,
    keys: Seq<Seq<char>>,
    values: Seq<CacheFieldsView>,
    s: SightingView,
    use_cache: bool,
    now: u64,
) -> Scan {
    let digest = effective_digest(keys, values, s, use_cache);
    if st.digests.contains(digest) {
        Scan { duplicates: st.duplicates.push(s.name), ..st }
    } else {
        let key = cache_key(keys, s);
        let entry = cache_entry(keys, values, s, use_cache, now);
        match place_of(st.cache_keys, key) {
            Some(i) => Scan {
                digests: st.digests.push(digest),
                names: st.names.push(s.name),
                cache_values: st.cache_values.update(i, entry),
                ..st
            },
            None => Scan {
                digests: st.digests.push(digest),
                names: st.names.push(s.name),
                cache_keys: st.cache_keys.push(key),
                cache_values: st.cache_values.push(entry),
                ..st
            },
        }
    }
}

/// The state after the resources were seen, one after the other, with the
/// cache of `keys` and `values` to answer for them.
pub open spec fn scanned(
    keys: Seq<Seq<char>>,
    values: Seq<CacheFieldsView>,
    sightings: Seq<SightingView>,
    use_cache: bool,
    now: u64,
) -> Scan
    decreases sightings.len(),
{
    if sightings.len() == 0 {
        scan_start()
    } else {
        scan_step(
            scanned(keys, values, sightings.drop_last(), use_cache, now),
            keys,
            values,
            sightings.last(),
            use_cache,
            now,
        )
    }
}

/// What a scan hands out: the snapshot from the digest of each resource
/// that stays to its file name, the new cache, and the file names of the
/// duplicates, which are to be deleted.
#[derive(Debug)]
pub struct ScanOutcome {
    pub snapshot: Table<String>,
    pub cache: Cache,
    pub duplicates: Vec<String>,
}

/// Whether the outcome stands for the state `st` of a scan, the cache not
/// yet sorted.
pub open spec fn outcome_matches(out: ScanOutcome, st: Scan) -> bool {
    &&& out.snapshot.wf()
    &&& out.cache.wf()
    &&& out.snapshot.keys() == st.digests
    &&& texts(out.snapshot.values()) == st.names
    &&& out.cache.keys() == st.cache_keys
    &&& out.cache.values() == st.cache_values
    &&& texts(out.duplicates@) == st.duplicates
}

/// Takes one more sighting into the outcome of a scan.
fn scan_one(out: &mut ScanOutcome, cache: &Cache, s: &Sighting, use_cache: bool, now: u64, Ghost(st): Ghost<Scan>)
    requires
        cache.wf(),
        outcome_matches(*old(out), st),
    ensures
        outcome_matches(*final(out), scan_step(st, cache.keys(), cache.values(), s@, use_cache, now)),
{
    proof {
        out.snapshot.lemma_wf();
        cache.entries.lemma_wf();
    }
    let answer = cache.lookup(s.name.as_str(), s.modified, use_cache);
    let fresh = answer.is_none();
    let digest = match answer {
        Some(d) => d,
        None => s.digest.clone(),
    };
    assert(digest@ == effective_digest(cache.keys(), cache.values(), s@, use_cache));
    if out.snapshot.contains_key(digest.as_str()) {
        let ghost before = texts(out.duplicates@);
        out.duplicates.push(s.name.clone());
        assert(texts(out.duplicates@) =~= before.push(s.name@));
        return ;
    }
    let (key, entry) = match cache.get(s.name.as_str()) {
        Some(known) => (
            s.name.clone(),
            if fresh {
                CacheFields { last_verified: now, checksum: s.digest.clone() }
            } else {
                known.clone()
            },
        ),
        None => (s.digest.clone(), CacheFields { last_verified: now, checksum: s.digest.clone() }),
    };
    assert(key@ == cache_key(cache.keys(), s@));
    assert(entry@ == cache_entry(cache.keys(), cache.values(), s@, use_cache, now));
    let ghost names = texts(out.snapshot.values());
    assert(place_of(out.snapshot.keys(), digest@) is None);
    out.snapshot.insert(digest, s.name.clone());
    assert(texts(out.snapshot.values()) =~= names.push(s.name@));
    out.cache.insert(key, entry);
}

/// Scans the resources that were seen in the directory, in their order.
/// Each resource counts with the digest that the cache answers for it or,
/// where the cache has no answer, with the digest of its sighting. The
/// first resource of each digest joins the snapshot; every later one is a
/// duplicate. The new cache holds an entry for each resource of the
/// snapshot and no other, its names in ascending order.
pub fn scan(sightings: &Vec<Sighting>, cache: &Cache, use_cache: bool, now: u64) -> (out: ScanOutcome)
    requires
        cache.wf(),
    ensures
        out.snapshot.wf(),
        out.cache.wf(),
        out.snapshot.keys() == scanned(
            cache.keys(),
            cache.values(),
            sighting_views(sightings@),
            use_cache,
            now,
        ).digests,
        texts(out.snapshot.values()) == scanned(
            cache.keys(),
            cache.values(),
            sighting_views(sightings@),
            use_cache,
            now,
        ).names,
        texts(out.duplicates@) == scanned(
            cache.keys(),
            cache.values(),
            sighting_views(sightings@),
            use_cache,
            now,
        ).duplicates,
        ascending(out.cache.keys()),
        same_pairs(
            scanned(cache.keys(), cache.values(), sighting_views(sightings@), use_cache, now).cache_keys,
            scanned(
                cache.keys(),
                cache.values(),
                sighting_views(sightings@),
                use_cache,
                now,
            ).cache_values,
            out.cache.keys(),
            out.cache.values(),
        ),
{
    let ghost all = sighting_views(sightings@);
    let mut out = ScanOutcome { snapshot: Table::new(), cache: Cache::new(), duplicates: Vec::new() };
    assert(texts(out.snapshot.values()) =~= Seq::<Seq<char>>::empty());
    assert(texts(out.duplicates@) =~= Seq::<Seq<char>>::empty());
    let mut i: usize = 0;
    while i < sightings.len()
        invariant
            i <= sightings.len(),
            cache.wf(),
            all == sighting_views(sightings@),
            outcome_matches(
                out,
                scanned(cache.keys(), cache.values(), all.take(i as int), use_cache, now),
            ),
        decreases sightings.len() - i,
    {
        assert(all.take(i + 1).drop_last() == all.take(i as int));
        assert(all.take(i + 1).last() == sightings@[i as int]@);
        scan_one(
            &mut out,
            cache,
            &sightings[i],
            use_cache,
            now,
            Ghost(scanned(cache.keys(), cache.values(), all.take(i as int), use_cache, now)),
        );
        i += 1;
    }
    assert(all.take(sightings@.len() as int) == all);
    out.cache.sort();
    out
}

} // verus!
