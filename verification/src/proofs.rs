//! What holds of every reconciliation and of every scan.

use vstd::prelude::*;
use vstd::seq_lib::to_multiset_contains;
use crate::cache::{cached_digest, CacheFieldsView};
use crate::catalog::{claimed_place, kept, lemma_kept_wf, lemma_listed_wf, lemma_merge_step_wf, lemma_merged_wf, merged, observed, originals, reconciled, records_wf, removes, Merge, OrphanPolicy};
use crate::ranking::{lemma_listed_keeps_order, lemma_listed_sorts, listed};
use crate::resource::{original_digest, record_wf, ResourceView};
use crate::sorted::{all_in, ascending_by, lemma_ascending_is_unique, strict};
use crate::scanner::{cache_key, effective_digest, scan_step, scanned, Scan, SightingView};
use crate::table::{ascending, distinct, holds_pair, place_of, same_pairs};
use crate::text::{lemma_text_order_strict, text_lt};

verus! {

/// Whether `after` is the record `before` with a history that went on:
/// the history of `before` is the beginning of the history of `after`, and
/// nothing but the history and the current digest differs.
pub open spec fn continues(before: ResourceView, after: ResourceView) -> bool {
    &&& before.historical_checksums.len() <= after.historical_checksums.len()
    &&& after.historical_checksums.take(before.historical_checksums.len() as int)
        == before.historical_checksums
    &&& after == ResourceView {
        checksum: after.checksum,
        historical_checksums: after.historical_checksums,
        ..before
    }
}

/// The name that each resource has once the renames of a reconciliation
/// are made: the digest under which the record that it belongs to was made.
pub open spec fn final_names(
    entries: Seq<ResourceView>,
    digests: Seq<Seq<char>>,
    names: Seq<Seq<char>>,
    type_names: Seq<Seq<char>>,
    extensions: Seq<Seq<char>>,
) -> Seq<Seq<char>>
    decreases digests.len(),
{
    if digests.len() == 0 {
        Seq::<Seq<char>>::empty()
    } else {
        let m = merged(entries, digests.drop_last(), names.drop_last(), type_names, extensions);
        final_names(entries, digests.drop_last(), names.drop_last(), type_names, extensions).push(
            match claimed_place(m.entries, digests.last(), names.last()) {
                Some(i) => original_digest(m.entries[i]),
                None => digests.last(),
            },
        )
    }
}

/// Through a reconciliation every record that the catalog held stays at
/// its place, with the digest under which it was made, and its history only
/// grows at the end.
pub proof fn lemma_merged_continues(
    entries: Seq<ResourceView>,
    digests: Seq<Seq<char>>,
    names: Seq<Seq<char>>,
    type_names: Seq<Seq<char>>,
    extensions: Seq<Seq<char>>,
)
    requires
        records_wf(entries),
    ensures
        merged(entries, digests, names, type_names, extensions).entries.len() >= entries.len(),
        forall|i: int|
            0 <= i < entries.len() ==> continues(
                #[trigger] entries[i],
                merged(entries, digests, names, type_names, extensions).entries[i],
            ),
    decreases digests.len(),
{
    if digests.len() == 0 {
        assert forall|i: int| 0 <= i < entries.len() implies continues(
            #[trigger] entries[i],
            entries[i],
        ) by {
            assert(entries[i].historical_checksums.take(entries[i].historical_checksums.len() as int)
                == entries[i].historical_checksums);
        }
    } else {
        let m = merged(entries, digests.drop_last(), names.drop_last(), type_names, extensions);
        let next = merged(entries, digests, names, type_names, extensions);
        lemma_merged_continues(entries, digests.drop_last(), names.drop_last(), type_names, extensions);
        lemma_merged_wf(entries, digests.drop_last(), names.drop_last(), type_names, extensions);
        assert(originals(m.entries).len() == m.entries.len());
        assert forall|i: int| 0 <= i < entries.len() implies continues(
            #[trigger] entries[i],
            next.entries[i],
        ) by {
            assert(continues(entries[i], m.entries[i]));
            match claimed_place(m.entries, digests.last(), names.last()) {
                Some(c) => {
                    if c == i {
                        let grown = observed(m.entries[i], digests.last());
                        assert(next.entries[i] == grown);
                        assert(grown.historical_checksums.take(
                            entries[i].historical_checksums.len() as int,
                        ) == m.entries[i].historical_checksums.take(
                            entries[i].historical_checksums.len() as int,
                        ));
                    } else {
                        assert(next.entries[i] == m.entries[i]);
                    }
                },
                None => {
                    assert(next.entries[i] == m.entries[i]);
                },
            }
        }
    }
}

/// The records that stay hold every record that a resource backs and
/// every record that the policy does not remove.
pub proof fn lemma_kept_holds(
    entries: Seq<ResourceView>,
    backed: Seq<bool>,
    policy: OrphanPolicy,
    confirmed: Seq<Seq<char>>,
    i: int,
)
    requires
        backed.len() == entries.len(),
        0 <= i < entries.len(),
        backed[i] || !removes(policy, confirmed, original_digest(entries[i])),
    ensures
        kept(entries, backed, policy, confirmed).contains(entries[i]),
    decreases entries.len(),
{
    let all = kept(entries, backed, policy, confirmed);
    let before = kept(entries.drop_last(), backed.drop_last(), policy, confirmed);
    if i == entries.len() - 1 {
        assert(all == before.push(entries[i]));
        assert(all[before.len() as int] == entries[i]);
    } else {
        lemma_kept_holds(entries.drop_last(), backed.drop_last(), policy, confirmed, i);
        assert(entries.drop_last()[i] == entries[i]);
        let w = choose|w: int| 0 <= w < before.len() && before[w] == entries[i];
        assert(all[w] == entries[i]);
    }
}

/// The history of a record only grows at its end. A record that the
/// catalog held before a reconciliation is held after it, with its history
/// as the beginning of the new one and nothing else changed but the current
/// digest, unless no resource backs it and the policy removes it.
pub proof fn lemma_history_only_grows(
    entries: Seq<ResourceView>,
    digests: Seq<Seq<char>>,
    names: Seq<Seq<char>>,
    type_names: Seq<Seq<char>>,
    extensions: Seq<Seq<char>>,
    policy: OrphanPolicy,
    confirmed: Seq<Seq<char>>,
    i: int,
)
    requires
        records_wf(entries),
        0 <= i < entries.len(),
    ensures
        ({
            let m = merged(entries, digests, names, type_names, extensions);
            let after = reconciled(entries, digests, names, type_names, extensions, policy, confirmed);
            ||| !m.backed[i] && removes(policy, confirmed, original_digest(entries[i]))
            ||| exists|j: int|
                0 <= j < after.len() && original_digest(#[trigger] after[j]) == original_digest(
                    entries[i],
                ) && continues(entries[i], after[j])
        }),
{
    let m = merged(entries, digests, names, type_names, extensions);
    let stay = kept(m.entries, m.backed, policy, confirmed);
    let after = listed(stay);
    lemma_merged_continues(entries, digests, names, type_names, extensions);
    lemma_merged_wf(entries, digests, names, type_names, extensions);
    assert(continues(entries[i], m.entries[i]));
    assert(original_digest(m.entries[i]) == original_digest(entries[i])) by {
        assert(m.entries[i].historical_checksums.take(entries[i].historical_checksums.len() as int)[0]
            == m.entries[i].historical_checksums[0]);
    }
    if m.backed[i] || !removes(policy, confirmed, original_digest(entries[i])) {
        lemma_kept_holds(m.entries, m.backed, policy, confirmed, i);
        lemma_listed_sorts(stay);
        to_multiset_contains(stay, m.entries[i]);
        to_multiset_contains(after, m.entries[i]);
        let j = choose|j: int| 0 <= j < after.len() && after[j] == m.entries[i];
        assert(original_digest(after[j]) == original_digest(entries[i]));
        assert(continues(entries[i], after[j]));
        assert(after == reconciled(entries, digests, names, type_names, extensions, policy, confirmed));
    } else {
        assert(m.backed.len() == m.entries.len());
    }
}

/// A resource backs a record just when the resource ends up under the
/// digest under which the record was made: after a reconciliation, the
/// records that some resource backs are those whose digest is the final
/// name of a resource.
pub proof fn lemma_backed_records_have_files(
    entries: Seq<ResourceView>,
    digests: Seq<Seq<char>>,
    names: Seq<Seq<char>>,
    type_names: Seq<Seq<char>>,
    extensions: Seq<Seq<char>>,
)
    requires
        records_wf(entries),
        digests.len() == names.len(),
    ensures
        final_names(entries, digests, names, type_names, extensions).len() == digests.len(),
        forall|k: int|
            0 <= k < digests.len() ==> originals(
                merged(entries, digests, names, type_names, extensions).entries,
            ).contains(#[trigger] final_names(entries, digests, names, type_names, extensions)[k]),
        forall|j: int|
            0 <= j < merged(entries, digests, names, type_names, extensions).entries.len() ==> (merged(
                entries,
                digests,
                names,
                type_names,
                extensions,
            ).backed[j] <==> final_names(entries, digests, names, type_names, extensions).contains(
                original_digest(
                    #[trigger] merged(entries, digests, names, type_names, extensions).entries[j],
                ),
            )),
    decreases digests.len(),
{
    let next = merged(entries, digests, names, type_names, extensions);
    let targets = final_names(entries, digests, names, type_names, extensions);
    lemma_merged_wf(entries, digests, names, type_names, extensions);
    if digests.len() == 0 {
    } else {
        let m = merged(entries, digests.drop_last(), names.drop_last(), type_names, extensions);
        let before = final_names(entries, digests.drop_last(), names.drop_last(), type_names, extensions);
        lemma_backed_records_have_files(
            entries,
            digests.drop_last(),
            names.drop_last(),
            type_names,
            extensions,
        );
        lemma_merged_wf(entries, digests.drop_last(), names.drop_last(), type_names, extensions);
        lemma_merge_step_wf(m, digests.last(), names.last(), type_names, extensions);
        assert(originals(m.entries).len() == m.entries.len());
        let claimed = claimed_place(m.entries, digests.last(), names.last());
        let target = match claimed {
            Some(i) => original_digest(m.entries[i]),
            None => digests.last(),
        };
        assert(targets == before.push(target));
        assert(targets[before.len() as int] == target);
        assert forall|k: int| 0 <= k < digests.len() implies originals(next.entries).contains(
            #[trigger] targets[k],
        ) by {
            if k < before.len() {
                assert(targets[k] == before[k]);
                let w = choose|w: int|
                    0 <= w < originals(m.entries).len() && originals(m.entries)[w] == before[k];
                assert(originals(next.entries)[w] == before[k]);
            } else {
                match claimed {
                    Some(c) => {
                        assert(originals(next.entries)[c] == target);
                    },
                    None => {
                        assert(originals(next.entries)[m.entries.len() as int] == target);
                    },
                }
            }
        }
        assert forall|j: int| 0 <= j < next.entries.len() implies (next.backed[j] <==> targets.contains(
            original_digest(#[trigger] next.entries[j]),
        )) by {
            let o = original_digest(next.entries[j]);
            assert(originals(next.entries)[j] == o);
            if j < m.entries.len() {
                assert(originals(m.entries)[j] == original_digest(m.entries[j]));
                assert(original_digest(m.entries[j]) == o);
                if before.contains(o) {
                    let w = choose|w: int| 0 <= w < before.len() && before[w] == o;
                    assert(targets[w] == o);
                }
                if targets.contains(o) && !before.contains(o) {
                    let w = choose|w: int| 0 <= w < targets.len() && targets[w] == o;
                    if w < before.len() {
                        assert(before[w] == o);
                    }
                    assert(target == o);
                    match claimed {
                        Some(c) => {
                            assert(originals(m.entries)[c] == original_digest(m.entries[c]));
                            assert(c == j);
                        },
                        None => {
                            assert(originals(next.entries)[m.entries.len() as int] == digests.last());
                        },
                    }
                }
            } else {
                assert(claimed is None);
                assert(o == digests.last());
            }
        }
    }
}

/// Every record of the catalog after a reconciliation is a record of the
/// final state of that reconciliation, and no two of them were made under
/// the same digest.
pub proof fn lemma_reconciled_records(
    entries: Seq<ResourceView>,
    digests: Seq<Seq<char>>,
    names: Seq<Seq<char>>,
    type_names: Seq<Seq<char>>,
    extensions: Seq<Seq<char>>,
    policy: OrphanPolicy,
    confirmed: Seq<Seq<char>>,
)
    requires
        records_wf(entries),
    ensures
        records_wf(reconciled(entries, digests, names, type_names, extensions, policy, confirmed)),
        forall|k: int|
            0 <= k < reconciled(
                entries,
                digests,
                names,
                type_names,
                extensions,
                policy,
                confirmed,
            ).len() ==> merged(entries, digests, names, type_names, extensions).entries.contains(
                #[trigger] reconciled(
                    entries,
                    digests,
                    names,
                    type_names,
                    extensions,
                    policy,
                    confirmed,
                )[k],
            ),
{
    let m = merged(entries, digests, names, type_names, extensions);
    let stay = kept(m.entries, m.backed, policy, confirmed);
    let after = listed(stay);
    lemma_merged_wf(entries, digests, names, type_names, extensions);
    lemma_kept_wf(m.entries, m.backed, policy, confirmed);
    lemma_listed_wf(stay);
    assert forall|k: int| 0 <= k < after.len() implies m.entries.contains(#[trigger] after[k]) by {
        assert(stay.contains(after[k]));
        let w = choose|w: int| 0 <= w < stay.len() && stay[w] == after[k];
        assert(m.entries.contains(stay[w]));
    }
}

/// Each resource has one record: after a reconciliation, exactly one
/// record of the state was made under the final name of the resource.
pub proof fn lemma_one_record_for_each_resource(
    entries: Seq<ResourceView>,
    digests: Seq<Seq<char>>,
    names: Seq<Seq<char>>,
    type_names: Seq<Seq<char>>,
    extensions: Seq<Seq<char>>,
    k: int,
)
    requires
        records_wf(entries),
        digests.len() == names.len(),
        0 <= k < digests.len(),
    ensures
        ({
            let m = merged(entries, digests, names, type_names, extensions);
            let name = final_names(entries, digests, names, type_names, extensions)[k];
            exists|j: int|
                0 <= j < m.entries.len() && original_digest(#[trigger] m.entries[j]) == name && m.backed[j]
                    && forall|other: int|
                    0 <= other < m.entries.len() && original_digest(#[trigger] m.entries[other])
                        == name ==> other == j
        }),
{
    let m = merged(entries, digests, names, type_names, extensions);
    let targets = final_names(entries, digests, names, type_names, extensions);
    lemma_backed_records_have_files(entries, digests, names, type_names, extensions);
    lemma_merged_wf(entries, digests, names, type_names, extensions);
    assert(originals(m.entries).contains(targets[k]));
    let j = choose|j: int| 0 <= j < originals(m.entries).len() && originals(m.entries)[j] == targets[k];
    assert(original_digest(m.entries[j]) == targets[k]);
    assert(targets.contains(original_digest(m.entries[j])));
    assert forall|other: int|
        0 <= other < m.entries.len() && original_digest(#[trigger] m.entries[other])
            == targets[k] implies other == j by {
        assert(originals(m.entries)[other] == originals(m.entries)[j]);
    }
}

/// Whether a resource backs the record `r` in the state `m`.
pub open spec fn is_backed(m: Merge, r: ResourceView) -> bool {
    exists|j: int| 0 <= j < m.entries.len() && #[trigger] m.entries[j] == r && m.backed[j]
}

/// After a reconciliation the digest under which a record of the catalog
/// was made is the name of a resource just when a resource backs the
/// record: the records without a resource are the orphans that stayed.
pub proof fn lemma_records_named_as_files(
    entries: Seq<ResourceView>,
    digests: Seq<Seq<char>>,
    names: Seq<Seq<char>>,
    type_names: Seq<Seq<char>>,
    extensions: Seq<Seq<char>>,
    policy: OrphanPolicy,
    confirmed: Seq<Seq<char>>,
)
    requires
        records_wf(entries),
        digests.len() == names.len(),
    ensures
        forall|k: int|
            0 <= k < reconciled(
                entries,
                digests,
                names,
                type_names,
                extensions,
                policy,
                confirmed,
            ).len() ==> (final_names(entries, digests, names, type_names, extensions).contains(
                original_digest(
                    #[trigger] reconciled(
                        entries,
                        digests,
                        names,
                        type_names,
                        extensions,
                        policy,
                        confirmed,
                    )[k],
                ),
            ) <==> is_backed(
                merged(entries, digests, names, type_names, extensions),
                reconciled(entries, digests, names, type_names, extensions, policy, confirmed)[k],
            )),
{
    let m = merged(entries, digests, names, type_names, extensions);
    let after = reconciled(entries, digests, names, type_names, extensions, policy, confirmed);
    let targets = final_names(entries, digests, names, type_names, extensions);
    lemma_reconciled_records(entries, digests, names, type_names, extensions, policy, confirmed);
    lemma_backed_records_have_files(entries, digests, names, type_names, extensions);
    lemma_merged_wf(entries, digests, names, type_names, extensions);
    assert forall|k: int| 0 <= k < after.len() implies (targets.contains(
        original_digest(#[trigger] after[k]),
    ) <==> is_backed(m, after[k])) by {
        let j = choose|j: int| 0 <= j < m.entries.len() && m.entries[j] == after[k];
        if is_backed(m, after[k]) {
            let w = choose|w: int| 0 <= w < m.entries.len() && m.entries[w] == after[k] && m.backed[w];
            assert(targets.contains(original_digest(m.entries[w])));
        }
        if targets.contains(original_digest(after[k])) {
            assert(targets.contains(original_digest(m.entries[j])));
            assert(m.backed[j]);
        }
    }
}

/// A scan keeps one resource of each digest. The digests of the snapshot
/// differ from each other; every resource is either in the snapshot or among
/// the duplicates; and the digest of every resource is in the snapshot.
pub proof fn lemma_scan_keeps_one_of_each(
    keys: Seq<Seq<char>>,
    values: Seq<CacheFieldsView>,
    sightings: Seq<SightingView>,
    use_cache: bool,
    now: u64,
)
    ensures
        distinct(scanned(keys, values, sightings, use_cache, now).digests),
        scanned(keys, values, sightings, use_cache, now).names.len() == scanned(
            keys,
            values,
            sightings,
            use_cache,
            now,
        ).digests.len(),
        scanned(keys, values, sightings, use_cache, now).cache_keys.len() == scanned(
            keys,
            values,
            sightings,
            use_cache,
            now,
        ).cache_values.len(),
        scanned(keys, values, sightings, use_cache, now).names.len() + scanned(
            keys,
            values,
            sightings,
            use_cache,
            now,
        ).duplicates.len() == sightings.len(),
        forall|i: int|
            0 <= i < sightings.len() ==> scanned(keys, values, sightings, use_cache, now).digests.contains(
                effective_digest(keys, values, #[trigger] sightings[i], use_cache),
            ),
    decreases sightings.len(),
{
    let st = scanned(keys, values, sightings, use_cache, now);
    if sightings.len() > 0 {
        let head = sightings.drop_last();
        let last = sightings.last();
        let before = scanned(keys, values, head, use_cache, now);
        let digest = effective_digest(keys, values, last, use_cache);
        lemma_scan_keeps_one_of_each(keys, values, head, use_cache, now);
        assert forall|i: int| 0 <= i < sightings.len() implies st.digests.contains(
            effective_digest(keys, values, #[trigger] sightings[i], use_cache),
        ) by {
            let d = effective_digest(keys, values, sightings[i], use_cache);
            if i < head.len() {
                assert(head[i] == sightings[i]);
                let w = choose|w: int| 0 <= w < before.digests.len() && before.digests[w] == d;
                assert(st.digests[w] == d);
            } else if before.digests.contains(digest) {
                let w = choose|w: int| 0 <= w < before.digests.len() && before.digests[w] == digest;
                assert(st.digests[w] == d);
            } else {
                assert(st.digests[before.digests.len() as int] == d);
            }
        }
        if !before.digests.contains(digest) {
            assert forall|a: int, b: int| 0 <= a < b < st.digests.len() implies #[trigger] st.digests[a]
                != #[trigger] st.digests[b] by {
                if b == before.digests.len() {
                    assert(before.digests[a] != digest);
                }
            }
        }
    }
}

/// Of two resources with one digest the scan takes the later one for a
/// duplicate.
pub proof fn lemma_scan_drops_the_later(
    keys: Seq<Seq<char>>,
    values: Seq<CacheFieldsView>,
    sightings: Seq<SightingView>,
    use_cache: bool,
    now: u64,
    i: int,
    j: int,
)
    requires
        0 <= i < j < sightings.len(),
        effective_digest(keys, values, sightings[i], use_cache) == effective_digest(
            keys,
            values,
            sightings[j],
            use_cache,
        ),
    ensures
        scanned(keys, values, sightings, use_cache, now).duplicates.contains(sightings[j].name),
    decreases sightings.len(),
{
    let st = scanned(keys, values, sightings, use_cache, now);
    let head = sightings.drop_last();
    let before = scanned(keys, values, head, use_cache, now);
    assert(head[i] == sightings[i]);
    if j < head.len() {
        assert(head[j] == sightings[j]);
        lemma_scan_drops_the_later(keys, values, head, use_cache, now, i, j);
        let w = choose|w: int|
            0 <= w < before.duplicates.len() && before.duplicates[w] == sightings[j].name;
        assert(st.duplicates[w] == sightings[j].name);
    } else {
        lemma_scan_keeps_one_of_each(keys, values, head, use_cache, now);
        assert(before.digests.contains(effective_digest(keys, values, head[i], use_cache)));
        assert(st.duplicates[before.duplicates.len() as int] == sightings[j].name);
    }
}

/// Where the cache answers for a resource, the scan does not look at the
/// digest of the sighting: no content has to be read for it.
pub proof fn lemma_cache_spares_digest(
    st: Scan,
    keys: Seq<Seq<char>>,
    values: Seq<CacheFieldsView>,
    s: SightingView,
    other: Seq<char>,
    now: u64,
)
    requires
        cached_digest(keys, values, s.name, s.modified, true) is Some,
    ensures
        scan_step(st, keys, values, s, true, now) == scan_step(
            st,
            keys,
            values,
            SightingView { digest: other, ..s },
            true,
            now,
        ),
{
}

/// Every record that stays was backed by a resource or spared by the
/// policy.
pub proof fn lemma_kept_records_stay_for_a_reason(
    entries: Seq<ResourceView>,
    backed: Seq<bool>,
    policy: OrphanPolicy,
    confirmed: Seq<Seq<char>>,
)
    requires
        backed.len() == entries.len(),
    ensures
        forall|w: int|
            0 <= w < kept(entries, backed, policy, confirmed).len() ==> exists|i: int|
                0 <= i < entries.len() && entries[i] == #[trigger] kept(
                    entries,
                    backed,
                    policy,
                    confirmed,
                )[w] && (backed[i] || !removes(policy, confirmed, original_digest(entries[i]))),
    decreases entries.len(),
{
    if entries.len() > 0 {
        let head = entries.drop_last();
        let before = kept(head, backed.drop_last(), policy, confirmed);
        let all = kept(entries, backed, policy, confirmed);
        lemma_kept_records_stay_for_a_reason(head, backed.drop_last(), policy, confirmed);
        assert forall|w: int| 0 <= w < all.len() implies exists|i: int|
            0 <= i < entries.len() && entries[i] == #[trigger] all[w] && (backed[i] || !removes(
                policy,
                confirmed,
                original_digest(entries[i]),
            )) by {
            if w < before.len() {
                let i = choose|i: int|
                    0 <= i < head.len() && head[i] == before[w] && (backed.drop_last()[i] || !removes(
                        policy,
                        confirmed,
                        original_digest(head[i]),
                    ));
                assert(entries[i] == all[w] && backed[i] == backed.drop_last()[i]);
            } else {
                let i = entries.len() - 1;
                assert(entries[i] == all[w]);
            }
        }
    }
}

/// Where every record is backed or spared by the policy, all records stay.
pub proof fn lemma_kept_all(
    entries: Seq<ResourceView>,
    backed: Seq<bool>,
    policy: OrphanPolicy,
    confirmed: Seq<Seq<char>>,
)
    requires
        backed.len() == entries.len(),
        forall|i: int|
            0 <= i < entries.len() ==> backed[i] || !removes(
                policy,
                confirmed,
                original_digest(#[trigger] entries[i]),
            ),
    ensures
        kept(entries, backed, policy, confirmed) == entries,
    decreases entries.len(),
{
    if entries.len() > 0 {
        let head = entries.drop_last();
        assert forall|i: int| 0 <= i < head.len() implies backed.drop_last()[i] || !removes(
            policy,
            confirmed,
            original_digest(#[trigger] head[i]),
        ) by {
            assert(head[i] == entries[i]);
        }
        lemma_kept_all(head, backed.drop_last(), policy, confirmed);
        assert(entries[entries.len() - 1] == entries.last());
        assert(head.push(entries.last()) == entries);
    }
}

/// Whether the state `m` holds a record that was made under `name`, is
/// backed and has `digest` as its current digest.
pub open spec fn marked(m: Merge, name: Seq<char>, digest: Seq<char>) -> bool {
    exists|c: int|
        0 <= c < m.entries.len() && c < m.backed.len() && original_digest(#[trigger] m.entries[c])
            == name && m.backed[c] && m.entries[c].checksum == digest
}

/// Whether `entries` holds a record that was made under `name` and has
/// `digest` as its current digest.
pub open spec fn settled(entries: Seq<ResourceView>, name: Seq<char>, digest: Seq<char>) -> bool {
    exists|j: int|
        0 <= j < entries.len() && original_digest(#[trigger] entries[j]) == name
            && entries[j].checksum == digest
}

/// Where no two resources end up under one name, each resource leaves its
/// mark on one record: after the reconciliation the record made under the
/// final name of the resource is backed and has the digest of the resource
/// as its current digest.
pub proof fn lemma_each_resource_has_its_record(
    entries: Seq<ResourceView>,
    digests: Seq<Seq<char>>,
    names: Seq<Seq<char>>,
    type_names: Seq<Seq<char>>,
    extensions: Seq<Seq<char>>,
)
    requires
        records_wf(entries),
        digests.len() == names.len(),
        distinct(final_names(entries, digests, names, type_names, extensions)),
    ensures
        final_names(entries, digests, names, type_names, extensions).len() == digests.len(),
        forall|k: int|
            0 <= k < digests.len() ==> marked(
                merged(entries, digests, names, type_names, extensions),
                #[trigger] final_names(entries, digests, names, type_names, extensions)[k],
                digests[k],
            ),
    decreases digests.len(),
{
    let next = merged(entries, digests, names, type_names, extensions);
    let targets = final_names(entries, digests, names, type_names, extensions);
    lemma_backed_records_have_files(entries, digests, names, type_names, extensions);
    if digests.len() > 0 {
        let m = merged(entries, digests.drop_last(), names.drop_last(), type_names, extensions);
        let before = final_names(entries, digests.drop_last(), names.drop_last(), type_names, extensions);
        let claimed = claimed_place(m.entries, digests.last(), names.last());
        let target = match claimed {
            Some(i) => original_digest(m.entries[i]),
            None => digests.last(),
        };
        assert(targets == before.push(target));
        assert forall|a: int, b: int| 0 <= a < b < before.len() implies #[trigger] before[a]
            != #[trigger] before[b] by {
            assert(targets[a] == before[a] && targets[b] == before[b]);
        }
        lemma_each_resource_has_its_record(
            entries,
            digests.drop_last(),
            names.drop_last(),
            type_names,
            extensions,
        );
        lemma_merged_wf(entries, digests.drop_last(), names.drop_last(), type_names, extensions);
        lemma_merge_step_wf(m, digests.last(), names.last(), type_names, extensions);
        assert(originals(m.entries).len() == m.entries.len());
        assert forall|k: int| 0 <= k < digests.len() implies marked(
            next,
            #[trigger] targets[k],
            digests[k],
        ) by {
            if k < before.len() {
                assert(targets[k] == before[k]);
                assert(targets[before.len() as int] == target);
                assert(before[k] != target);
                assert(marked(m, before[k], digests.drop_last()[k]));
                let c = choose|c: int|
                    0 <= c < m.entries.len() && c < m.backed.len() && original_digest(
                        #[trigger] m.entries[c],
                    ) == before[k] && m.backed[c] && m.entries[c].checksum == digests.drop_last()[k];
                match claimed {
                    Some(i) => {
                        assert(i != c);
                        assert(next.entries[c] == m.entries[c]);
                    },
                    None => {
                        assert(next.entries[c] == m.entries[c]);
                    },
                }
                assert(original_digest(next.entries[c]) == targets[k] && next.backed[c]
                    && next.entries[c].checksum == digests[k]);
            } else {
                match claimed {
                    Some(i) => {
                        assert(record_wf(m.entries[i]));
                        assert(original_digest(next.entries[i]) == targets[k] && next.backed[i]
                            && next.entries[i].checksum == digests[k]);
                    },
                    None => {
                        let c = m.entries.len() as int;
                        assert(original_digest(next.entries[c]) == targets[k] && next.backed[c]
                            && next.entries[c].checksum == digests[k]);
                    },
                }
            }
        }
    }
}

/// A reconciliation with resources that are all named after their records
/// and have the current digests of those records changes no record and asks
/// for no rename.
pub proof fn lemma_settled_resources_change_nothing(
    entries: Seq<ResourceView>,
    digests: Seq<Seq<char>>,
    names: Seq<Seq<char>>,
    type_names: Seq<Seq<char>>,
    extensions: Seq<Seq<char>>,
)
    requires
        records_wf(entries),
        digests.len() == names.len(),
        forall|k: int| 0 <= k < digests.len() ==> settled(entries, #[trigger] names[k], digests[k]),
    ensures
        merged(entries, digests, names, type_names, extensions).entries == entries,
        merged(entries, digests, names, type_names, extensions).renames == Seq::<
            (Seq<char>, Seq<char>),
        >::empty(),
        final_names(entries, digests, names, type_names, extensions) == names,
    decreases digests.len(),
{
    if digests.len() > 0 {
        let head_digests = digests.drop_last();
        let head_names = names.drop_last();
        assert forall|k: int| 0 <= k < head_digests.len() implies settled(
            entries,
            #[trigger] head_names[k],
            head_digests[k],
        ) by {
            assert(head_names[k] == names[k] && head_digests[k] == digests[k]);
        }
        lemma_settled_resources_change_nothing(entries, head_digests, head_names, type_names, extensions);
        let m = merged(entries, head_digests, head_names, type_names, extensions);
        let last = digests.len() - 1;
        assert(names.last() == names[last] && digests.last() == digests[last]);
        assert(settled(entries, names[last], digests[last]));
        let j = choose|j: int|
            0 <= j < entries.len() && original_digest(#[trigger] entries[j]) == names[last]
                && entries[j].checksum == digests[last];
        assert(originals(entries)[j] == names[last]);
        assert(originals(entries).contains(names[last]));
        let c = place_of(originals(entries), names[last])->0;
        assert(c == j);
        assert(observed(entries[j], digests[last]) == entries[j]);
        assert(entries.update(j, entries[j]) == entries);
        assert(final_names(entries, head_digests, head_names, type_names, extensions).push(names[last])
            == names);
    } else {
        assert(names == Seq::<Seq<char>>::empty());
    }
}

/// Whether the resources of `other_digests` and `other_names` are those of
/// `digests` and `names`, whatever their order.
pub open spec fn same_resources(
    digests: Seq<Seq<char>>,
    names: Seq<Seq<char>>,
    other_digests: Seq<Seq<char>>,
    other_names: Seq<Seq<char>>,
) -> bool {
    &&& digests.len() == names.len()
    &&& other_digests.len() == other_names.len()
    &&& forall|k: int|
        0 <= k < digests.len() ==> has_resource(
            other_digests,
            other_names,
            #[trigger] digests[k],
            names[k],
        )
    &&& forall|w: int|
        0 <= w < other_digests.len() ==> has_resource(
            digests,
            names,
            #[trigger] other_digests[w],
            other_names[w],
        )
}

/// Whether one of the resources has the digest `digest` and the name
/// `name`.
pub open spec fn has_resource(
    digests: Seq<Seq<char>>,
    names: Seq<Seq<char>>,
    digest: Seq<char>,
    name: Seq<char>,
) -> bool {
    exists|k: int|
        0 <= k < digests.len() && k < names.len() && #[trigger] digests[k] == digest && names[k]
            == name
}

/// A record that bears the mark of a resource stays in the catalog.
proof fn lemma_marked_record_stays(
    m: Merge,
    policy: OrphanPolicy,
    confirmed: Seq<Seq<char>>,
    name: Seq<char>,
    digest: Seq<char>,
)
    requires
        m.backed.len() == m.entries.len(),
        marked(m, name, digest),
    ensures
        settled(listed(kept(m.entries, m.backed, policy, confirmed)), name, digest),
{
    let stay = kept(m.entries, m.backed, policy, confirmed);
    let after = listed(stay);
    let c = choose|c: int|
        0 <= c < m.entries.len() && c < m.backed.len() && original_digest(#[trigger] m.entries[c])
            == name && m.backed[c] && m.entries[c].checksum == digest;
    lemma_kept_holds(m.entries, m.backed, policy, confirmed, c);
    lemma_listed_sorts(stay);
    to_multiset_contains(stay, m.entries[c]);
    to_multiset_contains(after, m.entries[c]);
    let j = choose|j: int| 0 <= j < after.len() && after[j] == m.entries[c];
    assert(original_digest(after[j]) == name && after[j].checksum == digest);
}

/// A record that stayed after a reconciliation is, in a further
/// reconciliation with the same resources under their new names, backed
/// again or spared by the policy again.
proof fn lemma_staying_record_stays_again(
    entries: Seq<ResourceView>,
    digests: Seq<Seq<char>>,
    names: Seq<Seq<char>>,
    type_names: Seq<Seq<char>>,
    extensions: Seq<Seq<char>>,
    policy: OrphanPolicy,
    confirmed: Seq<Seq<char>>,
    later_names: Seq<Seq<char>>,
    r: ResourceView,
)
    requires
        records_wf(entries),
        digests.len() == names.len(),
        reconciled(entries, digests, names, type_names, extensions, policy, confirmed).contains(r),
        forall|k: int|
            0 <= k < digests.len() ==> later_names.contains(
                #[trigger] final_names(entries, digests, names, type_names, extensions)[k],
            ),
    ensures
        later_names.contains(original_digest(r)) || !removes(policy, confirmed, original_digest(r)),
{
    let m = merged(entries, digests, names, type_names, extensions);
    let targets = final_names(entries, digests, names, type_names, extensions);
    let stay = kept(m.entries, m.backed, policy, confirmed);
    let after = listed(stay);
    lemma_merged_wf(entries, digests, names, type_names, extensions);
    lemma_backed_records_have_files(entries, digests, names, type_names, extensions);
    lemma_kept_records_stay_for_a_reason(m.entries, m.backed, policy, confirmed);
    lemma_listed_sorts(stay);
    to_multiset_contains(stay, r);
    to_multiset_contains(after, r);
    let w = choose|w: int| 0 <= w < stay.len() && stay[w] == r;
    let i = choose|i: int|
        0 <= i < m.entries.len() && m.entries[i] == stay[w] && (m.backed[i] || !removes(
            policy,
            confirmed,
            original_digest(m.entries[i]),
        ));
    if m.backed[i] {
        assert(targets.contains(original_digest(m.entries[i])));
        let k = choose|k: int| 0 <= k < targets.len() && targets[k] == original_digest(m.entries[i]);
        assert(later_names.contains(targets[k]));
    }
}

/// A second reconciliation changes nothing. Let a reconciliation end with
/// no two resources under one name, and let the renames be made. A further
/// reconciliation with the same policy, which finds the same resources with
/// the same digests under their new names, in whatever order, leaves the
/// records of the catalog as they are and asks for no rename.
pub proof fn lemma_second_run_changes_nothing(
    entries: Seq<ResourceView>,
    digests: Seq<Seq<char>>,
    names: Seq<Seq<char>>,
    type_names: Seq<Seq<char>>,
    extensions: Seq<Seq<char>>,
    policy: OrphanPolicy,
    confirmed: Seq<Seq<char>>,
    later_digests: Seq<Seq<char>>,
    later_names: Seq<Seq<char>>,
    later_type_names: Seq<Seq<char>>,
    later_extensions: Seq<Seq<char>>,
)
    requires
        records_wf(entries),
        digests.len() == names.len(),
        distinct(final_names(entries, digests, names, type_names, extensions)),
        same_resources(
            digests,
            final_names(entries, digests, names, type_names, extensions),
            later_digests,
            later_names,
        ),
    ensures
        reconciled(
            reconciled(entries, digests, names, type_names, extensions, policy, confirmed),
            later_digests,
            later_names,
            later_type_names,
            later_extensions,
            policy,
            confirmed,
        ) == reconciled(entries, digests, names, type_names, extensions, policy, confirmed),
        merged(
            reconciled(entries, digests, names, type_names, extensions, policy, confirmed),
            later_digests,
            later_names,
            later_type_names,
            later_extensions,
        ).renames == Seq::<(Seq<char>, Seq<char>)>::empty(),
{
    let m = merged(entries, digests, names, type_names, extensions);
    let targets = final_names(entries, digests, names, type_names, extensions);
    let after = reconciled(entries, digests, names, type_names, extensions, policy, confirmed);
    lemma_merged_wf(entries, digests, names, type_names, extensions);
    lemma_each_resource_has_its_record(entries, digests, names, type_names, extensions);
    lemma_reconciled_records(entries, digests, names, type_names, extensions, policy, confirmed);
    assert forall|w: int| 0 <= w < later_digests.len() implies settled(
        after,
        #[trigger] later_names[w],
        later_digests[w],
    ) by {
        assert(has_resource(digests, targets, later_digests[w], later_names[w]));
        let k = choose|k: int|
            0 <= k < digests.len() && k < targets.len() && #[trigger] digests[k] == later_digests[w]
                && targets[k] == later_names[w];
        assert(marked(m, targets[k], digests[k]));
        lemma_marked_record_stays(m, policy, confirmed, later_names[w], later_digests[w]);
    }
    lemma_settled_resources_change_nothing(
        after,
        later_digests,
        later_names,
        later_type_names,
        later_extensions,
    );
    let again = merged(after, later_digests, later_names, later_type_names, later_extensions);
    lemma_backed_records_have_files(
        after,
        later_digests,
        later_names,
        later_type_names,
        later_extensions,
    );
    lemma_merged_wf(after, later_digests, later_names, later_type_names, later_extensions);
    assert forall|k: int| 0 <= k < digests.len() implies later_names.contains(#[trigger] targets[k]) by {
        assert(has_resource(later_digests, later_names, digests[k], targets[k]));
        let w = choose|w: int|
            0 <= w < later_digests.len() && w < later_names.len() && #[trigger] later_digests[w]
                == digests[k] && later_names[w] == targets[k];
        assert(later_names[w] == targets[k]);
    }
    assert forall|j: int| 0 <= j < after.len() implies again.backed[j] || !removes(
        policy,
        confirmed,
        original_digest(#[trigger] after[j]),
    ) by {
        assert(after.contains(after[j]));
        lemma_staying_record_stays_again(
            entries,
            digests,
            names,
            type_names,
            extensions,
            policy,
            confirmed,
            later_names,
            after[j],
        );
        assert(again.entries[j] == after[j]);
    }
    lemma_kept_all(after, again.backed, policy, confirmed);
    lemma_listed_sorts(kept(m.entries, m.backed, policy, confirmed));
    lemma_listed_keeps_order(after);
}

/// The names of the sightings.
pub open spec fn sighting_names(sightings: Seq<SightingView>) -> Seq<Seq<char>> {
    sightings.map_values(|s: SightingView| s.name)
}

/// Whether the cache of `keys` and `values` answers for every sighting.
pub open spec fn cache_answers_all(
    keys: Seq<Seq<char>>,
    values: Seq<CacheFieldsView>,
    sightings: Seq<SightingView>,
) -> bool {
    forall|i: int|
        0 <= i < sightings.len() ==> cached_digest(
            keys,
            values,
            (#[trigger] sightings[i]).name,
            sightings[i].modified,
            true,
        ) is Some
}

/// The entries that the cache holds for the sightings.
pub open spec fn answering_entries(
    keys: Seq<Seq<char>>,
    values: Seq<CacheFieldsView>,
    sightings: Seq<SightingView>,
) -> Seq<CacheFieldsView> {
    sightings.map_values(|s: SightingView| values[place_of(keys, s.name)->0])
}

/// The digests that the cache answers for the sightings.
pub open spec fn answered_digests(
    keys: Seq<Seq<char>>,
    values: Seq<CacheFieldsView>,
    sightings: Seq<SightingView>,
) -> Seq<Seq<char>> {
    sightings.map_values(|s: SightingView| values[place_of(keys, s.name)->0].checksum)
}

/// A scan of resources for which the cache answers throughout, no two of
/// them with one name or one digest, finds no duplicate; its snapshot holds
/// every resource with the digest that the cache answered, and its new
/// cache holds for every resource the entry that the cache had.
pub proof fn lemma_scan_of_known_resources(
    keys: Seq<Seq<char>>,
    values: Seq<CacheFieldsView>,
    sightings: Seq<SightingView>,
    now: u64,
)
    requires
        cache_answers_all(keys, values, sightings),
        distinct(sighting_names(sightings)),
        distinct(answered_digests(keys, values, sightings)),
    ensures
        scanned(keys, values, sightings, true, now).duplicates == Seq::<Seq<char>>::empty(),
        scanned(keys, values, sightings, true, now).names == sighting_names(sightings),
        scanned(keys, values, sightings, true, now).digests == answered_digests(
            keys,
            values,
            sightings,
        ),
        scanned(keys, values, sightings, true, now).cache_keys == sighting_names(sightings),
        scanned(keys, values, sightings, true, now).cache_values == answering_entries(
            keys,
            values,
            sightings,
        ),
    decreases sightings.len(),
{
    let st = scanned(keys, values, sightings, true, now);
    if sightings.len() == 0 {
        assert(sighting_names(sightings) =~= Seq::<Seq<char>>::empty());
        assert(answered_digests(keys, values, sightings) =~= Seq::<Seq<char>>::empty());
        assert(answering_entries(keys, values, sightings) =~= Seq::<CacheFieldsView>::empty());
    } else {
        let head = sightings.drop_last();
        let last = sightings.last();
        let n = head.len() as int;
        assert forall|i: int| 0 <= i < head.len() implies cached_digest(
            keys,
            values,
            (#[trigger] head[i]).name,
            head[i].modified,
            true,
        ) is Some by {
            assert(head[i] == sightings[i]);
        }
        assert forall|a: int, b: int| 0 <= a < b < head.len() implies #[trigger] sighting_names(head)[a]
            != #[trigger] sighting_names(head)[b] by {
            assert(sighting_names(sightings)[a] == sighting_names(head)[a]);
            assert(sighting_names(sightings)[b] == sighting_names(head)[b]);
        }
        assert forall|a: int, b: int| 0 <= a < b < head.len() implies #[trigger] answered_digests(
            keys,
            values,
            head,
        )[a] != #[trigger] answered_digests(keys, values, head)[b] by {
            assert(answered_digests(keys, values, sightings)[a] == answered_digests(keys, values, head)[a]);
            assert(answered_digests(keys, values, sightings)[b] == answered_digests(keys, values, head)[b]);
        }
        lemma_scan_of_known_resources(keys, values, head, now);
        let before = scanned(keys, values, head, true, now);
        assert(sightings[n] == last);
        let digest = effective_digest(keys, values, last, true);
        assert(digest == answered_digests(keys, values, sightings)[n]);
        assert(!before.digests.contains(digest)) by {
            if before.digests.contains(digest) {
                let w = choose|w: int| 0 <= w < before.digests.len() && before.digests[w] == digest;
                assert(answered_digests(keys, values, sightings)[w] == answered_digests(
                    keys,
                    values,
                    head,
                )[w]);
            }
        }
        assert(cache_key(keys, last) == last.name);
        assert(!before.cache_keys.contains(last.name)) by {
            if before.cache_keys.contains(last.name) {
                let w = choose|w: int| 0 <= w < before.cache_keys.len() && before.cache_keys[w] == last.name;
                assert(sighting_names(sightings)[w] == sighting_names(head)[w]);
                assert(sighting_names(sightings)[n] == last.name);
            }
        }
        assert(st.names =~= sighting_names(sightings));
        assert(st.digests =~= answered_digests(keys, values, sightings));
        assert(st.cache_keys =~= sighting_names(sightings));
        assert(st.cache_values =~= answering_entries(keys, values, sightings));
    }
}

/// The order of texts as a relation.
pub open spec fn text_order() -> spec_fn(Seq<char>, Seq<char>) -> bool {
    |a: Seq<char>, b: Seq<char>| text_lt(a, b)
}

/// The order of texts is strict, and texts that ascend in it ascend as a
/// list.
proof fn lemma_text_order_fits(keys: Seq<Seq<char>>)
    requires
        ascending(keys),
    ensures
        strict(text_order()),
        ascending_by(keys, text_order()),
{
    assert forall|x: Seq<char>, y: Seq<char>| !(#[trigger] text_order()(x, y) && text_order()(y, x)) by {
        lemma_text_order_strict(x, y);
    }
}

/// Two ascending lists of texts that hold the same texts are the same
/// list.
proof fn lemma_sorted_keys_agree(keys: Seq<Seq<char>>, other_keys: Seq<Seq<char>>)
    requires
        ascending(keys),
        ascending(other_keys),
        all_in(keys, other_keys),
        all_in(other_keys, keys),
    ensures
        keys == other_keys,
{
    lemma_text_order_fits(keys);
    lemma_text_order_fits(other_keys);
    lemma_ascending_is_unique(keys, other_keys, text_order());
}

/// Two tables with ascending keys that hold the same keys with the same
/// values are the same table.
pub proof fn lemma_sorted_tables_agree<V>(
    keys: Seq<Seq<char>>,
    values: Seq<V>,
    other_keys: Seq<Seq<char>>,
    other_values: Seq<V>,
)
    requires
        keys.len() == values.len(),
        other_keys.len() == other_values.len(),
        ascending(keys),
        ascending(other_keys),
        forall|i: int|
            0 <= i < keys.len() ==> holds_pair(other_keys, other_values, #[trigger] keys[i], values[i]),
        forall|i: int|
            0 <= i < other_keys.len() ==> holds_pair(
                keys,
                values,
                #[trigger] other_keys[i],
                other_values[i],
            ),
    ensures
        keys == other_keys,
        values == other_values,
{
    assert forall|k: int| 0 <= k < keys.len() implies other_keys.contains(#[trigger] keys[k]) by {
        assert(holds_pair(other_keys, other_values, keys[k], values[k]));
    }
    assert forall|k: int| 0 <= k < other_keys.len() implies keys.contains(#[trigger] other_keys[k]) by {
        assert(holds_pair(keys, values, other_keys[k], other_values[k]));
    }
    lemma_sorted_keys_agree(keys, other_keys);
    assert forall|i: int| 0 <= i < values.len() implies #[trigger] values[i] == other_values[i] by {
        assert(holds_pair(other_keys, other_values, keys[i], values[i]));
        let j = choose|j: int|
            0 <= j < other_keys.len() && j < other_values.len() && other_keys[j] == keys[i]
                && other_values[j] == values[i];
        lemma_text_order_strict(other_keys[j], other_keys[j]);
        if j < i {
            assert(text_lt(other_keys[j], other_keys[i]));
        } else if j > i {
            assert(text_lt(other_keys[i], other_keys[j]));
        }
    }
    assert(values =~= other_values);
}

/// A second scan changes nothing. Let the cache, its names ascending,
/// answer for every resource of the directory, no two resources with one
/// name or one digest, and let it hold an entry for none but these
/// resources. Then a scan finds no duplicate, and its new cache, sorted, is
/// the cache as it was.
pub proof fn lemma_second_scan_changes_nothing(
    keys: Seq<Seq<char>>,
    values: Seq<CacheFieldsView>,
    sightings: Seq<SightingView>,
    now: u64,
    sorted_keys: Seq<Seq<char>>,
    sorted_values: Seq<CacheFieldsView>,
)
    requires
        keys.len() == values.len(),
        ascending(keys),
        cache_answers_all(keys, values, sightings),
        distinct(sighting_names(sightings)),
        distinct(answered_digests(keys, values, sightings)),
        forall|p: int| 0 <= p < keys.len() ==> sighting_names(sightings).contains(#[trigger] keys[p]),
        sorted_keys.len() == sorted_values.len(),
        ascending(sorted_keys),
        same_pairs(
            scanned(keys, values, sightings, true, now).cache_keys,
            scanned(keys, values, sightings, true, now).cache_values,
            sorted_keys,
            sorted_values,
        ),
    ensures
        scanned(keys, values, sightings, true, now).duplicates == Seq::<Seq<char>>::empty(),
        sorted_keys == keys,
        sorted_values == values,
{
    let st = scanned(keys, values, sightings, true, now);
    lemma_scan_of_known_resources(keys, values, sightings, now);
    let names = sighting_names(sightings);
    let entries = answering_entries(keys, values, sightings);
    assert forall|p: int, q: int| 0 <= p < q < keys.len() implies keys[p] != keys[q] by {
        lemma_text_order_strict(keys[p], keys[p]);
    }
    // every name is a key of the cache, and the other way round; so there are
    // as many names as keys
    assert forall|i: int| 0 <= i < names.len() implies keys.contains(#[trigger] names[i]) && holds_pair(
        keys,
        values,
        names[i],
        entries[i],
    ) by {
        assert(place_of(keys, sightings[i].name) is Some);
        let p = place_of(keys, sightings[i].name)->0;
        assert(keys[p] == names[i] && values[p] == entries[i]);
    }
    assert forall|p: int| 0 <= p < keys.len() implies holds_pair(
        names,
        entries,
        #[trigger] keys[p],
        values[p],
    ) by {
        let i = choose|i: int| 0 <= i < names.len() && names[i] == keys[p];
        let c = place_of(keys, sightings[i].name)->0;
        assert(keys[c] == keys[p]);
        if c < p {
            assert(keys[c] != keys[p]);
        } else if c > p {
            assert(keys[p] != keys[c]);
        }
        assert(entries[i] == values[p]);
    }
    assert forall|i: int| 0 <= i < sorted_keys.len() implies holds_pair(
        keys,
        values,
        #[trigger] sorted_keys[i],
        sorted_values[i],
    ) by {
        assert(holds_pair(names, entries, sorted_keys[i], sorted_values[i]));
        let j = choose|j: int|
            0 <= j < names.len() && j < entries.len() && names[j] == sorted_keys[i] && entries[j]
                == sorted_values[i];
        assert(holds_pair(keys, values, names[j], entries[j]));
    }
    assert forall|p: int| 0 <= p < keys.len() implies holds_pair(
        sorted_keys,
        sorted_values,
        #[trigger] keys[p],
        values[p],
    ) by {
        assert(holds_pair(names, entries, keys[p], values[p]));
        let j = choose|j: int|
            0 <= j < names.len() && j < entries.len() && names[j] == keys[p] && entries[j] == values[p];
        assert(holds_pair(sorted_keys, sorted_values, names[j], entries[j]));
    }
    lemma_sorted_tables_agree(keys, values, sorted_keys, sorted_values);
}

} // verus!
