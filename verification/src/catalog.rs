//! The catalog and its reconciliation with what a scan of the resources
//! directory found.

use vstd::prelude::*;
use vstd::seq_lib::to_multiset_contains;
use vstd::string::*;
use crate::bibtex::BibtexType;
use crate::cache::Cache;
use crate::scanner::{scan, scanned, sighting_views, Sighting};
use crate::ranking::{lemma_listed_sorts, listed, record_views, sort_records};
use crate::resource::{original_digest, record_wf, DocumentType, Resource, ResourceView};
use crate::table::{ascending, distinct, place_of, same_pairs, Table};
use crate::text::{chars_of, same_text, texts};

verus! {

/// What becomes of a record that no resource backs.
#[derive(Debug, Clone, Copy, PartialEq, Eq, Structural)]
pub enum OrphanPolicy {
    /// The record stays.
    Keep,
    /// The record goes.
    Remove,
    /// The record goes where the operator agreed to it.
    Ask,
}

/// A resource that is to get another name in the resources directory.
#[derive(Debug, PartialEq, Eq)]
pub struct Rename {
    pub from: String,
    pub to: String,
}

/// The catalog: its records and the tables of document and content types.
#[derive(Debug)]
pub struct Catalog {
    pub document_types: Table<DocumentType>,
    pub content_types: Table<BibtexType>,
    pub resources: Vec<Resource>,
}

/// The digests under which the records were made.
pub open spec fn originals(entries: Seq<ResourceView>) -> Seq<Seq<char>> {
    entries.map_values(|r: ResourceView| original_digest(r))
}

/// Whether every record has its history in order and no two records were
/// made under the same digest.
pub open spec fn records_wf(entries: Seq<ResourceView>) -> bool {
    &&& forall|i: int| 0 <= i < entries.len() ==> record_wf(#[trigger] entries[i])
    &&& distinct(originals(entries))
}

/// The place of the last `.` in `name`, or -1 where it has none.
pub open spec fn last_dot(name: Seq<char>) -> int
    decreases name.len(),
{
    if name.len() == 0 {
        -1
    } else if name.last() == '.' {
        name.len() - 1
    } else {
        last_dot(name.drop_last())
    }
}

/// The first place of `list` that holds `x`, or the length of `list` where
/// none does.
pub open spec fn first_place(list: Seq<Seq<char>>, x: Seq<char>) -> int
    decreases list.len(),
{
    if list.len() == 0 {
        0
    } else if list[0] == x {
        0
    } else {
        1 + first_place(list.drop_first(), x)
    }
}

/// The extensions of the document types.
pub open spec fn extensions(types: Seq<DocumentType>) -> Seq<Seq<char>> {
    types.map_values(|t: DocumentType| t.extension@)
}

/// The place of the document type that the file name `name` ends in: the
/// first one whose extension is what follows the last `.` of the name. A
/// name without a `.`, or with nothing before it, has none.
pub open spec fn document_place(name: Seq<char>, extensions: Seq<Seq<char>>) -> Option<int> {
    let dot = last_dot(name);
    let place = first_place(extensions, name.skip(dot + 1));
    if dot > 0 && place < extensions.len() {
        Some(place)
    } else {
        None
    }
}

/// The record made for a resource that the catalog sees for the first time
/// under the file name `name` with the digest `digest`. Where the name ends
/// in the extension of a document type, the title is the name without the
/// extension, and the record is of that document type; else the title is the
/// whole name. The history holds the digest alone.
pub open spec fn new_record(
    name: Seq<char>,
    digest: Seq<char>,
    type_names: Seq<Seq<char>>,
    extensions: Seq<Seq<char>>,
) -> ResourceView {
    let place = document_place(name, extensions);
    ResourceView {
        title: if place is Some {
            name.take(last_dot(name))
        } else {
            name
        },
        subtitle: None,
        author: None,
        editor: None,
        date: None,
        edition: None,
        version: None,
        publisher: None,
        organization: None,
        journal: None,
        volume: None,
        number: None,
        doi: None,
        tags: None,
        document: match place {
            Some(i) => Some(type_names[i]),
            None => None,
        },
        content: None,
        url: None,
        checksum: digest,
        historical_checksums: seq![digest],
    }
}

/// The record after its resource was seen with the digest `digest`: as it
/// was where that is its current digest, else with the digest as its current
/// one and at the end of its history.
pub open spec fn observed(r: ResourceView, digest: Seq<char>) -> ResourceView {
    if r.checksum == digest {
        r
    } else {
        ResourceView {
            checksum: digest,
            historical_checksums: r.historical_checksums.push(digest),
            ..r
        }
    }
}

/// The place of the record that a resource belongs to: the record made
/// under the digest that is the resource's file name or, where there is
/// none, the record made under the digest of its content.
pub open spec fn claimed_place(entries: Seq<ResourceView>, digest: Seq<char>, name: Seq<char>) -> Option<
    int,
> {
    match place_of(originals(entries), name) {
        Some(i) => Some(i),
        None => place_of(originals(entries), digest),
    }
}

/// The state of a reconciliation: the records, which of them a resource
/// backs, and the renames that were found necessary.
pub struct Merge {
    pub entries: Seq<ResourceView>,
    pub backed: Seq<bool>,
    pub renames: Seq<(Seq<char>, Seq<char>)>,
}

/// The state before any resource was looked at.
pub open spec fn merge_start(entries: Seq<ResourceView>) -> Merge {
    Merge {
        entries,
        backed: Seq::new(entries.len(), |i: int| false),
        renames: Seq::<(Seq<char>, Seq<char>)>::empty(),
    }
}

/// The state after one more resource, with the digest `digest` and the file
/// name `name`, was looked at. The resource backs the record that it belongs
/// to, which takes note of the digest; where it belongs to none, a new
/// record is added for it. A resource whose name is not the digest under
/// which its record was made is renamed to that digest.
pub open spec fn merge_step(
    m: Merge,
    digest: Seq<char>,
    name: Seq<char>,
    type_names: Seq<Seq<char>>,
    extensions: Seq<Seq<char>>,
) -> Merge {
    match claimed_place(m.entries, digest, name) {
        Some(i) => Merge {
            entries: m.entries.update(i, observed(m.entries[i], digest)),
            backed: m.backed.update(i, true),
            renames: if original_digest(m.entries[i]) != name {
                m.renames.push((name, original_digest(m.entries[i])))
            } else {
                m.renames
            },
        },
        None => Merge {
            entries: m.entries.push(new_record(name, digest, type_names, extensions)),
            backed: m.backed.push(true),
            renames: if digest != name {
                m.renames.push((name, digest))
            } else {
                m.renames
            },
        },
    }
}

/// The state after the resources with the given digests and file names were
/// looked at, one after the other.
pub open spec fn merged(
    entries: Seq<ResourceView>,
    digests: Seq<Seq<char>>,
    names: Seq<Seq<char>>,
    type_names: Seq<Seq<char>>,
    extensions: Seq<Seq<char>>,
) -> Merge
    decreases digests.len(),
{
    if digests.len() == 0 {
        merge_start(entries)
    } else {
        merge_step(
            merged(entries, digests.drop_last(), names.drop_last(), type_names, extensions),
            digests.last(),
            names.last(),
            type_names,
            extensions,
        )
    }
}

/// Whether the policy takes a record made under `original` out of the
/// catalog when no resource backs it.
pub open spec fn removes(policy: OrphanPolicy, confirmed: Seq<Seq<char>>, original: Seq<char>) -> bool {
    match policy {
        OrphanPolicy::Keep => false,
        OrphanPolicy::Remove => true,
        OrphanPolicy::Ask => confirmed.contains(original),
    }
}

/// The records that stay: those that a resource backs, and of the others
/// those that the policy does not remove. They keep their order.
pub open spec fn kept(
    entries: Seq<ResourceView>,
    backed: Seq<bool>,
    policy: OrphanPolicy,
    confirmed: Seq<Seq<char>>,
) -> Seq<ResourceView>
    decreases entries.len(),
{
    if entries.len() == 0 {
        entries
    } else {
        let before = kept(entries.drop_last(), backed.drop_last(), policy, confirmed);
        if backed.last() || !removes(policy, confirmed, original_digest(entries.last())) {
            before.push(entries.last())
        } else {
            before
        }
    }
}

/// The records made under digests that no resource backs, in their order.
pub open spec fn orphaned(entries: Seq<ResourceView>, backed: Seq<bool>) -> Seq<Seq<char>>
    decreases entries.len(),
{
    if entries.len() == 0 {
        Seq::<Seq<char>>::empty()
    } else {
        let before = orphaned(entries.drop_last(), backed.drop_last());
        if backed.last() {
            before
        } else {
            before.push(original_digest(entries.last()))
        }
    }
}

/// The place of the last `.` in `name`.
fn find_last_dot(name: &Vec<char>) -> (dot: Option<usize>)
    ensures
        match dot {
            Some(k) => k == last_dot(name@) && k < name@.len(),
            None => last_dot(name@) == -1,
        },
{
    let mut dot: Option<usize> = None;
    let mut i: usize = 0;
    while i < name.len()
        invariant
            i <= name.len(),
            match dot {
                Some(k) => k == last_dot(name@.take(i as int)) && k < i,
                None => last_dot(name@.take(i as int)) == -1,
            },
        decreases name.len() - i,
    {
        assert(name@.take(i + 1).drop_last() == name@.take(i as int));
        assert(name@.take(i + 1).last() == name@[i as int]);
        if name[i] == '.' {
            dot = Some(i);
        }
        i += 1;
    }
    assert(name@.take(name@.len() as int) == name@);
    dot
}

/// The text of the characters from `from` up to `to`.
fn text_between(chars: &Vec<char>, from: usize, to: usize) -> (out: String)
    requires
        from <= to <= chars@.len(),
    ensures
        out@ == chars@.subrange(from as int, to as int),
{
    let mut out = String::new();
    let mut i: usize = from;
    while i < to
        invariant
            from <= i <= to <= chars@.len(),
            out@ == chars@.subrange(from as int, i as int),
        decreases to - i,
    {
        out.push(chars[i]);
        assert(chars@.subrange(from as int, i + 1) == chars@.subrange(from as int, i as int).push(
            chars@[i as int],
        ));
        i += 1;
    }
    out
}

/// The first document type with the extension `extension`.
fn find_extension(types: &Table<DocumentType>, extension: &str) -> (place: usize)
    requires
        types.wf(),
    ensures
        place == first_place(extensions(types.values()), extension@),
        place <= types.values().len(),
{
    let ghost all = extensions(types.values());
    let mut i: usize = 0;
    assert(all.skip(0) == all);
    while i < types.len()
        invariant
            i <= types.values().len(),
            types.wf(),
            all == extensions(types.values()),
            first_place(all, extension@) == i + first_place(all.skip(i as int), extension@),
        decreases types.values().len() - i,
    {
        assert(all.skip(i as int)[0] == types.values()[i as int].extension@);
        assert(all.skip(i as int).drop_first() == all.skip(i + 1));
        if same_text(types.value_at(i).extension.as_str(), extension) {
            return i;
        }
        i += 1;
    }
    assert(all.skip(i as int).len() == 0);
    i
}

/// Makes the record for a resource that the catalog sees for the first
/// time.
pub fn make_record(name: &str, digest: &str, types: &Table<DocumentType>) -> (record: Resource)
    requires
        types.wf(),
    ensures
        record@ == new_record(name@, digest@, types.keys(), extensions(types.values())),
{
    let chars = chars_of(name);
    let mut title = name.to_owned();
    let mut document: Option<String> = None;
    match find_last_dot(&chars) {
        Some(dot) => {
            let len = chars.len();
            if dot > 0 && dot < len {
                let extension = text_between(&chars, dot + 1, len);
                assert(extension@ == name@.skip(dot + 1));
                let place = find_extension(types, extension.as_str());
                if place < types.len() {
                    title = text_between(&chars, 0, dot);
                    assert(title@ == name@.take(dot as int));
                    document = Some(types.key_at(place));
                }
            }
        },
        None => {},
    }
    let mut history: Vec<String> = Vec::new();
    history.push(digest.to_owned());
    assert(texts(history@) =~= seq![digest@]);
    Resource {
        title,
        subtitle: None,
        author: None,
        editor: None,
        date: None,
        edition: None,
        version: None,
        publisher: None,
        organization: None,
        journal: None,
        volume: None,
        number: None,
        doi: None,
        tags: None,
        document,
        content: None,
        url: None,
        checksum: digest.to_owned(),
        historical_checksums: history,
    }
}

/// The pairs of old and new name of a list of renames.
pub open spec fn rename_views(renames: Seq<Rename>) -> Seq<(Seq<char>, Seq<char>)> {
    renames.map_values(|r: Rename| (r.from@, r.to@))
}

/// Takes note in `entry` that its resource was seen with the digest
/// `digest`.
fn observe(entry: &mut Resource, digest: &str)
    requires
        record_wf(old(entry)@),
    ensures
        final(entry)@ == observed(old(entry)@, digest@),
        record_wf(final(entry)@),
        original_digest(final(entry)@) == original_digest(old(entry)@),
{
    if !same_text(entry.checksum.as_str(), digest) {
        let ghost before = texts(entry.historical_checksums@);
        entry.historical_checksums.push(digest.to_owned());
        assert(texts(entry.historical_checksums@) =~= before.push(digest@));
        entry.checksum = digest.to_owned();
    }
}

/// Whether the table of marks goes with the records: it holds, in the order
/// of the records, the digest under which each was made.
pub open spec fn marks_match(entries: Seq<ResourceView>, marks: Table<bool>) -> bool {
    &&& marks.wf()
    &&& records_wf(entries)
    &&& marks.keys() == originals(entries)
    &&& marks.values().len() == entries.len()
}

/// The place of the record that a resource belongs to.
fn claim(marks: &Table<bool>, digest: &str, name: &str, Ghost(entries): Ghost<Seq<ResourceView>>) -> (place:
    Option<usize>)
    requires
        marks_match(entries, *marks),
    ensures
        match place {
            Some(i) => claimed_place(entries, digest@, name@) == Some(i as int) && i < entries.len(),
            None => claimed_place(entries, digest@, name@) is None,
        },
{
    proof {
        marks.lemma_wf();
    }
    match marks.position(name) {
        Some(i) => Some(i),
        None => marks.position(digest),
    }
}

/// The state that the records, their marks and the renames stand for.
pub open spec fn merge_of(entries: Seq<Resource>, marks: Table<bool>, renames: Seq<Rename>) -> Merge {
    Merge {
        entries: record_views(entries),
        backed: marks.values(),
        renames: rename_views(renames),
    }
}

/// A table that holds the digest under which each record was made, in the
/// order of the records, and marks no record as backed.
fn index_records(entries: &Vec<Resource>) -> (marks: Table<bool>)
    requires
        records_wf(record_views(entries@)),
    ensures
        marks_match(record_views(entries@), marks),
        marks.values() == merge_start(record_views(entries@)).backed,
{
    let ghost all = record_views(entries@);
    let mut marks: Table<bool> = Table::new();
    let mut i: usize = 0;
    while i < entries.len()
        invariant
            i <= entries.len(),
            all == record_views(entries@),
            records_wf(all),
            marks.wf(),
            marks.keys() == originals(all).take(i as int),
            marks.values() == Seq::new(i as nat, |k: int| false),
        decreases entries.len() - i,
    {
        assert(all[i as int] == entries@[i as int]@);
        let key = entries[i].original_digest().to_owned();
        proof {
            assert(key@ == originals(all)[i as int]);
            if marks.keys().contains(key@) {
                let k = choose|k: int| 0 <= k < marks.keys().len() && marks.keys()[k] == key@;
                assert(originals(all)[k] == originals(all)[i as int]);
            }
            assert(place_of(marks.keys(), key@) is None);
        }
        marks.insert(key, false);
        assert(marks.keys() =~= originals(all).take(i + 1));
        assert(marks.values() =~= Seq::new((i + 1) as nat, |k: int| false));
        i += 1;
    }
    assert(originals(all).take(entries@.len() as int) =~= originals(all));
    assert(marks.values() =~= merge_start(all).backed);
    marks
}

/// Looks at one resource: its record takes note of the digest, or a new
/// record is made; the record is marked as backed, and a rename is planned
/// where the resource is not named after its record.
fn merge_resource(
    entries: &mut Vec<Resource>,
    marks: &mut Table<bool>,
    renames: &mut Vec<Rename>,
    digest: &str,
    name: &str,
    types: &Table<DocumentType>,
)
    requires
        types.wf(),
        marks_match(record_views(old(entries)@), *old(marks)),
    ensures
        marks_match(record_views(final(entries)@), *final(marks)),
        merge_of(final(entries)@, *final(marks), final(renames)@) == merge_step(
            merge_of(old(entries)@, *old(marks), old(renames)@),
            digest@,
            name@,
            types.keys(),
            extensions(types.values()),
        ),
{
    let ghost before = record_views(entries@);
    let ghost planned = rename_views(renames@);
    proof {
        marks.lemma_wf();
    }
    match claim(marks, digest, name, Ghost(before)) {
        Some(i) => {
            assert(before[i as int] == entries@[i as int]@);
            observe(&mut entries[i], digest);
            marks.set_value_at(i, true);
            let original = marks.key_at(i);
            assert(original@ == original_digest(before[i as int]));
            if !same_text(original.as_str(), name) {
                renames.push(Rename { from: name.to_owned(), to: original });
                assert(rename_views(renames@) =~= planned.push((name@, original@)));
            }
            proof {
                let after = record_views(entries@);
                assert(after =~= before.update(i as int, observed(before[i as int], digest@)));
                assert(originals(after) =~= originals(before));
            }
        },
        None => {
            let record = make_record(name, digest, types);
            proof {
                assert(place_of(originals(before), digest@) is None);
                assert(original_digest(record@) == digest@);
            }
            entries.push(record);
            marks.insert(digest.to_owned(), true);
            if !same_text(digest, name) {
                renames.push(Rename { from: name.to_owned(), to: digest.to_owned() });
                assert(rename_views(renames@) =~= planned.push((name@, digest@)));
            }
            proof {
                let after = record_views(entries@);
                assert(after =~= before.push(record@));
                assert(originals(after) =~= originals(before).push(digest@));
                assert forall|i: int, j: int| 0 <= i < j < originals(after).len() implies originals(
                    after,
                )[i] != originals(after)[j] by {
                    if j == before.len() {
                        assert(originals(before)[i] != digest@);
                    }
                }
            }
        },
    }
}

/// One step of a reconciliation keeps the records in order: their
/// histories stay in order, no two are made under the same digest, and each
/// has its mark.
pub proof fn lemma_merge_step_wf(
    m: Merge,
    digest: Seq<char>,
    name: Seq<char>,
    type_names: Seq<Seq<char>>,
    extensions: Seq<Seq<char>>,
)
    requires
        records_wf(m.entries),
        m.backed.len() == m.entries.len(),
    ensures
        records_wf(merge_step(m, digest, name, type_names, extensions).entries),
        merge_step(m, digest, name, type_names, extensions).backed.len() == merge_step(
            m,
            digest,
            name,
            type_names,
            extensions,
        ).entries.len(),
        originals(merge_step(m, digest, name, type_names, extensions).entries) == (match claimed_place(
            m.entries,
            digest,
            name,
        ) {
            Some(i) => originals(m.entries),
            None => originals(m.entries).push(digest),
        }),
{
    let step = merge_step(m, digest, name, type_names, extensions);
    match claimed_place(m.entries, digest, name) {
        Some(i) => {
            assert(0 <= i < m.entries.len()) by {
                assert(originals(m.entries).len() == m.entries.len());
            }
            assert(record_wf(m.entries[i]));
            assert(originals(step.entries) =~= originals(m.entries));
            assert forall|k: int| 0 <= k < step.entries.len() implies record_wf(
                #[trigger] step.entries[k],
            ) by {
                if k != i {
                    assert(step.entries[k] == m.entries[k]);
                }
            }
        },
        None => {
            assert(originals(step.entries) =~= originals(m.entries).push(digest));
            assert forall|k: int| 0 <= k < step.entries.len() implies record_wf(
                #[trigger] step.entries[k],
            ) by {
                if k < m.entries.len() {
                    assert(step.entries[k] == m.entries[k]);
                }
            }
            assert forall|i: int, j: int| 0 <= i < j < originals(step.entries).len() implies originals(
                step.entries,
            )[i] != originals(step.entries)[j] by {
                if j == m.entries.len() {
                    assert(originals(m.entries)[i] != digest);
                }
            }
        },
    }
}

/// A reconciliation keeps the records in order.
pub proof fn lemma_merged_wf(
    entries: Seq<ResourceView>,
    digests: Seq<Seq<char>>,
    names: Seq<Seq<char>>,
    type_names: Seq<Seq<char>>,
    extensions: Seq<Seq<char>>,
)
    requires
        records_wf(entries),
    ensures
        records_wf(merged(entries, digests, names, type_names, extensions).entries),
        merged(entries, digests, names, type_names, extensions).backed.len() == merged(
            entries,
            digests,
            names,
            type_names,
            extensions,
        ).entries.len(),
    decreases digests.len(),
{
    if digests.len() > 0 {
        lemma_merged_wf(entries, digests.drop_last(), names.drop_last(), type_names, extensions);
        lemma_merge_step_wf(
            merged(entries, digests.drop_last(), names.drop_last(), type_names, extensions),
            digests.last(),
            names.last(),
            type_names,
            extensions,
        );
    }
}

/// Whether `list` holds the text `x`.
fn holds_text(list: &Vec<String>, x: &str) -> (held: bool)
    ensures
        held == texts(list@).contains(x@),
{
    let mut i: usize = 0;
    while i < list.len()
        invariant
            i <= list.len(),
            forall|k: int| 0 <= k < i ==> texts(list@)[k] != x@,
        decreases list.len() - i,
    {
        if same_text(list[i].as_str(), x) {
            assert(texts(list@)[i as int] == x@);
            return true;
        }
        i += 1;
    }
    false
}

/// Whether the policy takes a record made under `original` out of the
/// catalog when no resource backs it.
pub fn policy_removes(policy: OrphanPolicy, confirmed: &Vec<String>, original: &str) -> (gone: bool)
    ensures
        gone == removes(policy, texts(confirmed@), original@),
{
    match policy {
        OrphanPolicy::Keep => false,
        OrphanPolicy::Remove => true,
        OrphanPolicy::Ask => holds_text(confirmed, original),
    }
}

/// The records that stay, in their order.
fn keep_records(
    entries: Vec<Resource>,
    marks: &Table<bool>,
    policy: OrphanPolicy,
    confirmed: &Vec<String>,
) -> (out: Vec<Resource>)
    requires
        marks_match(record_views(entries@), *marks),
    ensures
        record_views(out@) == kept(record_views(entries@), marks.values(), policy, texts(confirmed@)),
{
    let ghost all = record_views(entries@);
    let ghost backed = marks.values();
    let ghost agreed = texts(confirmed@);
    let mut rest = entries;
    let mut stack: Vec<Resource> = Vec::new();
    assert(all.take(all.len() as int) == all);
    assert(backed.take(all.len() as int) == backed);
    while rest.len() > 0
        invariant
            marks.wf(),
            backed == marks.values(),
            backed.len() == all.len(),
            agreed == texts(confirmed@),
            rest@.len() <= all.len(),
            record_views(rest@) == all.take(rest@.len() as int),
            forall|k: int| 0 <= k < all.len() ==> record_wf(#[trigger] all[k]),
            kept(all, backed, policy, agreed) == kept(
                all.take(rest@.len() as int),
                backed.take(rest@.len() as int),
                policy,
                agreed,
            ) + record_views(stack@).reverse(),
        decreases rest.len(),
    {
        let n = rest.len();
        let ghost s0 = record_views(stack@);
        let ghost head = all.take(n as int);
        assert(head.drop_last() == all.take(n - 1));
        assert(backed.take(n as int).drop_last() == backed.take(n - 1));
        assert(head.last() == all[n - 1]);
        assert(backed.take(n as int).last() == backed[n - 1]);
        let ghost r0 = record_views(rest@);
        assert(r0[n - 1] == rest@[n - 1]@);
        let x = rest.pop().unwrap();
        assert(record_views(rest@) =~= all.take(n - 1));
        assert(x@ == all[n - 1]) by {
            assert(all.take(n as int)[n - 1] == all[n - 1]);
        }
        let stays = *marks.value_at(n - 1) || !policy_removes(
            policy,
            confirmed,
            x.original_digest(),
        );
        if stays {
            stack.push(x);
            assert(record_views(stack@) =~= s0.push(x@));
            assert(record_views(stack@).reverse() =~= seq![x@] + s0.reverse());
            assert(kept(all.take(n - 1), backed.take(n - 1), policy, agreed).push(x@) + s0.reverse()
                =~= kept(all.take(n - 1), backed.take(n - 1), policy, agreed) + (seq![x@]
                + s0.reverse()));
        }
    }
    assert(all.take(0) =~= Seq::<ResourceView>::empty());
    let ghost turned = record_views(stack@);
    assert(kept(all, backed, policy, agreed) =~= turned.reverse());
    let mut out: Vec<Resource> = Vec::new();
    while stack.len() > 0
        invariant
            record_views(out@) + record_views(stack@).reverse() == turned.reverse(),
        decreases stack.len(),
    {
        let ghost s0 = record_views(stack@);
        let ghost o0 = record_views(out@);
        let x = stack.pop().unwrap();
        out.push(x);
        assert(record_views(stack@) =~= s0.drop_last());
        assert(record_views(out@) =~= o0.push(x@));
        assert(s0.reverse() =~= seq![x@] + s0.drop_last().reverse());
        assert(o0.push(x@) + s0.drop_last().reverse() =~= o0 + (seq![x@] + s0.drop_last().reverse()));
    }
    assert(record_views(stack@).reverse() =~= Seq::<ResourceView>::empty());
    assert(record_views(out@) + Seq::<ResourceView>::empty() =~= record_views(out@));
    out
}

/// Every record that stays was a record before, and the records that stay
/// are in order where the records were.
pub proof fn lemma_kept_wf(
    entries: Seq<ResourceView>,
    backed: Seq<bool>,
    policy: OrphanPolicy,
    confirmed: Seq<Seq<char>>,
)
    requires
        records_wf(entries),
        backed.len() == entries.len(),
    ensures
        records_wf(kept(entries, backed, policy, confirmed)),
        forall|k: int|
            0 <= k < kept(entries, backed, policy, confirmed).len() ==> entries.contains(
                #[trigger] kept(entries, backed, policy, confirmed)[k],
            ),
    decreases entries.len(),
{
    if entries.len() > 0 {
        let head = entries.drop_last();
        assert forall|i: int| 0 <= i < head.len() implies record_wf(#[trigger] head[i]) by {
            assert(head[i] == entries[i]);
        }
        assert forall|i: int, j: int| 0 <= i < j < originals(head).len() implies originals(head)[i]
            != originals(head)[j] by {
            assert(originals(head)[i] == originals(entries)[i]);
            assert(originals(head)[j] == originals(entries)[j]);
        }
        lemma_kept_wf(head, backed.drop_last(), policy, confirmed);
        let before = kept(head, backed.drop_last(), policy, confirmed);
        let all = kept(entries, backed, policy, confirmed);
        assert forall|k: int| 0 <= k < all.len() implies entries.contains(#[trigger] all[k]) by {
            if k < before.len() {
                assert(head.contains(before[k]));
                let w = choose|w: int| 0 <= w < head.len() && head[w] == before[k];
                assert(entries[w] == all[k]);
            } else {
                assert(entries[entries.len() - 1] == all[k]);
            }
        }
        assert forall|i: int, j: int| 0 <= i < j < originals(all).len() implies originals(all)[i]
            != originals(all)[j] by {
            if j == before.len() {
                assert(head.contains(before[i]));
                let w = choose|w: int| 0 <= w < head.len() && head[w] == before[i];
                assert(originals(entries)[w] != originals(entries)[entries.len() - 1]);
            } else {
                assert(originals(before)[i] != originals(before)[j]);
            }
        }
    }
}

/// Listing keeps the records in order: a list without two records made
/// under the same digest is listed without two such records.
pub proof fn lemma_listed_wf(s: Seq<ResourceView>)
    requires
        records_wf(s),
    ensures
        records_wf(listed(s)),
        forall|k: int| 0 <= k < listed(s).len() ==> s.contains(#[trigger] listed(s)[k]),
    decreases s.len(),
{
    lemma_listed_sorts(s);
    let all = listed(s);
    assert forall|k: int| 0 <= k < all.len() implies s.contains(#[trigger] all[k]) by {
        assert(all.contains(all[k]));
        to_multiset_contains(all, all[k]);
        to_multiset_contains(s, all[k]);
    }
    if s.len() > 0 {
        let head = s.drop_last();
        let x = s.last();
        assert forall|i: int| 0 <= i < head.len() implies record_wf(#[trigger] head[i]) by {
            assert(head[i] == s[i]);
        }
        assert forall|i: int, j: int| 0 <= i < j < originals(head).len() implies originals(head)[i]
            != originals(head)[j] by {
            assert(originals(head)[i] == originals(s)[i]);
            assert(originals(head)[j] == originals(s)[j]);
        }
        lemma_listed_wf(head);
        lemma_listed_sorts(head);
        let before = listed(head);
        let p = crate::ranking::first_after(before, x);
        crate::ranking::lemma_first_after(before, x);
        assert(all == before.insert(p, x));
        assert forall|i: int, j: int| 0 <= i < j < originals(all).len() implies originals(all)[i]
            != originals(all)[j] by {
            let i0 = if i < p {
                i
            } else {
                i - 1
            };
            let j0 = if j < p {
                j
            } else {
                j - 1
            };
            if i == p {
                assert(all[j] == before[j0]);
                assert(head.contains(before[j0]));
                let w = choose|w: int| 0 <= w < head.len() && head[w] == before[j0];
                assert(originals(s)[w] != originals(s)[s.len() - 1]);
            } else if j == p {
                assert(all[i] == before[i0]);
                assert(head.contains(before[i0]));
                let w = choose|w: int| 0 <= w < head.len() && head[w] == before[i0];
                assert(originals(s)[w] != originals(s)[s.len() - 1]);
            } else {
                assert(all[i] == before[i0]);
                assert(all[j] == before[j0]);
                assert(originals(before)[i0] != originals(before)[j0]);
            }
        }
        assert forall|i: int| 0 <= i < all.len() implies record_wf(#[trigger] all[i]) by {
            assert(s.contains(all[i]));
        }
    }
}

/// The records of the catalog after a reconciliation with the resources
/// that have the given digests and file names: the records that stay, in
/// the order of the catalog.
pub open spec fn reconciled(
    entries: Seq<ResourceView>,
    digests: Seq<Seq<char>>,
    names: Seq<Seq<char>>,
    type_names: Seq<Seq<char>>,
    extensions: Seq<Seq<char>>,
    policy: OrphanPolicy,
    confirmed: Seq<Seq<char>>,
) -> Seq<ResourceView> {
    let m = merged(entries, digests, names, type_names, extensions);
    listed(kept(m.entries, m.backed, policy, confirmed))
}

impl Catalog {
    /// Whether the catalog is in order: its tables are, every record has its
    /// history in order, and no two records were made under the same digest.
    pub open spec fn wf(&self) -> bool {
        &&& self.document_types.wf()
        &&& self.content_types.wf()
        &&& records_wf(record_views(self.resources@))
    }

    /// A catalog without records and types.
    pub fn new() -> (catalog: Catalog)
        ensures
            catalog.wf(),
            catalog.resources@.len() == 0,
            catalog.document_types.keys().len() == 0,
            catalog.content_types.keys().len() == 0,
    {
        Catalog { document_types: Table::new(), content_types: Table::new(), resources: Vec::new() }
    }

    /// Update the catalog to reflect the current resources, given by the
    /// digest and the file name of each. It adds records for new resources,
    /// takes note of the digests of those whose content changed, and treats
    /// the records that no resource backs as the policy says; under
    /// `OrphanPolicy::Ask` those of them go whose digest is among
    /// `confirmed`. The records and the keys of both tables end up sorted.
    /// What it returns are the renames that bring each resource to the
    /// digest under which its record was made, in the order of the
    /// resources.
    pub fn update(&mut self, resources: &Table<String>, policy: OrphanPolicy, confirmed: &Vec<String>) -> (renames:
        Vec<Rename>)
        requires
            old(self).wf(),
            resources.wf(),
        ensures
            final(self).wf(),
            record_views(final(self).resources@) == reconciled(
                record_views(old(self).resources@),
                resources.keys(),
                texts(resources.values()),
                old(self).document_types.keys(),
                extensions(old(self).document_types.values()),
                policy,
                texts(confirmed@),
            ),
            rename_views(renames@) == merged(
                record_views(old(self).resources@),
                resources.keys(),
                texts(resources.values()),
                old(self).document_types.keys(),
                extensions(old(self).document_types.values()),
            ).renames,
            ascending(final(self).content_types.keys()),
            same_pairs(
                old(self).content_types.keys(),
                old(self).content_types.values(),
                final(self).content_types.keys(),
                final(self).content_types.values(),
            ),
            ascending(final(self).document_types.keys()),
            same_pairs(
                old(self).document_types.keys(),
                old(self).document_types.values(),
                final(self).document_types.keys(),
                final(self).document_types.values(),
            ),
    {
        let ghost start = record_views(self.resources@);
        let ghost digests = resources.keys();
        let ghost names = texts(resources.values());
        let ghost type_names = self.document_types.keys();
        let ghost exts = extensions(self.document_types.values());
        let mut entries: Vec<Resource> = Vec::new();
        core::mem::swap(&mut entries, &mut self.resources);
        let mut marks = index_records(&entries);
        let mut renames: Vec<Rename> = Vec::new();
        assert(rename_views(renames@) =~= Seq::<(Seq<char>, Seq<char>)>::empty());
        let mut i: usize = 0;
        proof {
            resources.lemma_wf();
        }
        while i < resources.len()
            invariant
                i <= resources.keys().len(),
                resources.wf(),
                self.document_types.wf(),
                digests == resources.keys(),
                names == texts(resources.values()),
                digests.len() == names.len(),
                type_names == self.document_types.keys(),
                exts == extensions(self.document_types.values()),
                marks_match(record_views(entries@), marks),
                merge_of(entries@, marks, renames@) == merged(
                    start,
                    digests.take(i as int),
                    names.take(i as int),
                    type_names,
                    exts,
                ),
            decreases resources.keys().len() - i,
        {
            let digest = resources.key_at(i);
            let name = resources.value_at(i);
            proof {
                assert(digests.take(i + 1).drop_last() == digests.take(i as int));
                assert(names.take(i + 1).drop_last() == names.take(i as int));
                assert(digests.take(i + 1).last() == digest@);
                assert(names.take(i + 1).last() == name@);
            }
            merge_resource(
                &mut entries,
                &mut marks,
                &mut renames,
                digest.as_str(),
                name.as_str(),
                &self.document_types,
            );
            i += 1;
        }
        proof {
            assert(digests.take(digests.len() as int) == digests);
            assert(names.take(names.len() as int) == names);
            let m = merged(start, digests, names, type_names, exts);
            lemma_kept_wf(m.entries, m.backed, policy, texts(confirmed@));
            lemma_listed_wf(kept(m.entries, m.backed, policy, texts(confirmed@)));
        }
        let survivors = keep_records(entries, &marks, policy, confirmed);
        self.resources = sort_records(survivors);
        self.content_types.sort_keys();
        self.document_types.sort_keys();
        renames
    }
}

/// The initial text of a catalog file: a JSON object with empty tables of
/// document types and content types and an empty list of resources.
pub open spec fn empty_catalog_text() -> Seq<char> {
    "{\n  \"document_types\": {},\n  \"content_types\": {},\n  \"resources\": []\n}"@
}

/// What one run of cataloguing asks of the file system and of the cache
/// file: the duplicates to delete, then the renames to make, and the cache
/// to write.
#[derive(Debug)]
pub struct CatalogRun {
    pub duplicates: Vec<String>,
    pub renames: Vec<Rename>,
    pub cache: Cache,
}

impl Catalog {
    /// Reads a catalog from the text of its file: the text to decode is
    /// the file's own, or the initial text where the file is empty, which is
    /// then to be written to the file.
    pub fn read_from_file(contents: &str) -> (text: String)
        ensures
            text@ == (if contents@.len() == 0 {
                empty_catalog_text()
            } else {
                contents@
            }),
    {
        if contents.is_empty() {
            "{\n  \"document_types\": {},\n  \"content_types\": {},\n  \"resources\": []\n}".to_owned()
        } else {
            contents.to_owned()
        }
    }

    /// Whether the records are in order: every record has its history in
    /// order, and no two records were made under the same digest.
    pub fn records_well_formed(&self) -> (ok: bool)
        ensures
            ok == records_wf(record_views(self.resources@)),
    {
        let ghost all = record_views(self.resources@);
        let mut seen: Table<bool> = Table::new();
        let mut i: usize = 0;
        while i < self.resources.len()
            invariant
                i <= self.resources@.len(),
                all == record_views(self.resources@),
                seen.wf(),
                seen.keys() == originals(all).take(i as int),
                forall|k: int| 0 <= k < i ==> record_wf(#[trigger] all[k]),
                distinct(originals(all).take(i as int)),
            decreases self.resources@.len() - i,
        {
            assert(all[i as int] == self.resources@[i as int]@);
            if !self.resources[i].is_well_formed() {
                return false;
            }
            let original = self.resources[i].original_digest();
            assert(original@ == originals(all)[i as int]);
            if seen.contains_key(original) {
                proof {
                    let k = choose|k: int|
                        0 <= k < seen.keys().len() && seen.keys()[k] == original@;
                    assert(originals(all)[k] == originals(all)[i as int]);
                }
                return false;
            }
            assert(place_of(seen.keys(), original@) is None);
            seen.insert(original.to_owned(), true);
            assert(seen.keys() =~= originals(all).take(i + 1));
            let ghost next = originals(all).take(i + 1);
            assert forall|a: int, b: int| 0 <= a < b < next.len() implies #[trigger] next[a]
                != #[trigger] next[b] by {
                if b == i {
                    assert(originals(all).take(i as int)[a] == originals(all)[a]);
                    assert(!originals(all).take(i as int).contains(original@));
                } else {
                    assert(originals(all).take(i as int)[a] != originals(all).take(i as int)[b]);
                }
            }
            i += 1;
        }
        assert(originals(all).take(all.len() as int) =~= originals(all));
        true
    }

    /// The digests of the records that no resource of the snapshot backs,
    /// in the order of the records: those that a reconciliation would treat
    /// as its policy says.
    pub fn orphans(&self, resources: &Table<String>) -> (digests: Vec<String>)
        requires
            self.wf(),
            resources.wf(),
        ensures
            texts(digests@) == orphaned(
                record_views(self.resources@),
                merged(
                    record_views(self.resources@),
                    resources.keys(),
                    texts(resources.values()),
                    self.document_types.keys(),
                    extensions(self.document_types.values()),
                ).backed.take(self.resources@.len() as int),
            ),
    {
        let ghost start = record_views(self.resources@);
        let ghost digests = resources.keys();
        let ghost names = texts(resources.values());
        let ghost type_names = self.document_types.keys();
        let ghost exts = extensions(self.document_types.values());
        let mut marks = index_records(&self.resources);
        proof {
            resources.lemma_wf();
        }
        let mut i: usize = 0;
        while i < resources.len()
            invariant
                i <= resources.keys().len(),
                resources.wf(),
                digests == resources.keys(),
                names == texts(resources.values()),
                digests.len() == names.len(),
                records_wf(start),
                start.len() == self.resources@.len(),
                marks.wf(),
                records_wf(merged(start, digests.take(i as int), names.take(i as int), type_names, exts).entries),
                marks.keys() == originals(
                    merged(start, digests.take(i as int), names.take(i as int), type_names, exts).entries,
                ),
                marks.values() == merged(
                    start,
                    digests.take(i as int),
                    names.take(i as int),
                    type_names,
                    exts,
                ).backed,
                marks.values().len() == marks.keys().len(),
            decreases resources.keys().len() - i,
        {
            let ghost m = merged(start, digests.take(i as int), names.take(i as int), type_names, exts);
            let digest = resources.key_at(i);
            let name = resources.value_at(i);
            proof {
                assert(digests.take(i + 1).drop_last() == digests.take(i as int));
                assert(names.take(i + 1).drop_last() == names.take(i as int));
                assert(digests.take(i + 1).last() == digest@);
                assert(names.take(i + 1).last() == name@);
                lemma_merge_step_wf(m, digest@, name@, type_names, exts);
                marks.lemma_wf();
                assert(m.entries.len() == originals(m.entries).len());
            }
            match claim(&marks, digest.as_str(), name.as_str(), Ghost(m.entries)) {
                Some(p) => {
                    marks.set_value_at(p, true);
                },
                None => {
                    assert(place_of(marks.keys(), digest@) is None);
                    marks.insert(digest, true);
                },
            }
            i += 1;
        }
        assert(digests.take(digests.len() as int) == digests);
        assert(names.take(names.len() as int) == names);
        let ghost backed = marks.values().take(self.resources@.len() as int);
        proof {
            lemma_merged_grows(start, digests, names, type_names, exts);
        }
        let mut out: Vec<String> = Vec::new();
        let mut k: usize = 0;
        assert(texts(out@) =~= orphaned(start.take(0), backed.take(0)));
        while k < self.resources.len()
            invariant
                k <= self.resources@.len(),
                marks.wf(),
                self.wf(),
                start == record_views(self.resources@),
                self.resources@.len() <= marks.values().len(),
                backed == marks.values().take(self.resources@.len() as int),
                texts(out@) == orphaned(start.take(k as int), backed.take(k as int)),
            decreases self.resources@.len() - k,
        {
            let ghost before = texts(out@);
            assert(start.take(k + 1).drop_last() == start.take(k as int));
            assert(backed.take(k + 1).drop_last() == backed.take(k as int));
            assert(start.take(k + 1).last() == self.resources@[k as int]@);
            assert(backed.take(k + 1).last() == marks.values()[k as int]);
            assert(start[k as int] == self.resources@[k as int]@);
            if !*marks.value_at(k) {
                out.push(self.resources[k].original_digest().to_owned());
                assert(texts(out@) =~= before.push(original_digest(start[k as int])));
            }
            k += 1;
        }
        assert(start.take(start.len() as int) == start);
        assert(backed.take(start.len() as int) == backed);
        out
    }
}

/// A reconciliation never drops a record on the way: the state holds at
/// least the records that it started with.
pub proof fn lemma_merged_grows(
    entries: Seq<ResourceView>,
    digests: Seq<Seq<char>>,
    names: Seq<Seq<char>>,
    type_names: Seq<Seq<char>>,
    extensions: Seq<Seq<char>>,
)
    requires
        records_wf(entries),
    ensures
        merged(entries, digests, names, type_names, extensions).entries.len() >= entries.len(),
        merged(entries, digests, names, type_names, extensions).backed.len() == merged(
            entries,
            digests,
            names,
            type_names,
            extensions,
        ).entries.len(),
    decreases digests.len(),
{
    lemma_merged_wf(entries, digests, names, type_names, extensions);
    if digests.len() > 0 {
        lemma_merged_grows(entries, digests.drop_last(), names.drop_last(), type_names, extensions);
        let m = merged(entries, digests.drop_last(), names.drop_last(), type_names, extensions);
        lemma_merged_wf(entries, digests.drop_last(), names.drop_last(), type_names, extensions);
        match claimed_place(m.entries, digests.last(), names.last()) {
            Some(i) => {
                assert(originals(m.entries).len() == m.entries.len());
            },
            None => {},
        }
    }
}

/// Register new resources and update the digest of existing resources:
/// one run of cataloguing over what was seen in the resources directory. It
/// scans the sightings with the cache of the last run, then reconciles the
/// catalog with the snapshot. The cache of the last run is only read.
pub fn librarian_catalog(
    catalog: &mut Catalog,
    cache: &Cache,
    sightings: &Vec<Sighting>,
    use_cache: bool,
    now: u64,
    policy: OrphanPolicy,
    confirmed: &Vec<String>,
) -> (run: CatalogRun)
    requires
        old(catalog).wf(),
        cache.wf(),
    ensures
        final(catalog).wf(),
        run.cache.wf(),
        ({
            let st = scanned(cache.keys(), cache.values(), sighting_views(sightings@), use_cache, now);
            let m = merged(
                record_views(old(catalog).resources@),
                st.digests,
                st.names,
                old(catalog).document_types.keys(),
                extensions(old(catalog).document_types.values()),
            );
            &&& texts(run.duplicates@) == st.duplicates
            &&& rename_views(run.renames@) == m.renames
            &&& record_views(final(catalog).resources@) == listed(
                kept(m.entries, m.backed, policy, texts(confirmed@)),
            )
            &&& ascending(run.cache.keys())
            &&& same_pairs(st.cache_keys, st.cache_values, run.cache.keys(), run.cache.values())
        }),
        ascending(final(catalog).content_types.keys()),
        same_pairs(
            old(catalog).content_types.keys(),
            old(catalog).content_types.values(),
            final(catalog).content_types.keys(),
            final(catalog).content_types.values(),
        ),
        ascending(final(catalog).document_types.keys()),
        same_pairs(
            old(catalog).document_types.keys(),
            old(catalog).document_types.values(),
            final(catalog).document_types.keys(),
            final(catalog).document_types.values(),
        ),
{
    let found = scan(sightings, cache, use_cache, now);
    let renames = catalog.update(&found.snapshot, policy, confirmed);
    CatalogRun { duplicates: found.duplicates, renames, cache: found.cache }
}

/// The line without the line break at its end, if it has one.
pub open spec fn without_line_break(line: Seq<char>) -> Seq<char> {
    if line.len() >= 2 && line[line.len() - 2] == '\r' && line.last() == '\n' {
        line.take(line.len() - 2)
    } else if line.len() >= 1 && line.last() == '\n' {
        line.take(line.len() - 1)
    } else {
        line
    }
}

/// What the operator answered when asked whether an orphaned record is to
/// go: yes for `y`, `Y` and `yes`, no for `n`, `N` and `no`, and no answer
/// for anything else, for which the question is to be asked again.
pub open spec fn answer_of(line: Seq<char>) -> Option<bool> {
    let word = without_line_break(line);
    if word == "y"@ || word == "Y"@ || word == "yes"@ {
        Some(true)
    } else if word == "n"@ || word == "N"@ || word == "no"@ {
        Some(false)
    } else {
        None
    }
}

/// Reads the operator's answer to the question whether an orphaned record
/// is to go.
pub fn orphan_answer(line: &str) -> (answer: Option<bool>)
    ensures
        answer == answer_of(line@),
{
    let chars = chars_of(line);
    let n = chars.len();
    let end = if n >= 2 && chars[n - 2] == '\r' && chars[n - 1] == '\n' {
        n - 2
    } else if n >= 1 && chars[n - 1] == '\n' {
        n - 1
    } else {
        n
    };
    let word = text_between(&chars, 0, end);
    assert(word@ == without_line_break(line@)) by {
        assert(line@.take(end as int) == line@.subrange(0, end as int));
        if end == n {
            assert(line@.take(n as int) == line@);
        }
    }
    if same_text(word.as_str(), "y") || same_text(word.as_str(), "Y") || same_text(
        word.as_str(),
        "yes",
    ) {
        Some(true)
    } else if same_text(word.as_str(), "n") || same_text(word.as_str(), "N") || same_text(
        word.as_str(),
        "no",
    ) {
        Some(false)
    } else {
        None
    }
}

} // verus!
