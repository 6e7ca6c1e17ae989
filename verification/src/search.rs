//! Search over the records of the catalog by fuzzy matching.

use fuzzy_matcher::skim::SkimMatcherV2;
use fuzzy_matcher::FuzzyMatcher;
use vstd::prelude::*;
use vstd::string::*;
use crate::catalog::Catalog;
use crate::ranking::record_views;
use crate::resource::{is_field_name, name_list, set_fields, Resource, ResourceView};
use crate::text::join_text;

verus! {

/// The score with which the text `choice` matches the query `pattern`,
/// letter case ignored, and nothing where it does not match.
pub uninterp spec fn fuzzy_score(choice: Seq<char>, pattern: Seq<char>) -> Option<i64>;

/// `FuzzyMatcher::fuzzy_match` of a `SkimMatcherV2` that is set to ignore
/// case and is otherwise as `default` makes it. The score depends on the two
/// texts alone.
#[verifier::external_body]
fn skim_score(choice: &str, pattern: &str) -> (score: Option<i64>)
    ensures
        score == fuzzy_score(choice@, pattern@),
{
    SkimMatcherV2::default().ignore_case().fuzzy_match(choice, pattern)
}

/// Whether the score at the place `i` counts as a match: there is one and
/// it is above zero.
pub open spec fn matches_at(scores: Seq<Option<i64>>, i: int) -> bool {
    0 <= i < scores.len() && scores[i] is Some && scores[i]->0 > 0
}

/// The first place of `list` whose score is below `score`, or the length of
/// `list` where none is.
pub open spec fn first_below(list: Seq<int>, scores: Seq<Option<i64>>, score: i64) -> int
    decreases list.len(),
{
    if list.len() == 0 {
        0
    } else if scores[list[0]]->0 < score {
        0
    } else {
        1 + first_below(list.drop_first(), scores, score)
    }
}

/// The places of the first `n` scores that count as matches, the highest
/// score first; places of one score keep their order.
pub open spec fn ranked(scores: Seq<Option<i64>>, n: int) -> Seq<int>
    decreases n,
{
    if n <= 0 {
        Seq::<int>::empty()
    } else {
        let before = ranked(scores, n - 1);
        if matches_at(scores, n - 1) {
            before.insert(first_below(before, scores, scores[n - 1]->0), n - 1)
        } else {
            before
        }
    }
}

/// Every place that `ranked` lists is the place of a match among the first
/// `n` scores.
pub proof fn lemma_ranked_places(scores: Seq<Option<i64>>, n: int)
    requires
        n <= scores.len(),
    ensures
        forall|k: int|
            0 <= k < ranked(scores, n).len() ==> matches_at(scores, #[trigger] ranked(scores, n)[k])
                && ranked(scores, n)[k] < n,
    decreases n,
{
    if n > 0 {
        lemma_ranked_places(scores, n - 1);
        let before = ranked(scores, n - 1);
        if matches_at(scores, n - 1) {
            let p = first_below(before, scores, scores[n - 1]->0);
            lemma_first_below(before, scores, scores[n - 1]->0);
            let after = before.insert(p, n - 1);
            assert forall|k: int| 0 <= k < after.len() implies matches_at(scores, #[trigger] after[k])
                && after[k] < n by {
                if k < p {
                    assert(after[k] == before[k]);
                } else if k > p {
                    assert(after[k] == before[k - 1]);
                }
            }
        }
    }
}

/// Where `first_below` points: every score before that place is at least
/// `score`, and the score at that place is below it.
pub proof fn lemma_first_below(list: Seq<int>, scores: Seq<Option<i64>>, score: i64)
    ensures
        0 <= first_below(list, scores, score) <= list.len(),
        forall|k: int|
            0 <= k < first_below(list, scores, score) ==> scores[#[trigger] list[k]]->0 >= score,
        first_below(list, scores, score) < list.len() ==> scores[list[first_below(
            list,
            scores,
            score,
        )]]->0 < score,
    decreases list.len(),
{
    if list.len() > 0 && !(scores[list[0]]->0 < score) {
        lemma_first_below(list.drop_first(), scores, score);
        assert forall|k: int| 0 <= k < first_below(list, scores, score) implies scores[#[trigger] list[k]]->0
            >= score by {
            if k > 0 {
                assert(list[k] == list.drop_first()[k - 1]);
            }
        }
    }
}

/// The ranking lists the matches by falling score.
pub proof fn lemma_ranked_falls(scores: Seq<Option<i64>>, n: int)
    requires
        n <= scores.len(),
    ensures
        forall|i: int, j: int|
            0 <= i < j < ranked(scores, n).len() ==> scores[#[trigger] ranked(scores, n)[i]]->0
                >= scores[#[trigger] ranked(scores, n)[j]]->0,
    decreases n,
{
    if n > 0 {
        lemma_ranked_falls(scores, n - 1);
        let before = ranked(scores, n - 1);
        if matches_at(scores, n - 1) {
            let score = scores[n - 1]->0;
            let p = first_below(before, scores, score);
            lemma_first_below(before, scores, score);
            let after = before.insert(p, n - 1);
            assert forall|i: int, j: int| 0 <= i < j < after.len() implies scores[#[trigger] after[i]]->0
                >= scores[#[trigger] after[j]]->0 by {
                let i0 = if i < p {
                    i
                } else {
                    i - 1
                };
                let j0 = if j < p {
                    j
                } else {
                    j - 1
                };
                if i == p {
                    assert(after[j] == before[j0]);
                    if j0 > p {
                        assert(scores[before[p]]->0 >= scores[before[j0]]->0);
                    }
                } else if j == p {
                    assert(after[i] == before[i0]);
                } else {
                    assert(after[i] == before[i0]);
                    assert(after[j] == before[j0]);
                }
            }
        }
    }
}

/// Whether the score at the place `at` is at least `score`.
fn holds_at_least(scores: &Vec<Option<i64>>, at: usize, score: i64) -> (holds: bool)
    requires
        matches_at(scores@, at as int),
    ensures
        holds == (scores@[at as int]->0 >= score),
{
    match scores[at] {
        Some(other) => other >= score,
        None => true,
    }
}

/// The places of the scores that count as matches, the highest score
/// first; places of one score keep their order.
pub fn rank_matches(scores: &Vec<Option<i64>>) -> (order: Vec<usize>)
    ensures
        order@.map_values(|i: usize| i as int) == ranked(scores@, scores@.len() as int),
{
    let mut order: Vec<usize> = Vec::new();
    let mut n: usize = 0;
    assert(order@.map_values(|i: usize| i as int) =~= ranked(scores@, 0));
    while n < scores.len()
        invariant
            n <= scores@.len(),
            order@.map_values(|i: usize| i as int) == ranked(scores@, n as int),
        decreases scores.len() - n,
    {
        let ghost before = ranked(scores@, n as int);
        proof {
            lemma_ranked_places(scores@, n as int);
        }
        match scores[n] {
            Some(score) => {
                if score > 0 {
                    let mut k: usize = 0;
                    assert(before.skip(0) == before);
                    assert forall|q: int| 0 <= q < order@.len() implies matches_at(
                        scores@,
                        (#[trigger] order@[q]) as int,
                    ) by {
                        assert(before[q] == order@[q]);
                    }
                    while k < order.len() && holds_at_least(scores, order[k], score)
                        invariant
                            k <= order@.len(),
                            n < scores@.len(),
                            before == order@.map_values(|i: usize| i as int),
                            forall|q: int|
                                0 <= q < order@.len() ==> matches_at(
                                    scores@,
                                    (#[trigger] order@[q]) as int,
                                ),
                            first_below(before, scores@, score) == k + first_below(
                                before.skip(k as int),
                                scores@,
                                score,
                            ),
                        decreases order@.len() - k,
                    {
                        assert(before.skip(k as int)[0] == before[k as int]);
                        assert(before.skip(k as int).drop_first() == before.skip(k + 1));
                        k += 1;
                    }
                    proof {
                        if k < order@.len() {
                            assert(before.skip(k as int)[0] == before[k as int]);
                        } else {
                            assert(before.skip(k as int).len() == 0);
                        }
                    }
                    order.insert(k, n);
                    assert(order@.map_values(|i: usize| i as int) =~= before.insert(
                        k as int,
                        n as int,
                    ));
                }
            },
            None => {},
        }
        n += 1;
    }
    order
}

/// The names of the fields that a search looks into.
pub open spec fn search_fields() -> Seq<Seq<char>> {
    seq![
        "title"@,
        "subtitle"@,
        "author"@,
        "editor"@,
        "date"@,
        "edition"@,
        "version"@,
        "publisher"@,
        "organization"@,
        "journal"@,
        "volume"@,
        "number"@,
        "doi"@,
        "tags"@,
        "document"@,
        "content"@,
        "url"@,
        "checksum"@,
        "historical_checksums"@,
    ]
}

/// The text of a record that a query is matched against: its fields that
/// are set, with single spaces between them.
pub open spec fn search_text(r: ResourceView) -> Seq<char> {
    join_text(set_fields(r, search_fields()), seq![' '])
}

/// The score of each record for the query.
pub open spec fn search_scores(records: Seq<ResourceView>, query: Seq<char>) -> Seq<Option<i64>> {
    records.map_values(|r: ResourceView| fuzzy_score(search_text(r), query))
}

/// The records at the given places.
pub open spec fn picked(records: Seq<ResourceView>, places: Seq<int>) -> Seq<ResourceView> {
    places.map_values(|i: int| records[i])
}

/// The names of the fields that a search looks into.
fn search_field_names() -> (fields: Vec<&'static str>)
    ensures
        name_list(fields@) == search_fields(),
        forall|i: int| 0 <= i < fields@.len() ==> is_field_name(#[trigger] fields@[i]@),
{
    let mut fields: Vec<&'static str> = Vec::new();
    fields.push("title");
    fields.push("subtitle");
    fields.push("author");
    fields.push("editor");
    fields.push("date");
    fields.push("edition");
    fields.push("version");
    fields.push("publisher");
    fields.push("organization");
    fields.push("journal");
    fields.push("volume");
    fields.push("number");
    fields.push("doi");
    fields.push("tags");
    fields.push("document");
    fields.push("content");
    fields.push("url");
    fields.push("checksum");
    fields.push("historical_checksums");
    assert(name_list(fields@) =~= search_fields());
    fields
}

/// The records matching a query, the best match first: every record whose
/// text matches the query with a score above zero, by falling score.
pub fn librarian_search(catalog: &Catalog, query: &str) -> (found: Vec<Resource>)
    ensures
        record_views(found@) == picked(
            record_views(catalog.resources@),
            ranked(
                search_scores(record_views(catalog.resources@), query@),
                catalog.resources@.len() as int,
            ),
        ),
{
    let ghost all = record_views(catalog.resources@);
    let mut scores: Vec<Option<i64>> = Vec::new();
    let mut i: usize = 0;
    while i < catalog.resources.len()
        invariant
            i <= catalog.resources@.len(),
            all == record_views(catalog.resources@),
            scores@ == search_scores(all, query@).take(i as int),
        decreases catalog.resources@.len() - i,
    {
        let text = catalog.resources[i].concat_fields(search_field_names());
        assert(all[i as int] == catalog.resources@[i as int]@);
        scores.push(skim_score(text.as_str(), query));
        assert(scores@ =~= search_scores(all, query@).take(i + 1));
        i += 1;
    }
    assert(search_scores(all, query@).take(all.len() as int) =~= search_scores(all, query@));
    let order = rank_matches(&scores);
    let ghost places = ranked(scores@, scores@.len() as int);
    proof {
        lemma_ranked_places(scores@, scores@.len() as int);
    }
    let mut found: Vec<Resource> = Vec::new();
    let mut k: usize = 0;
    while k < order.len()
        invariant
            k <= order@.len(),
            all == record_views(catalog.resources@),
            scores@.len() == all.len(),
            places == order@.map_values(|i: usize| i as int),
            forall|q: int| 0 <= q < places.len() ==> 0 <= #[trigger] places[q] < scores@.len(),
            record_views(found@) == picked(all, places.take(k as int)),
        decreases order@.len() - k,
    {
        let ghost before = record_views(found@);
        let at = order[k];
        assert(places[k as int] == at);
        found.push(catalog.resources[at].clone());
        assert(record_views(found@) =~= before.push(all[at as int]));
        assert(picked(all, places.take(k + 1)) =~= picked(all, places.take(k as int)).push(
            all[at as int],
        ));
        k += 1;
    }
    assert(places.take(places.len() as int) == places);
    found
}

} // verus!
