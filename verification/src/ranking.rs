//! The order in which the catalog lists its records.

use vstd::prelude::*;
use vstd::seq_lib::{to_multiset_build, to_multiset_insert};
use crate::resource::{opt_text, DateTime, Resource, ResourceView};
use crate::text::{lemma_text_order_strict, lemma_text_order_transitive, text_before, text_lt};

verus! {

/// Whether `a` comes before `b`, a missing number before any number.
pub open spec fn opt_int_lt(a: Option<i32>, b: Option<i32>) -> bool {
    match (a, b) {
        (None, Some(_)) => true,
        (Some(x), Some(y)) => x < y,
        _ => false,
    }
}

/// Whether `a` comes before `b`, a missing text before any text.
pub open spec fn opt_text_lt(a: Option<Seq<char>>, b: Option<Seq<char>>) -> bool {
    match (a, b) {
        (None, Some(_)) => true,
        (Some(x), Some(y)) => text_lt(x, y),
        _ => false,
    }
}

/// Whether the date `a` comes before `b`: by the year, then the month, the
/// day, the hour, the minute and the second.
pub open spec fn date_lt(a: DateTime, b: DateTime) -> bool {
    ||| opt_int_lt(a.year, b.year)
    ||| a.year == b.year && opt_int_lt(a.month, b.month)
    ||| a.year == b.year && a.month == b.month && opt_int_lt(a.day, b.day)
    ||| a.year == b.year && a.month == b.month && a.day == b.day && opt_int_lt(a.hour, b.hour)
    ||| a.year == b.year && a.month == b.month && a.day == b.day && a.hour == b.hour && opt_int_lt(
        a.minute,
        b.minute,
    )
    ||| a.year == b.year && a.month == b.month && a.day == b.day && a.hour == b.hour && a.minute
        == b.minute && opt_int_lt(a.second, b.second)
}

/// Whether `a` comes before `b`, a missing date before any date.
pub open spec fn opt_date_lt(a: Option<DateTime>, b: Option<DateTime>) -> bool {
    match (a, b) {
        (None, Some(_)) => true,
        (Some(x), Some(y)) => date_lt(x, y),
        _ => false,
    }
}

/// Whether the record `a` is listed before `b`: by the title, and among
/// equal titles by the date, then the edition, the version and the volume.
pub open spec fn record_lt(a: ResourceView, b: ResourceView) -> bool {
    ||| text_lt(a.title, b.title)
    ||| a.title == b.title && opt_date_lt(a.date, b.date)
    ||| a.title == b.title && a.date == b.date && opt_text_lt(a.edition, b.edition)
    ||| a.title == b.title && a.date == b.date && a.edition == b.edition && opt_text_lt(
        a.version,
        b.version,
    )
    ||| a.title == b.title && a.date == b.date && a.edition == b.edition && a.version == b.version
        && opt_text_lt(a.volume, b.volume)
}

/// Whether no record of `s` is listed before one that stands earlier.
pub open spec fn in_order(s: Seq<ResourceView>) -> bool {
    forall|i: int, j: int| 0 <= i < j < s.len() ==> !record_lt(#[trigger] s[j], #[trigger] s[i])
}

/// The records of `s` in the order of the catalog. Records of one rank keep
/// the order that they have in `s`.
pub open spec fn listed(s: Seq<ResourceView>) -> Seq<ResourceView>
    decreases s.len(),
{
    if s.len() == 0 {
        s
    } else {
        let before = listed(s.drop_last());
        before.insert(first_after(before, s.last()), s.last())
    }
}

/// The first place of `s` whose record is listed after `x`, or the length
/// of `s` where there is none.
pub open spec fn first_after(s: Seq<ResourceView>, x: ResourceView) -> int
    decreases s.len(),
{
    if s.len() == 0 {
        0
    } else if record_lt(x, s[0]) {
        0
    } else {
        1 + first_after(s.drop_first(), x)
    }
}

/// The views of a list of records.
pub open spec fn record_views(records: Seq<Resource>) -> Seq<ResourceView> {
    records.map_values(|r: Resource| r@)
}

/// The order of optional texts is transitive, and no text is before itself.
proof fn lemma_opt_text_order(a: Option<Seq<char>>, b: Option<Seq<char>>, c: Option<Seq<char>>)
    ensures
        opt_text_lt(a, b) && opt_text_lt(b, c) ==> opt_text_lt(a, c),
        !opt_text_lt(a, a),
        !(opt_text_lt(a, b) && opt_text_lt(b, a)),
{
    if a is Some && b is Some {
        lemma_text_order_strict(a->0, b->0);
        if c is Some && text_lt(a->0, b->0) && text_lt(b->0, c->0) {
            lemma_text_order_transitive(a->0, b->0, c->0);
        }
    }
    if a is Some {
        lemma_text_order_strict(a->0, a->0);
    }
}

/// The order of the catalog is transitive.
pub proof fn lemma_record_order_transitive(a: ResourceView, b: ResourceView, c: ResourceView)
    requires
        record_lt(a, b),
        record_lt(b, c),
    ensures
        record_lt(a, c),
{
    lemma_text_order_strict(a.title, b.title);
    lemma_text_order_strict(b.title, c.title);
    if text_lt(a.title, b.title) && text_lt(b.title, c.title) {
        lemma_text_order_transitive(a.title, b.title, c.title);
    }
    lemma_opt_text_order(a.edition, b.edition, c.edition);
    lemma_opt_text_order(a.version, b.version, c.version);
    lemma_opt_text_order(a.volume, b.volume, c.volume);
}

/// No record is listed before itself, and of two records at most one is
/// listed before the other.
pub proof fn lemma_record_order_strict(a: ResourceView, b: ResourceView)
    ensures
        !record_lt(a, a),
        !(record_lt(a, b) && record_lt(b, a)),
{
    lemma_text_order_strict(a.title, b.title);
    lemma_text_order_strict(a.title, a.title);
    lemma_opt_text_order(a.edition, b.edition, a.edition);
    lemma_opt_text_order(a.version, b.version, a.version);
    lemma_opt_text_order(a.volume, b.volume, a.volume);
}

/// Where `first_after` points: no record before that place is listed after
/// `x`, and the record at that place is.
pub proof fn lemma_first_after(s: Seq<ResourceView>, x: ResourceView)
    ensures
        0 <= first_after(s, x) <= s.len(),
        forall|k: int| 0 <= k < first_after(s, x) ==> !record_lt(x, #[trigger] s[k]),
        first_after(s, x) < s.len() ==> record_lt(x, s[first_after(s, x)]),
    decreases s.len(),
{
    if s.len() > 0 && !record_lt(x, s[0]) {
        lemma_first_after(s.drop_first(), x);
        assert forall|k: int| 0 <= k < first_after(s, x) implies !record_lt(x, #[trigger] s[k]) by {
            if k > 0 {
                assert(s[k] == s.drop_first()[k - 1]);
            }
        }
    }
}

/// The list that `listed` makes is in the order of the catalog and holds
/// the records of `s`, each as often as `s` does.
pub proof fn lemma_listed_sorts(s: Seq<ResourceView>)
    ensures
        in_order(listed(s)),
        listed(s).to_multiset() == s.to_multiset(),
        listed(s).len() == s.len(),
    decreases s.len(),
{
    if s.len() > 0 {
        let head = s.drop_last();
        let x = s.last();
        lemma_listed_sorts(head);
        let before = listed(head);
        let p = first_after(before, x);
        lemma_first_after(before, x);
        let after = before.insert(p, x);
        assert forall|i: int, j: int| 0 <= i < j < after.len() implies !record_lt(
            #[trigger] after[j],
            #[trigger] after[i],
        ) by {
            if j == p {
                assert(after[i] == before[i]);
            } else if i == p {
                assert(after[j] == before[j - 1]);
                if record_lt(after[j], x) {
                    lemma_record_order_transitive(after[j], x, before[p]);
                    if j - 1 > p {
                        assert(!record_lt(before[j - 1], before[p]));
                    } else {
                        lemma_record_order_strict(before[p], before[p]);
                    }
                }
            } else {
                let i0 = if i < p {
                    i
                } else {
                    i - 1
                };
                let j0 = if j < p {
                    j
                } else {
                    j - 1
                };
                assert(after[i] == before[i0]);
                assert(after[j] == before[j0]);
            }
        }
        to_multiset_insert(before, p, x);
        assert(head.push(x) == s);
        to_multiset_build(head, x);
    }
}

/// A list that is in the order of the catalog is listed as it stands.
pub proof fn lemma_listed_keeps_order(s: Seq<ResourceView>)
    requires
        in_order(s),
    ensures
        listed(s) == s,
    decreases s.len(),
{
    if s.len() > 0 {
        let head = s.drop_last();
        assert forall|i: int, j: int| 0 <= i < j < head.len() implies !record_lt(
            #[trigger] head[j],
            #[trigger] head[i],
        ) by {
            assert(head[i] == s[i] && head[j] == s[j]);
        }
        lemma_listed_keeps_order(head);
        lemma_first_after(head, s.last());
        let p = first_after(head, s.last());
        if p < head.len() {
            assert(head[p] == s[p]);
            assert(!record_lt(s[s.len() - 1], s[p]));
        }
        assert(head.insert(p, s.last()) == s);
    }
}

/// Whether `a` comes before `b`, a missing number before any number.
fn opt_int_before(a: Option<i32>, b: Option<i32>) -> (before: bool)
    ensures
        before == opt_int_lt(a, b),
{
    match (a, b) {
        (None, Some(_)) => true,
        (Some(x), Some(y)) => x < y,
        _ => false,
    }
}

/// Whether two numbers that may be missing are the same.
fn opt_int_same(a: Option<i32>, b: Option<i32>) -> (same: bool)
    ensures
        same == (a == b),
{
    match (a, b) {
        (None, None) => true,
        (Some(x), Some(y)) => x == y,
        _ => false,
    }
}

/// Whether `a` comes before `b`, a missing text before any text.
fn opt_text_before(a: &Option<String>, b: &Option<String>) -> (before: bool)
    ensures
        before == opt_text_lt(opt_text(*a), opt_text(*b)),
{
    match (a, b) {
        (None, Some(_)) => true,
        (Some(x), Some(y)) => text_before(x.as_str(), y.as_str()),
        _ => false,
    }
}

/// Whether two texts that may be missing are the same.
fn opt_text_same(a: &Option<String>, b: &Option<String>) -> (same: bool)
    ensures
        same == (opt_text(*a) == opt_text(*b)),
{
    match (a, b) {
        (None, None) => true,
        (Some(x), Some(y)) => *x == *y,
        _ => false,
    }
}

/// Whether the date `a` comes before `b`.
pub fn date_before(a: &DateTime, b: &DateTime) -> (before: bool)
    ensures
        before == date_lt(*a, *b),
{
    if !opt_int_same(a.year, b.year) {
        opt_int_before(a.year, b.year)
    } else if !opt_int_same(a.month, b.month) {
        opt_int_before(a.month, b.month)
    } else if !opt_int_same(a.day, b.day) {
        opt_int_before(a.day, b.day)
    } else if !opt_int_same(a.hour, b.hour) {
        opt_int_before(a.hour, b.hour)
    } else if !opt_int_same(a.minute, b.minute) {
        opt_int_before(a.minute, b.minute)
    } else {
        opt_int_before(a.second, b.second)
    }
}

/// Whether two dates are the same.
fn date_same(a: &DateTime, b: &DateTime) -> (same: bool)
    ensures
        same == (*a == *b),
{
    opt_int_same(a.year, b.year) && opt_int_same(a.month, b.month) && opt_int_same(a.day, b.day)
        && opt_int_same(a.hour, b.hour) && opt_int_same(a.minute, b.minute) && opt_int_same(
        a.second,
        b.second,
    )
}

/// Whether the record `a` is listed before `b` in the catalog.
pub fn record_before(a: &Resource, b: &Resource) -> (before: bool)
    ensures
        before == record_lt(a@, b@),
{
    proof {
        lemma_text_order_strict(a@.title, a@.title);
        lemma_opt_text_order(a@.edition, a@.edition, a@.edition);
        lemma_opt_text_order(a@.version, a@.version, a@.version);
    }
    if a.title != b.title {
        return text_before(a.title.as_str(), b.title.as_str());
    }
    let dates_same = match (&a.date, &b.date) {
        (None, None) => true,
        (Some(x), Some(y)) => date_same(x, y),
        _ => false,
    };
    if !dates_same {
        return match (&a.date, &b.date) {
            (None, Some(_)) => true,
            (Some(x), Some(y)) => date_before(x, y),
            _ => false,
        };
    }
    if !opt_text_same(&a.edition, &b.edition) {
        return opt_text_before(&a.edition, &b.edition);
    }
    if !opt_text_same(&a.version, &b.version) {
        return opt_text_before(&a.version, &b.version);
    }
    opt_text_before(&a.volume, &b.volume)
}

/// Lists the records in the order of the catalog. Records of one rank keep
/// the order in which they came.
pub fn sort_records(records: Vec<Resource>) -> (out: Vec<Resource>)
    ensures
        record_views(out@) == listed(record_views(records@)),
{
    let ghost all = record_views(records@);
    let mut rest = records;
    let mut stack: Vec<Resource> = Vec::new();
    while rest.len() > 0
        invariant
            record_views(rest@) + record_views(stack@).reverse() == all,
        decreases rest.len(),
    {
        let ghost r0 = record_views(rest@);
        let ghost s0 = record_views(stack@);
        let x = rest.pop().unwrap();
        stack.push(x);
        assert(record_views(rest@) =~= r0.drop_last());
        assert(record_views(stack@) =~= s0.push(x@));
        assert(record_views(stack@).reverse() =~= seq![x@] + s0.reverse());
        assert(r0 =~= r0.drop_last() + seq![x@]);
    }
    assert(record_views(stack@).reverse() =~= all);
    let mut out: Vec<Resource> = Vec::new();
    let ghost mut done: int = 0;
    while stack.len() > 0
        invariant
            0 <= done <= all.len(),
            record_views(stack@).reverse() == all.skip(done),
            record_views(out@) == listed(all.take(done)),
        decreases stack.len(),
    {
        let ghost s0 = record_views(stack@);
        let ghost o0 = record_views(out@);
        assert(s0.reverse().len() == s0.len());
        assert(all.skip(done).len() == all.len() - done);
        let x = stack.pop().unwrap();
        assert(record_views(stack@) =~= s0.drop_last());
        assert(s0.reverse()[0] == x@);
        assert(all.skip(done)[0] == all[done]);
        assert(s0.drop_last().reverse() =~= s0.reverse().drop_first());
        assert(all.skip(done).drop_first() =~= all.skip(done + 1));
        assert(record_views(stack@).reverse() =~= all.skip(done + 1));
        assert(o0.skip(0) =~= o0);
        let mut k: usize = 0;
        while k < out.len() && !record_before(&x, &out[k])
            invariant
                k <= out.len(),
                o0 == record_views(out@),
                first_after(o0, x@) == k + first_after(o0.skip(k as int), x@),
            decreases out.len() - k,
        {
            assert(o0.skip(k as int)[0] == out@[k as int]@);
            assert(o0.skip(k as int).drop_first() =~= o0.skip(k + 1));
            k += 1;
        }
        proof {
            if k < out.len() {
                assert(o0.skip(k as int)[0] == out@[k as int]@);
            } else {
                assert(o0.skip(k as int).len() == 0);
            }
            assert(first_after(o0, x@) == k);
            assert(all.take(done + 1).drop_last() =~= all.take(done));
            assert(all.take(done + 1).last() == x@);
        }
        out.insert(k, x);
        assert(record_views(out@) =~= o0.insert(k as int, x@));
        proof {
            done = done + 1;
        }
    }
    assert(all.take(all.len() as int) =~= all);
    out
}

} // verus!
