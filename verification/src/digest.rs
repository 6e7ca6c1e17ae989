//! The digest that identifies content: SHA-1, written as forty hexadecimal
//! digits.

use vstd::prelude::*;
use vstd::string::*;
use vstd::seq_lib::{to_multiset_build, to_multiset_contains, to_multiset_insert};
use crate::sorted::{all_in, ascending_by, lemma_ascending_is_unique, strict};
use vstd::utf8::encode_utf8;
use crate::text::{lemma_join_split, lemma_text_order_strict, lemma_text_order_total, lemma_text_order_transitive, same_text, split, split_text, text_before, text_lt, texts};

verus! {

/// The SHA-1 digest of `data` in lower-case hexadecimal digits.
pub uninterp spec fn sha1_hex(data: Seq<u8>) -> Seq<char>;

/// `sha1::Sha1::from(data).digest()`, shown as text: the digest of the bytes
/// in hexadecimal digits, which depends on the bytes alone.
#[verifier::external_body]
fn sha1_of(data: &[u8]) -> (hex: String)
    ensures
        hex@ == sha1_hex(data@),
{
    sha1::Sha1::from(data).digest().to_string()
}

/// One entry below a directory: its path relative to the directory and,
/// for a file, its content. A directory has no content of its own.
#[derive(Debug, PartialEq, Eq)]
pub struct TreeEntry {
    pub path: String,
    pub content: Option<Vec<u8>>,
}

/// The bytes that one entry adds to the digest of its directory: its
/// relative path in UTF-8 and then, for a file, its content.
pub open spec fn entry_bytes(e: TreeEntry) -> Seq<u8> {
    match e.content {
        Some(c) => encode_utf8(e.path@) + c@,
        None => encode_utf8(e.path@),
    }
}

/// The bytes of all entries, in their order.
pub open spec fn tree_bytes(entries: Seq<TreeEntry>) -> Seq<u8>
    decreases entries.len(),
{
    if entries.len() == 0 {
        Seq::<u8>::empty()
    } else {
        tree_bytes(entries.drop_last()) + entry_bytes(entries.last())
    }
}

/// Appends the bytes of `more` to `all`.
fn append_bytes(all: &mut Vec<u8>, more: &[u8])
    ensures
        final(all)@ == old(all)@ + more@,
{
    let mut i: usize = 0;
    while i < more.len()
        invariant
            i <= more@.len(),
            all@ == old(all)@ + more@.take(i as int),
        decreases more.len() - i,
    {
        all.push(more[i]);
        assert(more@.take(i + 1) == more@.take(i as int).push(more@[i as int]));
        i += 1;
    }
    assert(more@.take(more@.len() as int) == more@);
}

/// The digest of a file with the given content.
pub fn file_digest(content: &[u8]) -> (digest: String)
    ensures
        digest@ == sha1_hex(content@),
{
    sha1_of(content)
}

/// `a` and `b` agree on their first `k` parts and `a` is the smaller one
/// right after them.
pub open spec fn parts_lt_at(a: Seq<Seq<char>>, b: Seq<Seq<char>>, k: int) -> bool {
    &&& 0 <= k <= a.len()
    &&& k < b.len()
    &&& a.take(k) == b.take(k)
    &&& (k == a.len() || text_lt(a[k], b[k]))
}

/// Whether the list of parts `a` comes before `b`: at the first place where
/// they differ `a` has the smaller part, or `a` is a proper beginning of
/// `b`.
pub open spec fn parts_lt(a: Seq<Seq<char>>, b: Seq<Seq<char>>) -> bool {
    exists|k: int| #[trigger] parts_lt_at(a, b, k)
}

/// Whether the relative path `a` comes before `b` in a walk: the paths are
/// compared name by name, so that a directory comes before what lies in it,
/// and all of that before the next entry beside the directory.
pub open spec fn path_lt(a: Seq<char>, b: Seq<char>) -> bool {
    parts_lt(split_text(a, '/'), split_text(b, '/'))
}

/// The first place of `s` whose path comes after `path`, or the length of
/// `s` where none does.
pub open spec fn first_later(s: Seq<TreeEntry>, path: Seq<char>) -> int
    decreases s.len(),
{
    if s.len() == 0 {
        0
    } else if path_lt(path, s[0].path@) {
        0
    } else {
        1 + first_later(s.drop_first(), path)
    }
}

/// The entries in the order of a walk, by their paths. Entries with one
/// path keep their order.
pub open spec fn walk_order(s: Seq<TreeEntry>) -> Seq<TreeEntry>
    decreases s.len(),
{
    if s.len() == 0 {
        s
    } else {
        let before = walk_order(s.drop_last());
        before.insert(first_later(before, s.last().path@), s.last())
    }
}

/// Whether no entry of `s` has a path that comes before the path of an
/// earlier entry.
pub open spec fn in_walk_order(s: Seq<TreeEntry>) -> bool {
    forall|i: int, j: int|
        0 <= i < j < s.len() ==> !path_lt((#[trigger] s[j]).path@, (#[trigger] s[i]).path@)
}

/// The order of lists of parts is transitive.
proof fn lemma_parts_order_transitive(a: Seq<Seq<char>>, b: Seq<Seq<char>>, c: Seq<Seq<char>>)
    requires
        parts_lt(a, b),
        parts_lt(b, c),
    ensures
        parts_lt(a, c),
{
    let k = choose|k: int| parts_lt_at(a, b, k);
    let m = choose|m: int| parts_lt_at(b, c, m);
    let n = if k <= m {
        k
    } else {
        m
    };
    assert(a.take(n) == a.take(k).take(n));
    assert(b.take(n) == b.take(k).take(n));
    assert(b.take(n) == b.take(m).take(n));
    assert(c.take(n) == c.take(m).take(n));
    if k < m {
        assert(b.take(m)[k] == c.take(m)[k]);
    } else if m < k {
        assert(a.take(k)[m] == b.take(k)[m]);
    } else if k < a.len() {
        lemma_text_order_transitive(a[k], b[k], c[k]);
    }
    assert(parts_lt_at(a, c, n));
}

/// The order of paths is transitive.
pub proof fn lemma_path_order_transitive(a: Seq<char>, b: Seq<char>, c: Seq<char>)
    requires
        path_lt(a, b),
        path_lt(b, c),
    ensures
        path_lt(a, c),
{
    lemma_parts_order_transitive(split_text(a, '/'), split_text(b, '/'), split_text(c, '/'));
}

/// Where `first_later` points: no entry before that place has a path that
/// comes after `path`, and the entry at that place has one.
proof fn lemma_first_later(s: Seq<TreeEntry>, path: Seq<char>)
    ensures
        0 <= first_later(s, path) <= s.len(),
        forall|k: int| 0 <= k < first_later(s, path) ==> !path_lt(path, (#[trigger] s[k]).path@),
        first_later(s, path) < s.len() ==> path_lt(path, s[first_later(s, path)].path@),
    decreases s.len(),
{
    if s.len() > 0 && !path_lt(path, s[0].path@) {
        lemma_first_later(s.drop_first(), path);
        assert forall|k: int| 0 <= k < first_later(s, path) implies !path_lt(
            path,
            (#[trigger] s[k]).path@,
        ) by {
            if k > 0 {
                assert(s[k] == s.drop_first()[k - 1]);
            }
        }
    }
}

/// The order of a walk holds the entries of `s`, each as often as `s`
/// does, and no path in it comes before an earlier one.
pub proof fn lemma_walk_order_sorts(s: Seq<TreeEntry>)
    ensures
        in_walk_order(walk_order(s)),
        walk_order(s).to_multiset() == s.to_multiset(),
        walk_order(s).len() == s.len(),
    decreases s.len(),
{
    if s.len() > 0 {
        let head = s.drop_last();
        let x = s.last();
        lemma_walk_order_sorts(head);
        let before = walk_order(head);
        let p = first_later(before, x.path@);
        lemma_first_later(before, x.path@);
        let after = before.insert(p, x);
        assert forall|i: int, j: int| 0 <= i < j < after.len() implies !path_lt(
            (#[trigger] after[j]).path@,
            (#[trigger] after[i]).path@,
        ) by {
            if j == p {
                assert(after[i] == before[i]);
            } else if i == p {
                assert(after[j] == before[j - 1]);
                if path_lt(after[j].path@, x.path@) {
                    lemma_path_order_transitive(after[j].path@, x.path@, before[p].path@);
                    if j - 1 > p {
                        assert(!path_lt(before[j - 1].path@, before[p].path@));
                    } else {
                        let parts = split_text(before[p].path@, '/');
                        let k = choose|k: int| parts_lt_at(parts, parts, k);
                        lemma_text_order_strict(parts[k], parts[k]);
                    }
                }
            } else {
                let i0 = if i < p {
                    i
                } else {
                    i - 1
                };
                let j0 = if j < p {
                    j
                } else {
                    j - 1
                };
                assert(after[i] == before[i0]);
                assert(after[j] == before[j0]);
            }
        }
        to_multiset_insert(before, p, x);
        assert(head.push(x) == s);
        to_multiset_build(head, x);
    }
}

/// Entries that are in the order of a walk stay as they are.
pub proof fn lemma_walk_order_keeps_order(s: Seq<TreeEntry>)
    requires
        in_walk_order(s),
    ensures
        walk_order(s) == s,
    decreases s.len(),
{
    if s.len() > 0 {
        let head = s.drop_last();
        assert forall|i: int, j: int| 0 <= i < j < head.len() implies !path_lt(
            (#[trigger] head[j]).path@,
            (#[trigger] head[i]).path@,
        ) by {
            assert(head[i] == s[i] && head[j] == s[j]);
        }
        lemma_walk_order_keeps_order(head);
        lemma_first_later(head, s.last().path@);
        let p = first_later(head, s.last().path@);
        if p < head.len() {
            assert(head[p] == s[p]);
            assert(!path_lt(s[s.len() - 1].path@, s[p].path@));
        }
        assert(head.insert(p, s.last()) == s);
    }
}

/// Whether no two entries of `s` have the same path.
pub open spec fn distinct_paths(s: Seq<TreeEntry>) -> bool {
    forall|i: int, j: int| 0 <= i < j < s.len() ==> (#[trigger] s[i]).path@ != (#[trigger] s[j]).path@
}

/// The order of a walk as a relation on entries.
pub open spec fn walk_relation() -> spec_fn(TreeEntry, TreeEntry) -> bool {
    |a: TreeEntry, b: TreeEntry| path_lt(a.path@, b.path@)
}

/// Of two lists of parts that agree on their first `k` parts, one comes
/// before the other or they are the same list.
proof fn lemma_parts_order_from(a: Seq<Seq<char>>, b: Seq<Seq<char>>, k: int)
    requires
        0 <= k <= a.len(),
        k <= b.len(),
        a.take(k) == b.take(k),
    ensures
        a == b || parts_lt(a, b) || parts_lt(b, a),
    decreases a.len() - k,
{
    if k == a.len() {
        if k == b.len() {
            assert(a.take(k) == a);
            assert(b.take(k) == b);
        } else {
            assert(parts_lt_at(a, b, k));
        }
    } else if k == b.len() {
        assert(parts_lt_at(b, a, k));
    } else if a[k] != b[k] {
        lemma_text_order_total(a[k], b[k]);
        if text_lt(a[k], b[k]) {
            assert(parts_lt_at(a, b, k));
        } else {
            assert(parts_lt_at(b, a, k));
        }
    } else {
        assert(a.take(k + 1) == a.take(k).push(a[k]));
        assert(b.take(k + 1) == b.take(k).push(b[k]));
        lemma_parts_order_from(a, b, k + 1);
    }
}

/// Of two different paths one comes before the other.
pub proof fn lemma_path_order_total(a: Seq<char>, b: Seq<char>)
    ensures
        a == b || path_lt(a, b) || path_lt(b, a),
{
    let x = split_text(a, '/');
    let y = split_text(b, '/');
    assert(x.take(0) == y.take(0));
    lemma_parts_order_from(x, y, 0);
    lemma_join_split(a, '/');
    lemma_join_split(b, '/');
}

/// No path comes before itself, and of two paths at most one comes before
/// the other.
pub proof fn lemma_path_order_strict(a: Seq<char>, b: Seq<char>)
    ensures
        !(path_lt(a, b) && path_lt(b, a)),
{
    let x = split_text(a, '/');
    let y = split_text(b, '/');
    if parts_lt(x, y) && parts_lt(y, x) {
        let k = choose|k: int| parts_lt_at(x, y, k);
        let m = choose|m: int| parts_lt_at(y, x, m);
        if k < m {
            assert(y.take(m)[k] == x.take(m)[k]);
            lemma_text_order_strict(x[k], x[k]);
        } else if m < k {
            assert(x.take(k)[m] == y.take(k)[m]);
            lemma_text_order_strict(x[m], x[m]);
        } else {
            lemma_text_order_strict(x[k], y[k]);
        }
    }
}

/// Entries with different paths ascend strictly in the order of a walk,
/// and the walk holds just these entries.
proof fn lemma_walk_order_ascends(s: Seq<TreeEntry>)
    requires
        distinct_paths(s),
    ensures
        strict(walk_relation()),
        ascending_by(walk_order(s), walk_relation()),
        all_in(walk_order(s), s),
        all_in(s, walk_order(s)),
        distinct_paths(walk_order(s)),
    decreases s.len(),
{
    let w = walk_order(s);
    assert forall|x: TreeEntry, y: TreeEntry| !(#[trigger] walk_relation()(x, y) && walk_relation()(
        y,
        x,
    )) by {
        lemma_path_order_strict(x.path@, y.path@);
    }
    lemma_walk_order_sorts(s);
    assert forall|k: int| 0 <= k < w.len() implies s.contains(#[trigger] w[k]) by {
        assert(w.contains(w[k]));
        to_multiset_contains(w, w[k]);
        to_multiset_contains(s, w[k]);
    }
    assert forall|k: int| 0 <= k < s.len() implies w.contains(#[trigger] s[k]) by {
        assert(s.contains(s[k]));
        to_multiset_contains(w, s[k]);
        to_multiset_contains(s, s[k]);
    }
    if s.len() > 0 {
        let head = s.drop_last();
        let x = s.last();
        assert forall|i: int, j: int| 0 <= i < j < head.len() implies (#[trigger] head[i]).path@ != (
        #[trigger] head[j]).path@ by {
            assert(head[i] == s[i] && head[j] == s[j]);
        }
        lemma_walk_order_ascends(head);
        let before = walk_order(head);
        let p = first_later(before, x.path@);
        lemma_first_later(before, x.path@);
        assert(w == before.insert(p, x));
        assert forall|i: int, j: int| 0 <= i < j < w.len() implies (#[trigger] w[i]).path@ != (
        #[trigger] w[j]).path@ by {
            let i0 = if i < p {
                i
            } else {
                i - 1
            };
            let j0 = if j < p {
                j
            } else {
                j - 1
            };
            if i == p {
                assert(w[j] == before[j0]);
                assert(head.contains(before[j0]));
                let c = choose|c: int| 0 <= c < head.len() && head[c] == before[j0];
                assert(s[c].path@ != s[s.len() - 1].path@);
            } else if j == p {
                assert(w[i] == before[i0]);
                assert(head.contains(before[i0]));
                let c = choose|c: int| 0 <= c < head.len() && head[c] == before[i0];
                assert(s[c].path@ != s[s.len() - 1].path@);
            } else {
                assert(w[i] == before[i0]);
                assert(w[j] == before[j0]);
                assert(before[i0].path@ != before[j0].path@);
            }
        }
    }
    assert forall|i: int, j: int| 0 <= i < j < w.len() implies walk_relation()(
        #[trigger] w[i],
        #[trigger] w[j],
    ) by {
        lemma_path_order_total(w[i].path@, w[j].path@);
    }
}

/// The order in which the entries of a directory are found plays no part:
/// two lists of the same entries, no two of them with one path, are walked
/// in the same order, and so give the same digest.
pub proof fn lemma_walk_order_is_fixed(a: Seq<TreeEntry>, b: Seq<TreeEntry>)
    requires
        distinct_paths(a),
        distinct_paths(b),
        all_in(a, b),
        all_in(b, a),
    ensures
        walk_order(a) == walk_order(b),
        sha1_hex(tree_bytes(walk_order(a))) == sha1_hex(tree_bytes(walk_order(b))),
{
    lemma_walk_order_ascends(a);
    lemma_walk_order_ascends(b);
    let x = walk_order(a);
    let y = walk_order(b);
    assert forall|k: int| 0 <= k < x.len() implies y.contains(#[trigger] x[k]) by {
        assert(a.contains(x[k]));
        let c = choose|c: int| 0 <= c < a.len() && a[c] == x[k];
        assert(b.contains(a[c]));
        let d = choose|d: int| 0 <= d < b.len() && b[d] == a[c];
        assert(y.contains(b[d]));
    }
    assert forall|k: int| 0 <= k < y.len() implies x.contains(#[trigger] y[k]) by {
        assert(b.contains(y[k]));
        let c = choose|c: int| 0 <= c < b.len() && b[c] == y[k];
        assert(a.contains(b[c]));
        let d = choose|d: int| 0 <= d < a.len() && a[d] == b[c];
        assert(x.contains(a[d]));
    }
    lemma_ascending_is_unique(x, y, walk_relation());
}

/// Whether the relative path `a` comes before `b` in a walk.
pub fn path_before(a: &str, b: &str) -> (before: bool)
    ensures
        before == path_lt(a@, b@),
{
    let x = split(a, '/');
    let y = split(b, '/');
    let ghost xs = texts(x@);
    let ghost ys = texts(y@);
    let mut i: usize = 0;
    while i < x.len() && i < y.len()
        invariant
            xs == texts(x@),
            ys == texts(y@),
            xs == split_text(a@, '/'),
            ys == split_text(b@, '/'),
            i <= x.len(),
            i <= y.len(),
            xs.take(i as int) == ys.take(i as int),
        decreases x.len() - i,
    {
        assert(xs[i as int] == x@[i as int]@);
        assert(ys[i as int] == y@[i as int]@);
        if !same_text(x[i].as_str(), y[i].as_str()) {
            let before = text_before(x[i].as_str(), y[i].as_str());
            proof {
                if before {
                    assert(parts_lt_at(xs, ys, i as int));
                } else {
                    assert forall|k: int| !parts_lt_at(xs, ys, k) by {
                        if parts_lt_at(xs, ys, k) {
                            if k < i {
                                assert(xs.take(i as int)[k] == ys.take(i as int)[k]);
                                lemma_text_order_strict(xs[k], xs[k]);
                            } else if k > i {
                                assert(xs.take(k)[i as int] == ys.take(k)[i as int]);
                            }
                        }
                    }
                }
            }
            return before;
        }
        assert(xs.take(i + 1) == xs.take(i as int).push(xs[i as int]));
        assert(ys.take(i + 1) == ys.take(i as int).push(ys[i as int]));
        i += 1;
    }
    let before = x.len() < y.len();
    proof {
        if before {
            assert(parts_lt_at(xs, ys, i as int));
        } else {
            assert(ys.take(i as int) == ys);
            assert forall|k: int| !parts_lt_at(xs, ys, k) by {
                if parts_lt_at(xs, ys, k) {
                    assert(xs.take(i as int)[k] == ys.take(i as int)[k]);
                    lemma_text_order_strict(xs[k], xs[k]);
                }
            }
        }
    }
    before
}

/// Puts the entries in the order of a walk.
pub fn sort_entries(entries: Vec<TreeEntry>) -> (out: Vec<TreeEntry>)
    ensures
        out@ == walk_order(entries@),
{
    let ghost all = entries@;
    let mut rest = entries;
    let mut stack: Vec<TreeEntry> = Vec::new();
    while rest.len() > 0
        invariant
            rest@ + stack@.reverse() == all,
        decreases rest.len(),
    {
        let ghost r0 = rest@;
        let ghost s0 = stack@;
        let x = rest.pop().unwrap();
        stack.push(x);
        assert(stack@.reverse() =~= seq![x] + s0.reverse());
        assert(r0 =~= r0.drop_last() + seq![x]);
    }
    assert(stack@.reverse() =~= all);
    let mut out: Vec<TreeEntry> = Vec::new();
    let ghost mut done: int = 0;
    while stack.len() > 0
        invariant
            0 <= done <= all.len(),
            stack@.reverse() == all.skip(done),
            out@ == walk_order(all.take(done)),
        decreases stack.len(),
    {
        let ghost s0 = stack@;
        let ghost o0 = out@;
        assert(s0.reverse().len() == s0.len());
        assert(all.skip(done).len() == all.len() - done);
        let x = stack.pop().unwrap();
        assert(s0.reverse()[0] == x);
        assert(all.skip(done)[0] == all[done]);
        assert(s0.drop_last().reverse() =~= s0.reverse().drop_first());
        assert(all.skip(done).drop_first() =~= all.skip(done + 1));
        assert(o0.skip(0) =~= o0);
        let mut k: usize = 0;
        while k < out.len() && !path_before(x.path.as_str(), out[k].path.as_str())
            invariant
                k <= out.len(),
                o0 == out@,
                first_later(o0, x.path@) == k + first_later(o0.skip(k as int), x.path@),
            decreases out.len() - k,
        {
            assert(o0.skip(k as int)[0] == out@[k as int]);
            assert(o0.skip(k as int).drop_first() =~= o0.skip(k + 1));
            k += 1;
        }
        proof {
            if k < out.len() {
                assert(o0.skip(k as int)[0] == out@[k as int]);
            } else {
                assert(o0.skip(k as int).len() == 0);
            }
            assert(all.take(done + 1).drop_last() =~= all.take(done));
            assert(all.take(done + 1).last() == x);
        }
        out.insert(k, x);
        proof {
            done = done + 1;
        }
    }
    assert(all.take(all.len() as int) =~= all);
    out
}

/// The digest of a directory with the given entries, which are all that
/// lies below it. The entries are taken in the order of a walk, whatever
/// their order in `entries`; the digest takes in the path of every entry and
/// the content of every file, so that a directory with other names or other
/// content has another digest, while the place of the directory itself plays
/// no part.
pub fn directory_digest(entries: Vec<TreeEntry>) -> (digest: String)
    ensures
        digest@ == sha1_hex(tree_bytes(walk_order(entries@))),
{
    let sorted = sort_entries(entries);
    let mut all: Vec<u8> = Vec::new();
    let mut i: usize = 0;
    while i < sorted.len()
        invariant
            i <= sorted.len(),
            all@ == tree_bytes(sorted@.take(i as int)),
        decreases sorted.len() - i,
    {
        assert(sorted@.take(i + 1).drop_last() == sorted@.take(i as int));
        assert(sorted@.take(i + 1).last() == sorted@[i as int]);
        append_bytes(&mut all, sorted[i].path.as_str().as_bytes());
        match &sorted[i].content {
            Some(c) => {
                append_bytes(&mut all, c.as_slice());
            },
            None => {},
        }
        i += 1;
    }
    assert(sorted@.take(sorted@.len() as int) == sorted@);
    sha1_of(all.as_slice())
}

} // verus!
