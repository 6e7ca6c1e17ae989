//! Lists that ascend in a strict order: there is only one way to put given
//! items in such an order.

use vstd::prelude::*;

verus! {

/// Whether `before` names at most one of every two items as the earlier
/// one, and no item as earlier than itself.
pub open spec fn strict<T>(before: spec_fn(T, T) -> bool) -> bool {
    forall|x: T, y: T| !(#[trigger] before(x, y) && before(y, x))
}

/// Whether each item of `s` comes before all that follow it.
pub open spec fn ascending_by<T>(s: Seq<T>, before: spec_fn(T, T) -> bool) -> bool {
    forall|i: int, j: int| 0 <= i < j < s.len() ==> before(#[trigger] s[i], #[trigger] s[j])
}

/// Whether every item of `s` is an item of `other`.
pub open spec fn all_in<T>(s: Seq<T>, other: Seq<T>) -> bool {
    forall|k: int| 0 <= k < s.len() ==> other.contains(#[trigger] s[k])
}

/// Two ascending lists with the same items have the same length.
pub proof fn lemma_ascending_same_length<T>(s: Seq<T>, other: Seq<T>, before: spec_fn(T, T) -> bool)
    requires
        strict(before),
        ascending_by(s, before),
        ascending_by(other, before),
        all_in(s, other),
        all_in(other, s),
    ensures
        s.len() == other.len(),
    decreases s.len(),
{
    if s.len() == 0 {
        if other.len() > 0 {
            assert(s.contains(other[0]));
        }
    } else if other.len() == 0 {
        assert(other.contains(s[0]));
    } else {
        // the last item is the same in both lists
        let x = s.last();
        let y = other.last();
        let a = choose|a: int| 0 <= a < other.len() && other[a] == x;
        let b = choose|b: int| 0 <= b < s.len() && s[b] == y;
        assert(!(before(x, y) && before(y, x)));
        assert(!(before(x, x) && before(x, x)));
        if a < other.len() - 1 {
            assert(before(other[a], other[other.len() - 1]));
            if b < s.len() - 1 {
                assert(before(s[b], s[s.len() - 1]));
            }
        }
        assert(x == y);
        let head = s.drop_last();
        let other_head = other.drop_last();
        assert forall|k: int| 0 <= k < head.len() implies other_head.contains(#[trigger] head[k]) by {
            assert(head[k] == s[k]);
            let w = choose|w: int| 0 <= w < other.len() && other[w] == s[k];
            assert(before(s[k], s[s.len() - 1]));
            assert(!(before(s[k], x) && before(x, s[k])));
            assert(other_head[w] == head[k]);
        }
        assert forall|k: int| 0 <= k < other_head.len() implies head.contains(
            #[trigger] other_head[k],
        ) by {
            assert(other_head[k] == other[k]);
            let w = choose|w: int| 0 <= w < s.len() && s[w] == other[k];
            assert(before(other[k], other[other.len() - 1]));
            assert(!(before(other[k], x) && before(x, other[k])));
            assert(head[w] == other_head[k]);
        }
        assert forall|p: int, q: int| 0 <= p < q < head.len() implies before(
            #[trigger] head[p],
            #[trigger] head[q],
        ) by {
            assert(head[p] == s[p] && head[q] == s[q]);
        }
        assert forall|p: int, q: int| 0 <= p < q < other_head.len() implies before(
            #[trigger] other_head[p],
            #[trigger] other_head[q],
        ) by {
            assert(other_head[p] == other[p] && other_head[q] == other[q]);
        }
        lemma_ascending_same_length(head, other_head, before);
    }
}

/// Two ascending lists with the same items hold the same item at the place
/// `i`.
proof fn lemma_ascending_agree_at<T>(s: Seq<T>, other: Seq<T>, before: spec_fn(T, T) -> bool, i: int)
    requires
        strict(before),
        ascending_by(s, before),
        ascending_by(other, before),
        all_in(s, other),
        all_in(other, s),
        s.len() == other.len(),
        0 <= i < s.len(),
    ensures
        s[i] == other[i],
    decreases i,
{
    assert forall|k: int| 0 <= k < i implies s[k] == other[k] by {
        lemma_ascending_agree_at(s, other, before, k);
    }
    let a = choose|a: int| 0 <= a < other.len() && other[a] == s[i];
    let b = choose|b: int| 0 <= b < s.len() && s[b] == other[i];
    assert(!(before(s[i], other[i]) && before(other[i], s[i])));
    assert(!(before(s[i], s[i]) && before(s[i], s[i])));
    assert(!(before(other[i], other[i]) && before(other[i], other[i])));
    if a < i {
        assert(s[a] == other[a]);
        assert(before(s[a], s[i]));
    } else if b < i {
        assert(other[b] == s[b]);
        assert(before(other[b], other[i]));
    } else if a > i && b > i {
        assert(before(other[i], other[a]));
        assert(before(s[i], s[b]));
    }
}

/// There is one way to put items in a strict order: two ascending lists
/// with the same items are the same list.
pub proof fn lemma_ascending_is_unique<T>(s: Seq<T>, other: Seq<T>, before: spec_fn(T, T) -> bool)
    requires
        strict(before),
        ascending_by(s, before),
        ascending_by(other, before),
        all_in(s, other),
        all_in(other, s),
    ensures
        s == other,
{
    lemma_ascending_same_length(s, other, before);
    assert forall|i: int| 0 <= i < s.len() implies #[trigger] s[i] == other[i] by {
        lemma_ascending_agree_at(s, other, before, i);
    }
    assert(s =~= other);
}

} // verus!
