//! Helpers on text. Every string is modelled by its sequence of characters.

use vstd::prelude::*;
use vstd::string::*;

verus! {

/// `String::push` of the standard library appends one character to the end of
/// the string and leaves the rest as it was.
pub assume_specification[ String::push ](s: &mut String, c: char)
    ensures
        final(s)@ == old(s)@.push(c),
;

/// The texts of a sequence of strings.
pub open spec fn texts(parts: Seq<String>) -> Seq<Seq<char>> {
    parts.map_values(|s: String| s@)
}

/// The pieces of `s` between the occurrences of `sep`: one more piece than
/// there are separators, so the empty text splits into one empty piece.
pub open spec fn split_text(s: Seq<char>, sep: char) -> Seq<Seq<char>>
    decreases s.len(),
{
    if s.len() == 0 {
        seq![Seq::<char>::empty()]
    } else {
        let before = split_text(s.drop_last(), sep);
        if s.last() == sep {
            before.push(Seq::<char>::empty())
        } else {
            before.update(before.len() - 1, before.last().push(s.last()))
        }
    }
}

/// The parts in order, with `sep` between each two neighbours.
pub open spec fn join_text(parts: Seq<Seq<char>>, sep: Seq<char>) -> Seq<char>
    decreases parts.len(),
{
    if parts.len() == 0 {
        Seq::<char>::empty()
    } else if parts.len() == 1 {
        parts[0]
    } else {
        join_text(parts.drop_last(), sep) + sep + parts.last()
    }
}

/// Whether `a` comes strictly before `b` in the order of `String`: at the
/// first place where they differ `a` has the smaller character, or `a` is a
/// proper beginning of `b`.
pub open spec fn text_lt(a: Seq<char>, b: Seq<char>) -> bool {
    exists|k: int| #[trigger] text_lt_at(a, b, k)
}

/// `a` and `b` agree on their first `k` characters and `a` is the smaller
/// one right after them.
pub open spec fn text_lt_at(a: Seq<char>, b: Seq<char>, k: int) -> bool {
    &&& 0 <= k <= a.len()
    &&& k < b.len()
    &&& a.take(k) == b.take(k)
    &&& (k == a.len() || a[k] < b[k])
}

/// Whether `b` is the byte of a decimal digit.
pub open spec fn is_digit(b: u8) -> bool {
    48 <= b <= 57
}

/// Whether every byte of `d` is a decimal digit.
pub open spec fn all_digits(d: Seq<u8>) -> bool {
    forall|i: int| 0 <= i < d.len() ==> is_digit(#[trigger] d[i])
}

/// The number that the decimal digits `d` write.
pub open spec fn digits_value(d: Seq<u8>) -> int
    decreases d.len(),
{
    if d.len() == 0 {
        0
    } else {
        digits_value(d.drop_last()) * 10 + (d.last() - 48)
    }
}

/// The number that `t` writes in base ten, read as the standard library
/// reads an `i32`: an optional `+` or `-`, then at least one digit and
/// nothing else, the value within the range of `i32`.
pub open spec fn signed_decimal(t: Seq<u8>) -> Option<int> {
    let signed = t.len() > 0 && (t[0] == 43 || t[0] == 45);
    let digits = if signed {
        t.skip(1)
    } else {
        t
    };
    let value = if signed && t[0] == 45 {
        -digits_value(digits)
    } else {
        digits_value(digits)
    };
    if digits.len() > 0 && all_digits(digits) && i32::MIN <= value <= i32::MAX {
        Some(value)
    } else {
        None
    }
}

/// The character of the decimal digit `d`.
pub open spec fn digit_char(d: int) -> char {
    ((48 + d) as u8) as char
}

/// The decimal digits of `n`, without leading zeros.
pub open spec fn decimal_digits(n: nat) -> Seq<char>
    decreases n,
{
    if n < 10 {
        seq![digit_char(n as int)]
    } else {
        decimal_digits(n / 10).push(digit_char((n % 10) as int))
    }
}

/// `v` in base ten, filled with zeros after the sign up to `width`
/// characters; longer where the number needs more.
pub open spec fn zero_padded(v: int, width: nat) -> Seq<char> {
    let digits = decimal_digits((if v < 0 {
        -v
    } else {
        v
    }) as nat);
    let sign = if v < 0 {
        seq!['-']
    } else {
        Seq::<char>::empty()
    };
    let fill = if sign.len() + digits.len() < width {
        width - sign.len() - digits.len()
    } else {
        0
    };
    sign + Seq::new(fill as nat, |i: int| '0') + digits
}

/// Ten to the power `n`.
pub open spec fn pow10(n: nat) -> int
    decreases n,
{
    if n == 0 {
        1
    } else {
        10 * pow10((n - 1) as nat)
    }
}

/// Nine digits stay below the range of `i32`.
pub proof fn lemma_pow10_bounds(n: nat)
    requires
        n <= 9,
    ensures
        1 <= pow10(n) <= 1_000_000_000,
        n < 9 ==> pow10(n) <= 100_000_000,
        pow10(n + 1) == 10 * pow10(n),
{
    reveal_with_fuel(pow10, 11);
}

/// Of two texts that agree on their first `k` characters, one comes before
/// the other or they are the same text.
proof fn lemma_text_order_from(a: Seq<char>, b: Seq<char>, k: int)
    requires
        0 <= k <= a.len(),
        k <= b.len(),
        a.take(k) == b.take(k),
    ensures
        a == b || text_lt(a, b) || text_lt(b, a),
    decreases a.len() - k,
{
    if k == a.len() {
        if k == b.len() {
            assert(a.take(k) == a);
            assert(b.take(k) == b);
        } else {
            assert(text_lt_at(a, b, k));
        }
    } else if k == b.len() {
        assert(text_lt_at(b, a, k));
    } else if a[k] != b[k] {
        if a[k] < b[k] {
            assert(text_lt_at(a, b, k));
        } else {
            assert(text_lt_at(b, a, k));
        }
    } else {
        assert(a.take(k + 1) == a.take(k).push(a[k]));
        assert(b.take(k + 1) == b.take(k).push(b[k]));
        lemma_text_order_from(a, b, k + 1);
    }
}

/// The order of texts is total: of two different texts one comes before the
/// other.
pub proof fn lemma_text_order_total(a: Seq<char>, b: Seq<char>)
    ensures
        a == b || text_lt(a, b) || text_lt(b, a),
{
    assert(a.take(0) == b.take(0));
    lemma_text_order_from(a, b, 0);
}

/// No text comes before itself, and of two texts at most one comes before
/// the other.
pub proof fn lemma_text_order_strict(a: Seq<char>, b: Seq<char>)
    ensures
        !(text_lt(a, b) && text_lt(b, a)),
        !text_lt(a, a),
{
    if text_lt(a, b) && text_lt(b, a) {
        let k = choose|k: int| text_lt_at(a, b, k);
        let m = choose|m: int| text_lt_at(b, a, m);
        if k < m {
            assert(b.take(m)[k] == a.take(m)[k]);
        } else if m < k {
            assert(a.take(k)[m] == b.take(k)[m]);
        }
    }
    if text_lt(a, a) {
        let k = choose|k: int| text_lt_at(a, a, k);
    }
}

/// The order of texts is transitive.
pub proof fn lemma_text_order_transitive(a: Seq<char>, b: Seq<char>, c: Seq<char>)
    requires
        text_lt(a, b),
        text_lt(b, c),
    ensures
        text_lt(a, c),
{
    let k = choose|k: int| text_lt_at(a, b, k);
    let m = choose|m: int| text_lt_at(b, c, m);
    let n = if k <= m {
        k
    } else {
        m
    };
    assert(a.take(n) == a.take(k).take(n));
    assert(b.take(n) == b.take(k).take(n));
    assert(b.take(n) == b.take(m).take(n));
    assert(c.take(n) == c.take(m).take(n));
    if k < m {
        assert(b.take(m)[k] == c.take(m)[k]);
    } else if m < k {
        assert(a.take(k)[m] == b.take(k)[m]);
    }
    assert(text_lt_at(a, c, n));
}

/// A split always yields at least one piece.
pub proof fn lemma_split_nonempty(s: Seq<char>, sep: char)
    ensures
        split_text(s, sep).len() >= 1,
    decreases s.len(),
{
    if s.len() > 0 {
        lemma_split_nonempty(s.drop_last(), sep);
    }
}

/// Joining the pieces of a split with the separator gives the text back, and
/// no piece holds the separator.
pub proof fn lemma_join_split(s: Seq<char>, sep: char)
    ensures
        join_text(split_text(s, sep), seq![sep]) == s,
        forall|i: int, j: int|
            0 <= i < split_text(s, sep).len() && 0 <= j < split_text(s, sep)[i].len()
                ==> split_text(s, sep)[i][j] != sep,
    decreases s.len(),
{
    if s.len() > 0 {
        let head = s.drop_last();
        lemma_join_split(head, sep);
        lemma_split_nonempty(head, sep);
        let before = split_text(head, sep);
        let all = split_text(s, sep);
        if s.last() == sep {
            assert(all.drop_last() == before);
            assert(join_text(all, seq![sep]) == head + seq![sep] + Seq::<char>::empty());
            assert(head + seq![sep] + Seq::<char>::empty() == s);
        } else {
            let piece = before.last().push(s.last());
            if before.len() == 1 {
                assert(join_text(before, seq![sep]) == before[0]);
                assert(all[0] == piece);
                assert(piece == s);
            } else {
                assert(all.drop_last() == before.drop_last());
                assert(join_text(all, seq![sep]) == join_text(before.drop_last(), seq![sep])
                    + seq![sep] + piece);
                assert(join_text(before, seq![sep]) == join_text(before.drop_last(), seq![sep])
                    + seq![sep] + before.last());
                assert(join_text(before.drop_last(), seq![sep]) + seq![sep] + piece == (
                join_text(before.drop_last(), seq![sep]) + seq![sep] + before.last()).push(
                    s.last(),
                ));
                assert(head.push(s.last()) == s);
            }
        }
    }
}

/// The characters of `s`, in order.
pub fn chars_of(s: &str) -> (out: Vec<char>)
    ensures
        out@ == s@,
{
    let mut out: Vec<char> = Vec::new();
    for c in it: s.chars()
        invariant
            it.seq() == s@,
            out@ == it.seq().take(it.index()),
    {
        out.push(c);
    }
    out
}

/// Whether two strings hold the same characters.
pub fn same_text(a: &str, b: &str) -> (same: bool)
    ensures
        same == (a@ == b@),
{
    let x = a.to_owned();
    let y = b.to_owned();
    x == y
}

/// Splits `s` at every occurrence of `sep`.
pub fn split(s: &str, sep: char) -> (parts: Vec<String>)
    ensures
        texts(parts@) == split_text(s@, sep),
        parts@.len() >= 1,
{
    let mut parts: Vec<String> = Vec::new();
    let mut current = String::new();
    for c in it: s.chars()
        invariant
            it.seq() == s@,
            texts(parts@).push(current@) == split_text(s@.take(it.index()), sep),
    {
        let ghost seen = s@.take(it.index());
        let ghost next = s@.take(it.index() + 1);
        assert(next.drop_last() == seen);
        assert(next.last() == c);
        let ghost before = texts(parts@).push(current@);
        if c == sep {
            parts.push(current);
            current = String::new();
            assert(texts(parts@).push(current@) == before.push(Seq::<char>::empty()));
        } else {
            current.push(c);
            assert(texts(parts@).push(current@) == before.update(
                before.len() - 1,
                before.last().push(c),
            ));
        }
    }
    assert(s@.take(s@.len() as int) == s@);
    let ghost before = texts(parts@).push(current@);
    parts.push(current);
    assert(texts(parts@) == before);
    parts
}

/// Joins the parts with `sep` between each two neighbours.
pub fn join(parts: &Vec<String>, sep: &str) -> (out: String)
    ensures
        out@ == join_text(texts(parts@), sep@),
{
    let mut out = String::new();
    let mut i: usize = 0;
    while i < parts.len()
        invariant
            i <= parts.len(),
            out@ == join_text(texts(parts@).take(i as int), sep@),
        decreases parts.len() - i,
    {
        let ghost done = texts(parts@).take(i as int);
        let ghost more = texts(parts@).take(i + 1);
        assert(more.drop_last() == done);
        assert(more.last() == parts@[i as int]@);
        if i > 0 {
            out.append(sep);
        }
        out.append(parts[i].as_str());
        assert(out@ == join_text(more, sep@)) by {
            if i == 0 {
                assert(done.len() == 0);
                assert(out@ == parts@[0]@);
            }
        }
        i += 1;
    }
    assert(texts(parts@).take(parts@.len() as int) == texts(parts@));
    out
}

/// Whether `a` comes strictly before `b` in the order of `String`.
pub fn text_before(a: &str, b: &str) -> (before: bool)
    ensures
        before == text_lt(a@, b@),
{
    let x = chars_of(a);
    let y = chars_of(b);
    let mut i: usize = 0;
    while i < x.len() && i < y.len()
        invariant
            x@ == a@,
            y@ == b@,
            i <= x.len(),
            i <= y.len(),
            x@.take(i as int) == y@.take(i as int),
        decreases x.len() - i,
    {
        if x[i] != y[i] {
            let before = x[i] < y[i];
            proof {
                if before {
                    assert(text_lt_at(a@, b@, i as int));
                } else {
                    assert forall|k: int| !text_lt_at(a@, b@, k) by {
                        if text_lt_at(a@, b@, k) {
                            if k < i {
                                assert(x@.take(i as int)[k] == y@.take(i as int)[k]);
                            } else if k > i {
                                assert(a@.take(k)[i as int] == b@.take(k)[i as int]);
                            }
                        }
                    }
                }
            }
            return before;
        }
        assert(x@.take(i + 1) == x@.take(i as int).push(x@[i as int]));
        assert(y@.take(i + 1) == y@.take(i as int).push(y@[i as int]));
        i += 1;
    }
    let before = x.len() < y.len();
    proof {
        if before {
            assert(text_lt_at(a@, b@, i as int));
        } else {
            assert(y@.take(i as int) == y@);
            assert forall|k: int| !text_lt_at(a@, b@, k) by {
                if text_lt_at(a@, b@, k) {
                    assert(x@.take(i as int)[k] == y@.take(i as int)[k]);
                }
            }
        }
    }
    before
}

/// Reads the bytes from `from` up to `to` as a number in base ten.
pub fn read_decimal(bytes: &[u8], from: usize, to: usize) -> (value: Option<i32>)
    requires
        from <= to <= bytes@.len(),
        to - from <= 9,
    ensures
        match value {
            Some(v) => signed_decimal(bytes@.subrange(from as int, to as int)) == Some(v as int),
            None => signed_decimal(bytes@.subrange(from as int, to as int)) is None,
        },
{
    let ghost t = bytes@.subrange(from as int, to as int);
    if from == to {
        return None;
    }
    let signed = bytes[from] == 43 || bytes[from] == 45;
    let negative = bytes[from] == 45;
    let start = if signed {
        from + 1
    } else {
        from
    };
    let ghost digits = if signed {
        t.skip(1)
    } else {
        t
    };
    assert(t[0] == bytes@[from as int]);
    assert(digits == bytes@.subrange(start as int, to as int));
    if start == to {
        return None;
    }
    let mut total: i32 = 0;
    let mut i: usize = start;
    while i < to
        invariant
            start <= i <= to <= bytes@.len(),
            start < to,
            to - start <= 9,
            t == bytes@.subrange(from as int, to as int),
            signed == (t.len() > 0 && (t[0] == 43 || t[0] == 45)),
            digits == (if signed {
                t.skip(1)
            } else {
                t
            }),
            digits == bytes@.subrange(start as int, to as int),
            all_digits(digits.take(i - start)),
            total == digits_value(digits.take(i - start)),
            0 <= total < pow10((i - start) as nat),
        decreases to - i,
    {
        let b = bytes[i];
        assert(digits[i - start] == b);
        if b < 48 || b > 57 {
            assert(!all_digits(digits));
            return None;
        }
        let ghost more = digits.take(i - start + 1);
        assert(more.drop_last() == digits.take(i - start));
        assert(more.last() == b);
        proof {
            lemma_pow10_bounds((i - start) as nat);
        }
        total = total * 10 + (b - 48) as i32;
        i += 1;
    }
    assert(digits.take(to - start) == digits);
    proof {
        lemma_pow10_bounds((to - start) as nat);
    }
    if negative {
        Some(-total)
    } else {
        Some(total)
    }
}

/// Writes `v` in base ten, filled with zeros up to `width` characters.
pub fn pad_decimal(v: i32, width: usize) -> (out: String)
    ensures
        out@ == zero_padded(v as int, width as nat),
{
    let magnitude: u64 = if v < 0 {
        (-(v as i64)) as u64
    } else {
        v as u64
    };
    let mut digits: Vec<char> = Vec::new();
    let mut rest: u64 = magnitude;
    while rest >= 10
        invariant
            decimal_digits(magnitude as nat) == decimal_digits(rest as nat) + digits@,
        decreases rest,
    {
        let d = (rest % 10) as u8;
        digits.insert(0, (48u8 + d) as char);
        assert(decimal_digits(rest as nat) == decimal_digits((rest / 10) as nat).push(
            digit_char((rest % 10) as int),
        ));
        rest = rest / 10;
    }
    digits.insert(0, (48u8 + rest as u8) as char);
    assert(digits@ == decimal_digits(magnitude as nat));
    let mut out = String::new();
    let mut room: usize = if width > digits.len() {
        width - digits.len()
    } else {
        0
    };
    if v < 0 {
        out.push('-');
        room = if room > 0 {
            room - 1
        } else {
            0
        };
    }
    let ghost sign = out@;
    let mut filled: usize = 0;
    while filled < room
        invariant
            filled <= room,
            out@ == sign + Seq::new(filled as nat, |i: int| '0'),
        decreases room - filled,
    {
        out.push('0');
        filled = filled + 1;
    }
    let ghost head = out@;
    let mut i: usize = 0;
    while i < digits.len()
        invariant
            i <= digits.len(),
            out@ == head + digits@.take(i as int),
        decreases digits.len() - i,
    {
        out.push(digits[i]);
        assert(digits@.take(i + 1) == digits@.take(i as int).push(digits@[i as int]));
        i += 1;
    }
    assert(digits@.take(digits@.len() as int) == digits@);
    out
}

} // verus!
