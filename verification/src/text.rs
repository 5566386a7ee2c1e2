//! Text as sequences of characters: white space, pieces between separators,
//! and decimal numbers.

use vstd::prelude::*;
use vstd::string::{StrSliceExecFns, StringExecFns};

verus! {

/// The characters of `s`.
pub fn chars_of(s: &str) -> (v: Vec<char>)
    ensures
        v@ == s@,
{
    broadcast use vstd::string::group_string_axioms;

    let mut v: Vec<char> = Vec::new();
    for c in it: s.chars()
        invariant
            it.seq() == s@,
            v@ == it.seq().take(it.index() as int),
    {
        let ghost before = v@;
        v.push(c);
        assert(it.seq().take(it.index() + 1) == before.push(c));
    }
    assert(s@.take(s@.len() as int) == s@);
    v
}

/// The characters of each of the strings.
pub open spec fn views(v: Seq<String>) -> Seq<Seq<char>> {
    Seq::new(v.len(), |i: int| v[i]@)
}

/// The text of `v[from..to]`, where `v` holds the characters of `source`.
pub fn text_of(source: &str, v: &Vec<char>, from: usize, to: usize) -> (r: String)
    requires
        v@ == source@,
        from <= to <= v.len(),
    ensures
        r@ == v@.subrange(from as int, to as int),
{
    source.substring_char(from, to).to_owned()
}

/// Whether `c` is white space: a character with the Unicode property
/// `White_Space`.
pub open spec fn is_space(c: char) -> bool {
    let u = c as u32;
    (0x09 <= u <= 0x0d) || u == 0x20 || u == 0x85 || u == 0xa0 || u == 0x1680 || (0x2000 <= u
        <= 0x200a) || u == 0x2028 || u == 0x2029 || u == 0x202f || u == 0x205f || u == 0x3000
}

/// Whether `c` is white space.
pub fn is_whitespace(c: char) -> (r: bool)
    ensures
        r == is_space(c),
{
    let u = c as u32;
    (0x09 <= u && u <= 0x0d) || u == 0x20 || u == 0x85 || u == 0xa0 || u == 0x1680 || (0x2000 <= u
        && u <= 0x200a) || u == 0x2028 || u == 0x2029 || u == 0x202f || u == 0x205f || u == 0x3000
}

/// The text without the run of `strip` characters at its start.
pub open spec fn without_leading(s: Seq<char>, strip: spec_fn(char) -> bool) -> Seq<char>
    decreases s.len(),
{
    if s.len() > 0 && strip(s[0]) {
        without_leading(s.drop_first(), strip)
    } else {
        s
    }
}

/// The text without the run of `strip` characters at its end.
pub open spec fn without_trailing(s: Seq<char>, strip: spec_fn(char) -> bool) -> Seq<char>
    decreases s.len(),
{
    if s.len() > 0 && strip(s.last()) {
        without_trailing(s.drop_last(), strip)
    } else {
        s
    }
}

/// The test for white space.
pub open spec fn space() -> spec_fn(char) -> bool {
    |c: char| is_space(c)
}

/// The test for the character `c`.
pub open spec fn only(c: char) -> spec_fn(char) -> bool {
    |d: char| d == c
}

/// The text without the white space at its start and at its end.
pub open spec fn trimmed(s: Seq<char>) -> Seq<char> {
    without_trailing(without_leading(s, space()), space())
}

/// The text without the characters `c` at its start.
pub open spec fn without_leading_char(s: Seq<char>, c: char) -> Seq<char> {
    without_leading(s, only(c))
}

/// The text without the characters `c` at its end.
pub open spec fn without_trailing_char(s: Seq<char>, c: char) -> Seq<char> {
    without_trailing(s, only(c))
}

/// Removing a run at the start of a piece of text that begins with
/// characters of the run.
pub proof fn lemma_without_leading(s: Seq<char>, strip: spec_fn(char) -> bool, k: int)
    requires
        0 <= k <= s.len(),
        forall|i: int| 0 <= i < k ==> strip(#[trigger] s[i]),
        k < s.len() ==> !strip(s[k]),
    ensures
        without_leading(s, strip) == s.skip(k),
    decreases k,
{
    if k == 0 {
        assert(s.skip(0) == s);
    } else {
        let rest = s.drop_first();
        assert forall|i: int| 0 <= i < k - 1 implies strip(#[trigger] rest[i]) by {
            assert(rest[i] == s[i + 1]);
        }
        if k - 1 < rest.len() {
            assert(rest[k - 1] == s[k]);
        }
        lemma_without_leading(rest, strip, k - 1);
        assert(rest.skip(k - 1) == s.skip(k));
    }
}

/// Removing a run at the end of a piece of text that ends with characters
/// of the run.
pub proof fn lemma_without_trailing(s: Seq<char>, strip: spec_fn(char) -> bool, k: int)
    requires
        0 <= k <= s.len(),
        forall|i: int| k <= i < s.len() ==> strip(#[trigger] s[i]),
        k > 0 ==> !strip(s[k - 1]),
    ensures
        without_trailing(s, strip) == s.take(k),
    decreases s.len() - k,
{
    if k == s.len() {
        assert(s.take(k) == s);
    } else {
        let rest = s.drop_last();
        assert forall|i: int| k <= i < rest.len() implies strip(#[trigger] rest[i]) by {
            assert(rest[i] == s[i]);
        }
        if k > 0 {
            assert(rest[k - 1] == s[k - 1]);
        }
        lemma_without_trailing(rest, strip, k);
        assert(rest.take(k) == s.take(k));
    }
}

/// The bounds of the part of `v[from..to]` that is left when the white space
/// at both ends is removed.
pub fn trim_range(v: &Vec<char>, from: usize, to: usize) -> (r: (usize, usize))
    requires
        from <= to <= v.len(),
    ensures
        from <= r.0 <= r.1 <= to,
        v@.subrange(r.0 as int, r.1 as int) == trimmed(v@.subrange(from as int, to as int)),
{
    let mut a = from;
    while a < to && is_whitespace(v[a])
        invariant
            from <= a <= to <= v.len(),
            forall|i: int| from <= i < a ==> is_space(#[trigger] v@[i]),
        decreases to - a,
    {
        a += 1;
    }
    let mut b = to;
    while b > a && is_whitespace(v[b - 1])
        invariant
            a <= b <= to <= v.len(),
            forall|i: int| b <= i < to ==> is_space(#[trigger] v@[i]),
        decreases b,
    {
        b -= 1;
    }
    proof {
        let s = v@.subrange(from as int, to as int);
        let strip = space();
        assert forall|i: int| 0 <= i < a - from implies strip(#[trigger] s[i]) by {
            assert(s[i] == v@[from + i]);
        }
        if a - from < s.len() {
            assert(s[a - from] == v@[a as int]);
        }
        lemma_without_leading(s, strip, a - from);
        let t = s.skip(a - from);
        assert(t == v@.subrange(a as int, to as int));
        assert forall|i: int| b - a <= i < t.len() implies strip(#[trigger] t[i]) by {
            assert(t[i] == v@[a + i]);
        }
        if b - a > 0 {
            assert(t[b - a - 1] == v@[b - 1]);
        }
        lemma_without_trailing(t, strip, b - a);
        assert(t.take(b - a) == v@.subrange(a as int, b as int));
    }
    (a, b)
}

/// The bounds of the part of `v[from..to]` that is left when the characters
/// `open` at its start and the characters `close` at its end are removed.
pub fn strip_range(v: &Vec<char>, from: usize, to: usize, open: char, close: char) -> (r: (
    usize,
    usize,
))
    requires
        from <= to <= v.len(),
    ensures
        from <= r.0 <= r.1 <= to,
        v@.subrange(r.0 as int, r.1 as int) == without_trailing_char(
            without_leading_char(v@.subrange(from as int, to as int), open),
            close,
        ),
{
    let mut a = from;
    while a < to && v[a] == open
        invariant
            from <= a <= to <= v.len(),
            forall|i: int| from <= i < a ==> #[trigger] v@[i] == open,
        decreases to - a,
    {
        a += 1;
    }
    let mut b = to;
    while b > a && v[b - 1] == close
        invariant
            a <= b <= to <= v.len(),
            forall|i: int| b <= i < to ==> #[trigger] v@[i] == close,
        decreases b,
    {
        b -= 1;
    }
    proof {
        let s = v@.subrange(from as int, to as int);
        let strip_open = only(open);
        let strip_close = only(close);
        assert forall|i: int| 0 <= i < a - from implies strip_open(#[trigger] s[i]) by {
            assert(s[i] == v@[from + i]);
        }
        if a - from < s.len() {
            assert(s[a - from] == v@[a as int]);
        }
        lemma_without_leading(s, strip_open, a - from);
        let t = s.skip(a - from);
        assert(t == v@.subrange(a as int, to as int));
        assert forall|i: int| b - a <= i < t.len() implies strip_close(#[trigger] t[i]) by {
            assert(t[i] == v@[a + i]);
        }
        if b - a > 0 {
            assert(t[b - a - 1] == v@[b - 1]);
        }
        lemma_without_trailing(t, strip_close, b - a);
        assert(t.take(b - a) == v@.subrange(a as int, b as int));
    }
    (a, b)
}

/// The index of the first `c` in the text, or the length of the text where
/// there is none.
pub open spec fn first_index(s: Seq<char>, c: char) -> int
    decreases s.len(),
{
    if s.len() == 0 || s[0] == c {
        0
    } else {
        1 + first_index(s.drop_first(), c)
    }
}

/// The first index is where the text has its first `c`.
pub proof fn lemma_first_index(s: Seq<char>, c: char, k: int)
    requires
        0 <= k <= s.len(),
        forall|i: int| 0 <= i < k ==> #[trigger] s[i] != c,
        k < s.len() ==> s[k] == c,
    ensures
        first_index(s, c) == k,
    decreases k,
{
    if k > 0 {
        let rest = s.drop_first();
        assert forall|i: int| 0 <= i < k - 1 implies #[trigger] rest[i] != c by {
            assert(rest[i] == s[i + 1]);
        }
        if k - 1 < rest.len() {
            assert(rest[k - 1] == s[k]);
        }
        lemma_first_index(rest, c, k - 1);
    }
}

/// The position of the first `c` in `v[from..to]`, or `to`.
pub fn find_char(v: &Vec<char>, from: usize, to: usize, c: char) -> (r: usize)
    requires
        from <= to <= v.len(),
    ensures
        from <= r <= to,
        r - from == first_index(v@.subrange(from as int, to as int), c),
        r < to ==> v@[r as int] == c,
{
    let mut i = from;
    while i < to && v[i] != c
        invariant
            from <= i <= to <= v.len(),
            forall|j: int| from <= j < i ==> #[trigger] v@[j] != c,
        decreases to - i,
    {
        i += 1;
    }
    proof {
        let s = v@.subrange(from as int, to as int);
        assert forall|j: int| 0 <= j < i - from implies #[trigger] s[j] != c by {
            assert(s[j] == v@[from + j]);
        }
        if i < to {
            assert(s[i - from] == v@[i as int]);
        }
        lemma_first_index(s, c, i - from);
    }
    i
}

/// The pieces of the text between the separators `sep`. A text without a
/// separator is one piece.
pub open spec fn pieces(s: Seq<char>, sep: char) -> Seq<Seq<char>>
    decreases s.len(),
{
    let i = first_index(s, sep);
    if i < 0 || i >= s.len() {
        seq![s]
    } else {
        seq![s.take(i)] + pieces(s.skip(i + 1), sep)
    }
}

/// The texts of the ranges `r` of `v`.
pub open spec fn texts(v: Seq<char>, r: Seq<(usize, usize)>) -> Seq<Seq<char>> {
    Seq::new(r.len(), |i: int| v.subrange(r[i].0 as int, r[i].1 as int))
}

/// Whether every range lies within `from..to`.
pub open spec fn ranges_within(r: Seq<(usize, usize)>, from: int, to: int) -> bool {
    forall|i: int| 0 <= i < r.len() ==> from <= (#[trigger] r[i]).0 <= r[i].1 <= to
}

/// The bounds of the pieces of `v[from..to]` between the separators `sep`.
pub fn split_ranges(v: &Vec<char>, from: usize, to: usize, sep: char) -> (r: Vec<(usize, usize)>)
    requires
        from <= to <= v.len(),
    ensures
        texts(v@, r@) == pieces(v@.subrange(from as int, to as int), sep),
        ranges_within(r@, from as int, to as int),
        r@.len() >= 1,
{
    let mut r: Vec<(usize, usize)> = Vec::new();
    let mut start = from;
    let ghost whole = pieces(v@.subrange(from as int, to as int), sep);
    assert(texts(v@, r@) == Seq::<Seq<char>>::empty());
    assert(Seq::<Seq<char>>::empty() + whole == whole);
    loop
        invariant_except_break
            from <= start <= to <= v.len(),
            whole == texts(v@, r@) + pieces(v@.subrange(start as int, to as int), sep),
            ranges_within(r@, from as int, to as int),
        ensures
            whole == texts(v@, r@),
            ranges_within(r@, from as int, to as int),
            r@.len() >= 1,
        decreases to - start,
    {
        let end = find_char(v, start, to, sep);
        let ghost before = texts(v@, r@);
        let ghost rest = v@.subrange(start as int, to as int);
        r.push((start, end));
        assert(texts(v@, r@) == before.push(v@.subrange(start as int, end as int)));
        assert(rest.take(end - start) == v@.subrange(start as int, end as int));
        if end >= to {
            assert(rest.take(end - start) == rest);
            assert(before + seq![rest] == before.push(rest));
            break ;
        }
        assert(rest.skip(end - start + 1) == v@.subrange(end + 1, to as int));
        assert(before + (seq![rest.take(end - start)] + pieces(
            rest.skip(end - start + 1),
            sep,
        )) == before.push(rest.take(end - start)) + pieces(rest.skip(end - start + 1), sep));
        start = end + 1;
    }
    r
}

/// The index of the first `a` that is followed by `b`, or the length of the
/// text where there is none.
pub open spec fn first_pair_index(s: Seq<char>, a: char, b: char) -> int
    decreases s.len(),
{
    if s.len() < 2 {
        s.len() as int
    } else if s[0] == a && s[1] == b {
        0
    } else {
        1 + first_pair_index(s.drop_first(), a, b)
    }
}

/// The first pair index is where the text has its first `a b`.
pub proof fn lemma_first_pair_index(s: Seq<char>, a: char, b: char, k: int)
    requires
        0 <= k <= s.len(),
        forall|i: int| 0 <= i < k && i + 1 < s.len() ==> !(#[trigger] s[i] == a && s[i + 1] == b),
        k < s.len() ==> k + 1 < s.len() && s[k] == a && s[k + 1] == b,
    ensures
        first_pair_index(s, a, b) == k,
    decreases s.len(),
{
    if s.len() >= 2 {
        if k == 0 {
        } else {
            let rest = s.drop_first();
            assert(!(s[0] == a && s[1] == b));
            assert forall|i: int| 0 <= i < k - 1 && i + 1 < rest.len() implies !(#[trigger] rest[i]
                == a && rest[i + 1] == b) by {
                assert(rest[i] == s[i + 1] && rest[i + 1] == s[i + 2]);
            }
            if k - 1 < rest.len() {
                assert(rest[k - 1] == s[k] && rest[k] == s[k + 1]);
            }
            lemma_first_pair_index(rest, a, b, k - 1);
        }
    } else if s.len() == 1 {
        assert(k == 1);
    }
}

/// The position of the first `a` followed by `b` in `v[from..to]`, or `to`.
pub fn find_pair(v: &Vec<char>, from: usize, to: usize, a: char, b: char) -> (r: usize)
    requires
        from <= to <= v.len(),
    ensures
        from <= r <= to,
        r < to ==> r + 2 <= to,
        r - from == first_pair_index(v@.subrange(from as int, to as int), a, b),
{
    let mut i = from;
    while i < to && !(i + 1 < to && v[i] == a && v[i + 1] == b)
        invariant
            from <= i <= to <= v.len(),
            forall|j: int| from <= j < i && j + 1 < to ==> !(#[trigger] v@[j] == a && v@[j + 1] == b),
        decreases to - i,
    {
        i += 1;
    }
    proof {
        let s = v@.subrange(from as int, to as int);
        assert forall|j: int| 0 <= j < i - from && j + 1 < s.len() implies !(#[trigger] s[j] == a
            && s[j + 1] == b) by {
            assert(s[j] == v@[from + j] && s[j + 1] == v@[from + j + 1]);
        }
        if i < to {
            assert(s[i - from] == v@[i as int] && s[i - from + 1] == v@[i + 1]);
        }
        lemma_first_pair_index(s, a, b, i - from);
    }
    i
}

/// Whether `pattern` occurs in the text.
pub open spec fn contains_text(s: Seq<char>, pattern: Seq<char>) -> bool {
    exists|i: int| 0 <= i && i + pattern.len() <= s.len() && #[trigger] s.subrange(
        i,
        i + pattern.len(),
    ) == pattern
}

/// Whether `pattern` occurs in `v[from..to]`.
pub fn contains(v: &Vec<char>, from: usize, to: usize, pattern: &Vec<char>) -> (r: bool)
    requires
        from <= to <= v.len(),
    ensures
        r == contains_text(v@.subrange(from as int, to as int), pattern@),
{
    let ghost s = v@.subrange(from as int, to as int);
    let n = pattern.len();
    if n > to - from {
        return false;
    }
    let mut i = from;
    while i <= to - n
        invariant
            from <= i,
            n <= to - from,
            i <= to - n + 1,
            to <= v.len(),
            n == pattern.len(),
            s == v@.subrange(from as int, to as int),
            forall|k: int| 0 <= k < i - from ==> #[trigger] s.subrange(k, k + n) != pattern@,
        decreases to - n + 1 - i,
    {
        let mut j: usize = 0;
        while j < n && v[i + j] == pattern[j]
            invariant
                j <= n,
                i + n <= to <= v.len(),
                n == pattern.len(),
                forall|k: int| 0 <= k < j ==> v@[i + k] == #[trigger] pattern@[k],
            decreases n - j,
        {
            j += 1;
        }
        if j == n {
            proof {
                let w = s.subrange(i - from, i - from + n);
                assert(w =~= pattern@) by {
                    assert forall|k: int| 0 <= k < n implies w[k] == pattern@[k] by {
                        assert(w[k] == v@[i + k]);
                    }
                }
            }
            return true;
        }
        proof {
            let w = s.subrange(i - from, i - from + n);
            assert(w[j as int] == v@[i + j]);
        }
        i += 1;
    }
    false
}

/// A line without the carriage return that may end it.
pub open spec fn without_return(s: Seq<char>) -> Seq<char> {
    if s.len() > 0 && s.last() == '\r' {
        s.drop_last()
    } else {
        s
    }
}

/// The lines of the text: what stands before each line feed, without a
/// carriage return at its end, and what stands after the last line feed
/// unless it is empty.
pub open spec fn lines(s: Seq<char>) -> Seq<Seq<char>>
    decreases s.len(),
{
    let i = first_index(s, '\n');
    if s.len() == 0 {
        Seq::empty()
    } else if i < 0 || i >= s.len() {
        seq![s]
    } else {
        seq![without_return(s.take(i))] + lines(s.skip(i + 1))
    }
}

/// The bounds of the lines of `v`.
pub fn line_ranges(v: &Vec<char>) -> (r: Vec<(usize, usize)>)
    ensures
        texts(v@, r@) == lines(v@),
        ranges_within(r@, 0, v@.len() as int),
{
    let mut r: Vec<(usize, usize)> = Vec::new();
    let mut start: usize = 0;
    let to = v.len();
    assert(texts(v@, r@) == Seq::<Seq<char>>::empty());
    assert(Seq::<Seq<char>>::empty() + lines(v@) == lines(v@));
    assert(v@.subrange(0, to as int) == v@);
    while start < to
        invariant
            start <= to == v.len(),
            lines(v@) == texts(v@, r@) + lines(v@.subrange(start as int, to as int)),
            ranges_within(r@, 0, to as int),
        decreases to - start,
    {
        let end = find_char(v, start, to, '\n');
        let ghost before = texts(v@, r@);
        let ghost rest = v@.subrange(start as int, to as int);
        assert(rest.take(end - start) == v@.subrange(start as int, end as int));
        if end >= to {
            r.push((start, end));
            assert(texts(v@, r@) == before.push(rest));
            assert(before + seq![rest] == before.push(rest));
            assert(lines(v@.subrange(to as int, to as int)) == Seq::<Seq<char>>::empty());
            assert(before.push(rest) + Seq::<Seq<char>>::empty() == before.push(rest));
            start = to;
        } else {
            let stop = if end > start && v[end - 1] == '\r' {
                (end - 1) as usize
            } else {
                end
            };
            let ghost line = rest.take(end - start);
            assert(without_return(line) == v@.subrange(start as int, stop as int)) by {
                if end > start {
                    assert(line.last() == v@[end - 1]);
                    assert(line.drop_last() == v@.subrange(start as int, end - 1));
                }
            }
            r.push((start, stop));
            assert(texts(v@, r@) == before.push(without_return(line)));
            assert(rest.skip(end - start + 1) == v@.subrange(end + 1, to as int));
            assert(before + (seq![without_return(line)] + lines(rest.skip(end - start + 1)))
                == before.push(without_return(line)) + lines(rest.skip(end - start + 1)));
            start = end + 1;
        }
    }
    assert(lines(v@.subrange(to as int, to as int)) == Seq::<Seq<char>>::empty());
    assert(texts(v@, r@) + Seq::<Seq<char>>::empty() == texts(v@, r@));
    r
}

/// Whether `c` is one of the digits `0` to `9`.
pub open spec fn is_digit(c: char) -> bool {
    '0' <= c <= '9'
}

/// The value of a digit.
pub open spec fn digit_value(c: char) -> int {
    c as u32 - '0' as u32
}

/// Whether the text is made of digits only.
pub open spec fn all_digits(s: Seq<char>) -> bool {
    forall|i: int| 0 <= i < s.len() ==> is_digit(#[trigger] s[i])
}

/// The number that a text of digits writes in base ten.
pub open spec fn digits_value(s: Seq<char>) -> int
    decreases s.len(),
{
    if s.len() == 0 {
        0
    } else {
        10 * digits_value(s.drop_last()) + digit_value(s.last())
    }
}

/// The integer that the text writes, if it writes one that fits `i64`: an
/// optional sign `+` or `-`, then one digit or more.
pub open spec fn parsed_i64(s: Seq<char>) -> Option<i64> {
    let negative = s.len() > 0 && s[0] == '-';
    let digits = if s.len() > 0 && (s[0] == '-' || s[0] == '+') {
        s.drop_first()
    } else {
        s
    };
    signed_value(negative, digits)
}

/// The integer that the digits write after a sign, if they write one that
/// fits `i64`.
pub open spec fn signed_value(negative: bool, digits: Seq<char>) -> Option<i64> {
    let value = if negative {
        -digits_value(digits)
    } else {
        digits_value(digits)
    };
    if digits.len() > 0 && all_digits(digits) && i64::MIN <= value <= i64::MAX {
        Some(value as i64)
    } else {
        None
    }
}

/// A text of digits writes a number that is at least the number that any
/// of its beginnings writes.
pub proof fn lemma_digits_value_grows(s: Seq<char>, k: int)
    requires
        all_digits(s),
        0 <= k <= s.len(),
    ensures
        0 <= digits_value(s.take(k)) <= digits_value(s),
    decreases s.len(),
{
    if s.len() == 0 {
        assert(s.take(k) == s);
    } else if k == s.len() {
        assert(s.take(k) == s);
        lemma_digits_value_grows(s.drop_last(), k - 1);
        assert(s.drop_last().take(k - 1) == s.take(k - 1));
    } else {
        assert(all_digits(s.drop_last()));
        lemma_digits_value_grows(s.drop_last(), k);
        assert(s.drop_last().take(k) == s.take(k));
        lemma_digits_value_grows(s.drop_last(), s.len() - 1);
        assert(s.drop_last().take(s.len() - 1) == s.drop_last());
    }
}

/// Reads the integer that `v[from..to]` writes.
pub fn parse_i64(v: &Vec<char>, from: usize, to: usize) -> (r: Option<i64>)
    requires
        from <= to <= v.len(),
    ensures
        r == parsed_i64(v@.subrange(from as int, to as int)),
{
    let ghost s = v@.subrange(from as int, to as int);
    let negative = from < to && v[from] == '-';
    let start = if from < to && (v[from] == '-' || v[from] == '+') {
        from + 1
    } else {
        from
    };
    let ghost digits = v@.subrange(start as int, to as int);
    proof {
        if from < to {
            assert(s[0] == v@[from as int]);
        }
        if start > from {
            assert(s.drop_first() == digits);
        } else {
            assert(s == digits);
        }
    }
    assert(parsed_i64(s) == signed_value(negative, digits));
    if start == to {
        return None;
    }
    let mut acc: i128 = 0;
    let mut i = start;
    assert(digits.take(0) == Seq::<char>::empty());
    while i < to
        invariant
            start <= i <= to <= v.len(),
            digits == v@.subrange(start as int, to as int),
            parsed_i64(v@.subrange(from as int, to as int)) == signed_value(negative, digits),
            all_digits(digits.take(i - start)),
            acc == digits_value(digits.take(i - start)),
            0 <= acc <= 0x8000_0000_0000_0000,
        decreases to - i,
    {
        let c = v[i];
        let ghost next = digits.take(i - start + 1);
        assert(next.drop_last() == digits.take(i - start));
        assert(next.last() == c);
        if !('0' <= c && c <= '9') {
            assert(digits[i - start] == c);
            assert(!is_digit(digits[i - start]));
            return None;
        }
        assert(all_digits(next)) by {
            assert forall|k: int| 0 <= k < next.len() implies is_digit(#[trigger] next[k]) by {
                if k < next.len() - 1 {
                    assert(next[k] == digits.take(i - start)[k]);
                }
            }
        }
        let d = (c as u32 - '0' as u32) as i128;
        assert(d == digit_value(c));
        acc = acc * 10 + d;
        assert(acc == digits_value(next));
        if acc > 0x8000_0000_0000_0000 {
            proof {
                if all_digits(digits) {
                    lemma_digits_value_grows(digits, i - start + 1);
                }
            }
            return None;
        }
        i += 1;
    }
    assert(digits.take(i - start) == digits);
    if negative {
        Some((-acc) as i64)
    } else if acc <= i64::MAX as i128 {
        Some(acc as i64)
    } else {
        None
    }
}

/// The character of a digit value.
pub open spec fn digit_char(d: int) -> char {
    if d == 0 {
        '0'
    } else if d == 1 {
        '1'
    } else if d == 2 {
        '2'
    } else if d == 3 {
        '3'
    } else if d == 4 {
        '4'
    } else if d == 5 {
        '5'
    } else if d == 6 {
        '6'
    } else if d == 7 {
        '7'
    } else if d == 8 {
        '8'
    } else {
        '9'
    }
}

/// The digits of a natural number in base ten, without leading zeros.
pub open spec fn digits_of(n: nat) -> Seq<char>
    decreases n,
{
    if n < 10 {
        seq![digit_char(n as int)]
    } else {
        digits_of(n / 10).push(digit_char((n % 10) as int))
    }
}

/// The integer in base ten, with `-` before a negative one.
pub open spec fn decimal_text(x: int) -> Seq<char> {
    if x < 0 {
        seq!['-'] + digits_of((-x) as nat)
    } else {
        digits_of(x as nat)
    }
}

/// The text of one digit.
fn digit_str(d: u8) -> (r: &'static str)
    requires
        d < 10,
    ensures
        r@ == seq![digit_char(d as int)],
{
    proof {
        reveal_strlit("0");
        reveal_strlit("1");
        reveal_strlit("2");
        reveal_strlit("3");
        reveal_strlit("4");
        reveal_strlit("5");
        reveal_strlit("6");
        reveal_strlit("7");
        reveal_strlit("8");
        reveal_strlit("9");
    }
    let r = match d {
        0 => "0",
        1 => "1",
        2 => "2",
        3 => "3",
        4 => "4",
        5 => "5",
        6 => "6",
        7 => "7",
        8 => "8",
        _ => "9",
    };
    assert(r@ =~= seq![digit_char(d as int)]);
    r
}

/// Writes `x` in base ten at the end of `out`.
pub fn push_decimal(out: &mut String, x: i64)
    ensures
        final(out)@ == old(out)@ + decimal_text(x as int),
{
    let ghost start = out@;
    let mut n: i128 = x as i128;
    if x < 0 {
        proof {
            reveal_strlit("-");
        }
        out.append("-");
        n = -n;
    }
    let ghost prefix = out@;
    assert(x < 0 ==> prefix =~= start + seq!['-']);
    // The digits, the last one first.
    let mut rev: Vec<u8> = Vec::new();
    let ghost total = n as nat;
    rev.push((n % 10) as u8);
    n = n / 10;
    proof {
        lemma_rest_digits_push(Seq::<u8>::empty(), (total % 10) as u8);
        assert(rev@ == Seq::<u8>::empty().push((total % 10) as u8));
        assert(rest_digits(Seq::<u8>::empty()) == Seq::<char>::empty());
        assert(rest_digits(rev@) =~= seq![digit_char((total % 10) as int)]);
        if total >= 10 {
            assert(digits_of(total) =~= digits_of(total / 10) + rest_digits(rev@));
        }
    }
    while n > 0
        invariant
            0 <= n,
            rev@.len() >= 1,
            forall|i: int| 0 <= i < rev@.len() ==> #[trigger] rev@[i] < 10,
            digits_of(total) == if n == 0 {
                rest_digits(rev@)
            } else {
                digits_of(n as nat) + rest_digits(rev@)
            },
        decreases n,
    {
        let ghost before = rev@;
        let ghost m = n as nat;
        rev.push((n % 10) as u8);
        n = n / 10;
        proof {
            lemma_rest_digits_push(before, (m % 10) as u8);
            if m < 10 {
                assert(digits_of(m) == seq![digit_char(m as int)]);
            } else {
                assert(digits_of(m) == digits_of(m / 10).push(digit_char((m % 10) as int)));
                assert(digits_of(m / 10).push(digit_char((m % 10) as int)) + rest_digits(before)
                    =~= digits_of(m / 10) + (seq![digit_char((m % 10) as int)] + rest_digits(
                    before,
                )));
            }
        }
    }
    let mut i = rev.len();
    assert(rev@.take(i as int) == rev@);
    assert(out@ == prefix);
    while i > 0
        invariant
            i <= rev@.len(),
            forall|k: int| 0 <= k < rev@.len() ==> #[trigger] rev@[k] < 10,
            out@ + rest_digits(rev@.take(i as int)) == prefix + rest_digits(rev@),
        decreases i,
    {
        i -= 1;
        let ghost before = out@;
        out.append(digit_str(rev[i]));
        proof {
            let t = rev@.take(i + 1);
            assert(t.drop_last() == rev@.take(i as int));
            assert(t.last() == rev@[i as int]);
            assert(rest_digits(t) == seq![digit_char(rev@[i as int] as int)] + rest_digits(
                rev@.take(i as int),
            ));
            assert((before + seq![digit_char(rev@[i as int] as int)]) + rest_digits(
                rev@.take(i as int),
            ) =~= before + (seq![digit_char(rev@[i as int] as int)] + rest_digits(
                rev@.take(i as int),
            )));
        }
    }
    assert(rev@.take(0) == Seq::<u8>::empty());
    assert(out@ + Seq::<char>::empty() == out@);
    assert(x >= 0 ==> prefix == start);
    assert(x < 0 ==> (start + seq!['-']) + digits_of(total) =~= start + (seq!['-'] + digits_of(
        total,
    )));
}

/// The characters of digit values that are given last digit first.
pub open spec fn rest_digits(rev: Seq<u8>) -> Seq<char>
    decreases rev.len(),
{
    if rev.len() == 0 {
        Seq::empty()
    } else {
        seq![digit_char(rev.last() as int)] + rest_digits(rev.drop_last())
    }
}

/// One more digit value at the end is one more character at the start.
pub proof fn lemma_rest_digits_push(rev: Seq<u8>, d: u8)
    ensures
        rest_digits(rev.push(d)) == seq![digit_char(d as int)] + rest_digits(rev),
{
    assert(rev.push(d).drop_last() == rev);
}

} // verus!
