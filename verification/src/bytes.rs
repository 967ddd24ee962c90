//! Byte-level text helpers: case folding, whitespace scanning, trimming and
//! line splitting, each with its mathematical definition.

use vstd::prelude::*;

verus! {

/// The line terminator.
pub const NEWLINE: u8 = 10;

/// Blank, tab and carriage return separate words inside a line.
pub open spec fn is_space(b: u8) -> bool {
    b == 32 || b == 9 || b == 13
}

/// The lower-case form of an ASCII letter; every other byte is itself.
pub open spec fn lower(b: u8) -> u8 {
    if 65 <= b && b <= 90 {
        (b + 32) as u8
    } else {
        b
    }
}

/// A byte sequence with every ASCII capital folded to lower case.
pub open spec fn lower_seq(s: Seq<u8>) -> Seq<u8> {
    Seq::new(s.len(), |i: int| lower(s[i]))
}

/// Number of whitespace bytes at the front of `s`.
pub open spec fn leading_spaces(s: Seq<u8>) -> int
    decreases s.len(),
{
    if s.len() == 0 || !is_space(s[0]) {
        0
    } else {
        1 + leading_spaces(s.skip(1))
    }
}

/// Number of whitespace bytes at the back of `s`.
pub open spec fn trailing_spaces(s: Seq<u8>) -> int
    decreases s.len(),
{
    if s.len() == 0 || !is_space(s.last()) {
        0
    } else {
        1 + trailing_spaces(s.drop_last())
    }
}

/// Length of the first word of `s`: the bytes before its first whitespace.
pub open spec fn word_len(s: Seq<u8>) -> int
    decreases s.len(),
{
    if s.len() == 0 || is_space(s[0]) {
        0
    } else {
        1 + word_len(s.skip(1))
    }
}

/// Length of the first line of `s`: the bytes before its first newline.
pub open spec fn line_len(s: Seq<u8>) -> int
    decreases s.len(),
{
    if s.len() == 0 || s[0] == NEWLINE {
        0
    } else {
        1 + line_len(s.skip(1))
    }
}

/// `s` without its leading whitespace.
pub open spec fn trim_start(s: Seq<u8>) -> Seq<u8> {
    s.skip(leading_spaces(s))
}

/// `s` without its trailing whitespace.
pub open spec fn trim_end(s: Seq<u8>) -> Seq<u8> {
    s.take(s.len() - trailing_spaces(s))
}

/// `s` without whitespace at either end.
pub open spec fn trim(s: Seq<u8>) -> Seq<u8> {
    trim_end(trim_start(s))
}

/// The lines of a text. A newline ends a line; a final line needs none, and
/// a text that ends in a newline has no empty line after it.
pub open spec fn lines(s: Seq<u8>) -> Seq<Seq<u8>>
    decreases s.len(),
{
    if s.len() == 0 {
        Seq::empty()
    } else {
        let k = line_len(s);
        if 0 <= k < s.len() {
            seq![s.take(k)] + lines(s.skip(k + 1))
        } else {
            seq![s]
        }
    }
}

pub proof fn lemma_leading_spaces(s: Seq<u8>)
    ensures
        0 <= leading_spaces(s) <= s.len(),
        forall|j: int| 0 <= j < leading_spaces(s) ==> is_space(#[trigger] s[j]),
        leading_spaces(s) < s.len() ==> !is_space(s[leading_spaces(s)]),
    decreases s.len(),
{
    if s.len() != 0 && is_space(s[0]) {
        let t = s.skip(1);
        lemma_leading_spaces(t);
        assert forall|j: int| 0 <= j < leading_spaces(s) implies is_space(#[trigger] s[j]) by {
            if j > 0 {
                assert(s[j] == t[j - 1]);
            }
        }
        if leading_spaces(s) < s.len() {
            assert(s[leading_spaces(s)] == t[leading_spaces(t)]);
        }
    }
}

pub proof fn lemma_leading_spaces_is(s: Seq<u8>, k: int)
    requires
        0 <= k <= s.len(),
        forall|j: int| 0 <= j < k ==> is_space(#[trigger] s[j]),
        k < s.len() ==> !is_space(s[k]),
    ensures
        leading_spaces(s) == k,
    decreases s.len(),
{
    if k > 0 {
        let t = s.skip(1);
        assert(is_space(s[0]));
        assert forall|j: int| 0 <= j < k - 1 implies is_space(#[trigger] t[j]) by {
            assert(t[j] == s[j + 1]);
        }
        lemma_leading_spaces_is(t, k - 1);
    }
}

pub proof fn lemma_trailing_spaces(s: Seq<u8>)
    ensures
        0 <= trailing_spaces(s) <= s.len(),
        forall|j: int| s.len() - trailing_spaces(s) <= j < s.len() ==> is_space(#[trigger] s[j]),
        trailing_spaces(s) < s.len() ==> !is_space(s[s.len() - trailing_spaces(s) - 1]),
    decreases s.len(),
{
    if s.len() != 0 && is_space(s.last()) {
        let t = s.drop_last();
        lemma_trailing_spaces(t);
        assert forall|j: int| s.len() - trailing_spaces(s) <= j < s.len() implies is_space(
            #[trigger] s[j],
        ) by {
            if j < s.len() - 1 {
                assert(s[j] == t[j]);
            }
        }
        if trailing_spaces(s) < s.len() {
            assert(s[s.len() - trailing_spaces(s) - 1] == t[t.len() - trailing_spaces(t) - 1]);
        }
    }
}

pub proof fn lemma_trailing_spaces_is(s: Seq<u8>, k: int)
    requires
        0 <= k <= s.len(),
        forall|j: int| s.len() - k <= j < s.len() ==> is_space(#[trigger] s[j]),
        k < s.len() ==> !is_space(s[s.len() - k - 1]),
    ensures
        trailing_spaces(s) == k,
    decreases s.len(),
{
    if k > 0 {
        let t = s.drop_last();
        assert(is_space(s[s.len() - 1]));
        assert forall|j: int| t.len() - (k - 1) <= j < t.len() implies is_space(#[trigger] t[j]) by {
            assert(t[j] == s[j]);
        }
        if k - 1 < t.len() {
            assert(t[t.len() - (k - 1) - 1] == s[s.len() - k - 1]);
        }
        lemma_trailing_spaces_is(t, k - 1);
    }
}

pub proof fn lemma_word_len(s: Seq<u8>)
    ensures
        0 <= word_len(s) <= s.len(),
        forall|j: int| 0 <= j < word_len(s) ==> !is_space(#[trigger] s[j]),
        word_len(s) < s.len() ==> is_space(s[word_len(s)]),
    decreases s.len(),
{
    if s.len() != 0 && !is_space(s[0]) {
        let t = s.skip(1);
        lemma_word_len(t);
        assert forall|j: int| 0 <= j < word_len(s) implies !is_space(#[trigger] s[j]) by {
            if j > 0 {
                assert(s[j] == t[j - 1]);
            }
        }
        if word_len(s) < s.len() {
            assert(s[word_len(s)] == t[word_len(t)]);
        }
    }
}

pub proof fn lemma_word_len_is(s: Seq<u8>, k: int)
    requires
        0 <= k <= s.len(),
        forall|j: int| 0 <= j < k ==> !is_space(#[trigger] s[j]),
        k < s.len() ==> is_space(s[k]),
    ensures
        word_len(s) == k,
    decreases s.len(),
{
    if k > 0 {
        let t = s.skip(1);
        assert(!is_space(s[0]));
        assert forall|j: int| 0 <= j < k - 1 implies !is_space(#[trigger] t[j]) by {
            assert(t[j] == s[j + 1]);
        }
        lemma_word_len_is(t, k - 1);
    }
}

pub proof fn lemma_line_len(s: Seq<u8>)
    ensures
        0 <= line_len(s) <= s.len(),
        forall|j: int| 0 <= j < line_len(s) ==> #[trigger] s[j] != NEWLINE,
        line_len(s) < s.len() ==> s[line_len(s)] == NEWLINE,
    decreases s.len(),
{
    if s.len() != 0 && s[0] != NEWLINE {
        let t = s.skip(1);
        lemma_line_len(t);
        assert forall|j: int| 0 <= j < line_len(s) implies #[trigger] s[j] != NEWLINE by {
            if j > 0 {
                assert(s[j] == t[j - 1]);
            }
        }
        if line_len(s) < s.len() {
            assert(s[line_len(s)] == t[line_len(t)]);
        }
    }
}

pub proof fn lemma_line_len_is(s: Seq<u8>, k: int)
    requires
        0 <= k <= s.len(),
        forall|j: int| 0 <= j < k ==> #[trigger] s[j] != NEWLINE,
        k < s.len() ==> s[k] == NEWLINE,
    ensures
        line_len(s) == k,
    decreases s.len(),
{
    if k > 0 {
        let t = s.skip(1);
        assert(s[0] != NEWLINE);
        assert forall|j: int| 0 <= j < k - 1 implies #[trigger] t[j] != NEWLINE by {
            assert(t[j] == s[j + 1]);
        }
        lemma_line_len_is(t, k - 1);
    }
}

/// Whether two byte strings hold the same bytes.
pub fn bytes_eq(a: &[u8], b: &[u8]) -> (r: bool)
    ensures
        r == (a@ == b@),
{
    if a.len() != b.len() {
        return false;
    }
    let mut i: usize = 0;
    while i < a.len()
        invariant
            a@.len() == b@.len(),
            0 <= i <= a@.len(),
            forall|j: int| 0 <= j < i ==> a@[j] == b@[j],
        decreases a@.len() - i,
    {
        if a[i] != b[i] {
            return false;
        }
        i += 1;
    }
    assert(a@ =~= b@);
    true
}

/// A copy of the bytes of `s` from `from` up to `to`.
pub fn copy_range(s: &[u8], from: usize, to: usize) -> (r: Vec<u8>)
    requires
        from <= to <= s@.len(),
    ensures
        r@ == s@.subrange(from as int, to as int),
{
    let mut out: Vec<u8> = Vec::new();
    let mut i: usize = from;
    while i < to
        invariant
            from <= i <= to <= s@.len(),
            out@ == s@.subrange(from as int, i as int),
        decreases to - i,
    {
        out.push(s[i]);
        assert(out@ =~= s@.subrange(from as int, i + 1));
        i += 1;
    }
    out
}

/// Folds the ASCII capitals of `s` to lower case.
pub fn to_lower(s: &[u8]) -> (r: Vec<u8>)
    ensures
        r@ == lower_seq(s@),
{
    let mut out: Vec<u8> = Vec::new();
    let mut i: usize = 0;
    while i < s.len()
        invariant
            0 <= i <= s@.len(),
            out@.len() == i,
            forall|j: int| 0 <= j < i ==> out@[j] == lower(s@[j]),
        decreases s@.len() - i,
    {
        let b: u8 = s[i];
        if 65 <= b && b <= 90 {
            out.push(b + 32);
        } else {
            out.push(b);
        }
        i += 1;
    }
    assert(out@ =~= lower_seq(s@));
    out
}

/// Whether `b` separates words.
pub fn byte_is_space(b: u8) -> (r: bool)
    ensures
        r == is_space(b),
{
    b == 32 || b == 9 || b == 13
}

/// Removes the whitespace at both ends of `s`.
pub fn trimmed(s: &[u8]) -> (r: Vec<u8>)
    ensures
        r@ == trim(s@),
{
    let mut lo: usize = 0;
    while lo < s.len() && byte_is_space(s[lo])
        invariant
            0 <= lo <= s@.len(),
            forall|j: int| 0 <= j < lo ==> is_space(#[trigger] s@[j]),
        decreases s@.len() - lo,
    {
        lo += 1;
    }
    proof {
        lemma_leading_spaces_is(s@, lo as int);
    }
    let ghost rest = s@.skip(lo as int);
    let mut hi: usize = s.len();
    while hi > lo && byte_is_space(s[hi - 1])
        invariant
            lo <= hi <= s@.len(),
            forall|j: int| hi <= j < s@.len() ==> is_space(#[trigger] s@[j]),
        decreases hi - lo,
    {
        hi -= 1;
    }
    proof {
        assert forall|j: int| rest.len() - (s@.len() - hi) <= j < rest.len() implies is_space(
            #[trigger] rest[j],
        ) by {
            assert(rest[j] == s@[j + lo]);
        }
        if hi > lo {
            assert(rest[rest.len() - (s@.len() - hi) - 1] == s@[hi - 1]);
        }
        lemma_trailing_spaces_is(rest, s@.len() - hi);
        assert(trim(s@) =~= s@.subrange(lo as int, hi as int));
    }
    copy_range(s, lo, hi)
}

/// Splits `s` after its first word: the word, and what follows it without
/// the whitespace in between.
pub fn split_word(s: &[u8]) -> (r: (Vec<u8>, Vec<u8>))
    ensures
        r.0@ == s@.take(word_len(s@)),
        r.1@ == trim_start(s@.skip(word_len(s@))),
{
    let mut k: usize = 0;
    while k < s.len() && !byte_is_space(s[k])
        invariant
            0 <= k <= s@.len(),
            forall|j: int| 0 <= j < k ==> !is_space(#[trigger] s@[j]),
        decreases s@.len() - k,
    {
        k += 1;
    }
    proof {
        lemma_word_len_is(s@, k as int);
    }
    let ghost rest = s@.skip(k as int);
    let mut m: usize = k;
    while m < s.len() && byte_is_space(s[m])
        invariant
            k <= m <= s@.len(),
            forall|j: int| k <= j < m ==> is_space(#[trigger] s@[j]),
        decreases s@.len() - m,
    {
        m += 1;
    }
    proof {
        assert forall|j: int| 0 <= j < m - k implies is_space(#[trigger] rest[j]) by {
            assert(rest[j] == s@[j + k]);
        }
        if m - k < rest.len() {
            assert(rest[m - k] == s@[m as int]);
        }
        lemma_leading_spaces_is(rest, m - k);
        assert(trim_start(rest) =~= s@.subrange(m as int, s@.len() as int));
        assert(s@.take(k as int) =~= s@.subrange(0, k as int));
    }
    (copy_range(s, 0, k), copy_range(s, m, s.len()))
}

/// Splits a text into its lines.
pub fn split_lines(text: &[u8]) -> (r: Vec<Vec<u8>>)
    ensures
        r@.len() == lines(text@).len(),
        forall|i: int| 0 <= i < r@.len() ==> (#[trigger] r@[i])@ == lines(text@)[i],
{
    let mut out: Vec<Vec<u8>> = Vec::new();
    let mut pos: usize = 0;
    let ghost mut done: Seq<Seq<u8>> = Seq::empty();
    proof {
        assert(text@.skip(0) =~= text@);
        assert(done + lines(text@) =~= lines(text@));
    }
    while pos < text.len()
        invariant
            0 <= pos <= text@.len(),
            out@.len() == done.len(),
            forall|i: int| 0 <= i < out@.len() ==> (#[trigger] out@[i])@ == done[i],
            lines(text@) == done + lines(text@.skip(pos as int)),
        decreases text@.len() - pos,
    {
        let ghost rest = text@.skip(pos as int);
        let mut end: usize = pos;
        while end < text.len() && text[end] != NEWLINE
            invariant
                pos <= end <= text@.len(),
                forall|j: int| pos <= j < end ==> #[trigger] text@[j] != NEWLINE,
            decreases text@.len() - end,
        {
            end += 1;
        }
        proof {
            assert forall|j: int| 0 <= j < end - pos implies #[trigger] rest[j] != NEWLINE by {
                assert(rest[j] == text@[j + pos]);
            }
            if end - pos < rest.len() {
                assert(rest[end - pos] == text@[end as int]);
            }
            lemma_line_len_is(rest, end - pos);
        }
        let line = copy_range(text, pos, end);
        proof {
            if end < text@.len() {
                assert(rest.take(end - pos) =~= text@.subrange(pos as int, end as int));
                assert(rest.skip(end - pos + 1) =~= text@.skip(end + 1));
                assert(done + (seq![rest.take(end - pos)] + lines(rest.skip(end - pos + 1)))
                    =~= done.push(line@) + lines(text@.skip(end + 1)));
            } else {
                assert(rest =~= text@.subrange(pos as int, end as int));
                assert(text@.skip(end as int).len() == 0);
                assert(done + seq![rest] =~= done.push(line@) + lines(text@.skip(end as int)));
            }
            done = done.push(line@);
        }
        out.push(line);
        if end < text.len() {
            pos = end + 1;
        } else {
            pos = end;
        }
    }
    proof {
        assert(text@.skip(pos as int).len() == 0);
        assert(lines(text@) =~= done);
    }
    out
}

/// A value that can stand behind a keyword as it is: not empty, on one
/// line, with no whitespace at either end.
pub open spec fn is_clean(s: Seq<u8>) -> bool {
    &&& s.len() > 0
    &&& !is_space(s[0])
    &&& !is_space(s.last())
    &&& forall|i: int| 0 <= i < s.len() ==> #[trigger] s[i] != NEWLINE
}

/// A single word: not empty, with no whitespace and no newline in it.
pub open spec fn is_word(s: Seq<u8>) -> bool {
    &&& s.len() > 0
    &&& forall|i: int| 0 <= i < s.len() ==> !is_space(#[trigger] s[i]) && s[i] != NEWLINE
}

/// Whether `s` can stand behind a keyword as it is.
pub fn check_clean(s: &[u8]) -> (r: bool)
    ensures
        r == is_clean(s@),
{
    if s.len() == 0 || byte_is_space(s[0]) || byte_is_space(s[s.len() - 1]) {
        return false;
    }
    let mut i: usize = 0;
    while i < s.len()
        invariant
            0 <= i <= s@.len(),
            forall|j: int| 0 <= j < i ==> #[trigger] s@[j] != NEWLINE,
        decreases s@.len() - i,
    {
        if s[i] == NEWLINE {
            return false;
        }
        i += 1;
    }
    true
}

/// Whether `s` is a single word.
pub fn check_word(s: &[u8]) -> (r: bool)
    ensures
        r == is_word(s@),
{
    if s.len() == 0 {
        return false;
    }
    let mut i: usize = 0;
    while i < s.len()
        invariant
            0 <= i <= s@.len(),
            forall|j: int| 0 <= j < i ==> !is_space(#[trigger] s@[j]) && s@[j] != NEWLINE,
        decreases s@.len() - i,
    {
        if byte_is_space(s[i]) || s[i] == NEWLINE {
            return false;
        }
        i += 1;
    }
    true
}

} // verus!
