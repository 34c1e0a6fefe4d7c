//! Moving a caret through text: byte offsets, words, lines and UTF-16 units.
use crate::text::{alphanumeric, blen, is_alphanumeric, lemma_index_at, lemma_offset_end};
use crate::text::{lemma_offset_mono, lemma_offset_step, line_end_at, line_end_from};
use crate::text::{line_start_at, line_start_of, offset, on_boundary, index_at, Text};
use std::ops::Range;
use vstd::prelude::*;

verus! {

/// Whether a caret may stand at byte `b` of `s`; past the end counts as the end.
pub open spec fn is_caret(s: Seq<char>, b: int) -> bool {
    on_boundary(s, b) || b > blen(s)
}

/// `b`, or the end of `s` where `b` lies past it.
pub open spec fn clamped(s: Seq<char>, b: int) -> int {
    if b > blen(s) {
        blen(s) as int
    } else {
        b
    }
}

/// The last character of `s` that starts at or before byte `b`.
pub open spec fn floor_from(s: Seq<char>, b: int, i: int) -> int
    decreases i,
{
    if i <= 0 || offset(s, i) <= b {
        i
    } else {
        floor_from(s, b, i - 1)
    }
}

/// The last boundary of `s` at or before byte `b`.
pub open spec fn floor_of(s: Seq<char>, b: int) -> int {
    offset(s, floor_from(s, b, s.len() as int)) as int
}

/// Whether `r` is the last boundary before `at`, or the start.
pub open spec fn is_before(s: Seq<char>, at: int, r: int) -> bool {
    &&& on_boundary(s, r)
    &&& r < at || r == 0
    &&& forall|x: int| #[trigger] on_boundary(s, x) && x < at ==> x <= r
}

/// Whether `r` is the first boundary after `at`, or the end.
pub open spec fn is_after(s: Seq<char>, at: int, r: int) -> bool {
    &&& on_boundary(s, r)
    &&& r > at || r == blen(s)
    &&& forall|x: int| #[trigger] on_boundary(s, x) && x > at ==> x >= r
}

/// The boundary before boundary `b`; the start has none.
pub open spec fn prev_of(s: Seq<char>, b: int) -> int {
    let i = index_at(s, b);
    if i == 0 {
        0
    } else {
        offset(s, i - 1) as int
    }
}

/// The boundary after boundary `b`; the end has none.
pub open spec fn next_of(s: Seq<char>, b: int) -> int {
    let i = index_at(s, b);
    if i >= s.len() {
        blen(s) as int
    } else {
        offset(s, i + 1) as int
    }
}

/// Whether `c` is part of a word.
pub open spec fn is_word(c: char) -> bool {
    is_alphanumeric(c) || c == '_'
}

/// Where the run of word characters that ends at `i` begins.
pub open spec fn word_start(s: Seq<char>, i: int) -> int
    decreases i,
{
    if 0 < i <= s.len() && is_word(s[i - 1]) {
        word_start(s, i - 1)
    } else {
        i
    }
}

/// Where the run of word characters that begins at `i` ends.
pub open spec fn word_end(s: Seq<char>, i: int) -> int
    decreases s.len() - i,
{
    if 0 <= i < s.len() && is_word(s[i]) {
        word_end(s, i + 1)
    } else {
        i
    }
}

/// UTF-16 units of `c`.
pub open spec fn units(c: char) -> nat {
    if c as u32 <= 0xffff {
        1
    } else {
        2
    }
}

/// UTF-16 units of `s`.
pub open spec fn ulen(s: Seq<char>) -> nat
    decreases s.len(),
{
    if s.len() == 0 {
        0
    } else {
        ulen(s.drop_last()) + units(s.last())
    }
}

/// The UTF-16 offset of character `i` of `s`.
pub open spec fn uoffset(s: Seq<char>, i: int) -> nat {
    ulen(s.take(i))
}

/// The first character at or after `i` that starts at UTF-16 offset `u` or later.
pub open spec fn at_unit(s: Seq<char>, u: int, i: int) -> int
    decreases s.len() - i,
{
    if 0 <= i < s.len() && uoffset(s, i) < u {
        at_unit(s, u, i + 1)
    } else {
        i
    }
}

/// The first character at or after `i` that starts at byte `b` or later.
pub open spec fn at_byte(s: Seq<char>, b: int, i: int) -> int
    decreases s.len() - i,
{
    if 0 <= i < s.len() && offset(s, i) < b {
        at_byte(s, b, i + 1)
    } else {
        i
    }
}

/// The byte offset for UTF-16 offset `u`: inside a character, the one after it.
pub open spec fn utf8_of(s: Seq<char>, u: int) -> int {
    offset(s, at_unit(s, u, 0)) as int
}

/// The UTF-16 offset for byte `b`: inside a character, the one after it.
pub open spec fn utf16_of(s: Seq<char>, b: int) -> int {
    uoffset(s, at_byte(s, b, 0)) as int
}

proof fn lemma_floor(s: Seq<char>, b: int, i: int)
    requires
        0 <= i <= s.len(),
        0 <= b,
        forall|j: int| i < j <= s.len() ==> #[trigger] offset(s, j) > b,
    ensures
        0 <= floor_from(s, b, i) <= i,
        offset(s, floor_from(s, b, i)) <= b,
        forall|j: int| floor_from(s, b, i) < j <= s.len() ==> #[trigger] offset(s, j) > b,
    decreases i,
{
    if i > 0 && offset(s, i) > b {
        lemma_floor(s, b, i - 1);
    }
    assert(s.take(0) =~= Seq::<char>::empty());
}

/// `floor_of` is the last boundary at or before a byte.
pub proof fn lemma_floor_of(s: Seq<char>, b: int)
    requires
        0 <= b,
    ensures
        on_boundary(s, floor_of(s, b)),
        floor_of(s, b) <= b,
        forall|x: int| #[trigger] on_boundary(s, x) && x <= b ==> x <= floor_of(s, b),
{
    lemma_floor(s, b, s.len() as int);
    let k = floor_from(s, b, s.len() as int);
    lemma_index_at(s, k);
    lemma_offset_end(s);
    assert forall|x: int| #[trigger] on_boundary(s, x) && x <= b implies x <= floor_of(s, b) by {
        let i = index_at(s, x);
        assert(0 <= i <= s.len() && offset(s, i) == x);
        lemma_offset_mono(s, i, s.len() as int);
        if i > k {
            assert(offset(s, i) > b);
        } else {
            lemma_offset_mono(s, i, k);
        }
    }
}

fn clamp(t: &Text, at: usize) -> (i: usize)
    requires
        t.wf(),
        is_caret(t@, at as int),
    ensures
        i <= t@.len(),
        offset(t@, i as int) == clamped(t@, at as int),
{
    let n: usize = t.chars.len();
    let end: usize = t.offs[n];
    proof {
        lemma_offset_end(t@);
    }
    if at > end {
        return n;
    }
    match t.index_of(at) {
        Some(i) => i,
        None => n,
    }
}

/// The previous boundary: the last one before `at`, or the start.
pub fn caret_left(content: &str, at: usize) -> (r: usize)
    requires
        is_caret(content@, at as int),
    ensures
        is_before(content@, at as int, r as int),
        on_boundary(content@, at as int) ==> r == prev_of(content@, at as int),
{
    let t = Text::new(content);
    let n: usize = t.chars.len();
    let ghost s = content@;
    proof {
        lemma_offset_end(s);
    }
    if at > t.offs[n] {
        proof {
            lemma_index_at(s, n as int);
            lemma_all_boundaries(s);
        }
        return t.offs[n];
    }
    let i: usize = clamp(&t, at);
    proof {
        lemma_index_at(s, i as int);
    }
    if i == 0 {
        proof {
            assert(s.take(0) =~= Seq::<char>::empty());
            lemma_index_at(s, 0);
            lemma_all_boundaries(s);
        }
        return 0;
    }
    proof {
        lemma_index_at(s, i - 1);
        lemma_offset_step(s, i - 1);
        assert forall|x: int| #[trigger] on_boundary(s, x) && x < at implies x <= offset(s, i - 1) by {
            let k = index_at(s, x);
            assert(0 <= k <= s.len() && offset(s, k) == x);
            if k >= i {
                lemma_offset_mono(s, i as int, k);
            } else {
                lemma_offset_mono(s, k, i - 1);
            }
        }
    }
    t.offs[i - 1]
}

proof fn lemma_all_boundaries(s: Seq<char>)
    ensures
        forall|x: int| #[trigger] on_boundary(s, x) ==> 0 <= x <= blen(s),
{
    lemma_offset_end(s);
    assert forall|x: int| #[trigger] on_boundary(s, x) implies 0 <= x <= blen(s) by {
        let k = index_at(s, x);
        assert(0 <= k <= s.len() && offset(s, k) == x);
        lemma_offset_mono(s, k, s.len() as int);
    }
}

/// The next boundary: the first one after `at`, or the end.
pub fn caret_right(content: &str, at: usize) -> (r: usize)
    requires
        is_caret(content@, at as int),
    ensures
        is_after(content@, at as int, r as int),
        on_boundary(content@, at as int) ==> r == next_of(content@, at as int),
{
    let t = Text::new(content);
    let n: usize = t.chars.len();
    let ghost s = content@;
    let i: usize = clamp(&t, at);
    proof {
        lemma_index_at(s, i as int);
        lemma_offset_end(s);
        lemma_all_boundaries(s);
    }
    if i >= n {
        proof {
            lemma_index_at(s, n as int);
        }
        return t.offs[n];
    }
    proof {
        lemma_index_at(s, i + 1);
        lemma_offset_step(s, i as int);
        if at > blen(s) {
            lemma_offset_mono(s, i + 1, n as int);
        }
        assert forall|x: int| #[trigger] on_boundary(s, x) && x > at implies x >= offset(s, i + 1) by {
            let k = index_at(s, x);
            assert(0 <= k <= s.len() && offset(s, k) == x);
            if k <= i {
                lemma_offset_mono(s, k, i as int);
            } else {
                lemma_offset_mono(s, i + 1, k);
            }
        }
    }
    t.offs[i + 1]
}

/// The start of the line holding `at`: just past the line feed before it.
pub fn line_start(content: &str, at: usize) -> (r: usize)
    requires
        is_caret(content@, at as int),
    ensures
        r == offset(
            content@,
            line_start_of(content@, index_at(content@, clamped(content@, at as int))),
        ),
{
    let t = Text::new(content);
    let i: usize = clamp(&t, at);
    proof {
        lemma_index_at(content@, i as int);
    }
    let k: usize = line_start_at(&t.chars, i);
    t.offs[k]
}

/// The end of the line holding `at`: just before the next line feed.
pub fn line_end(content: &str, at: usize) -> (r: usize)
    requires
        is_caret(content@, at as int),
    ensures
        r == offset(
            content@,
            line_end_from(content@, index_at(content@, clamped(content@, at as int))),
        ),
{
    let t = Text::new(content);
    let i: usize = clamp(&t, at);
    proof {
        lemma_index_at(content@, i as int);
    }
    let k: usize = line_end_at(&t.chars, i);
    t.offs[k]
}

fn floor_index(t: &Text, b: usize) -> (i: usize)
    requires
        t.wf(),
    ensures
        i <= t@.len(),
        i as int == floor_from(t@, b as int, t@.len() as int),
{
    let mut i: usize = t.chars.len();
    while i > 0 && t.offs[i] > b
        invariant
            t.wf(),
            i <= t@.len(),
            floor_from(t@, b as int, t@.len() as int) == floor_from(t@, b as int, i as int),
        decreases i,
    {
        i -= 1;
    }
    i
}

/// The last boundary at or before `idx`.
pub fn floor_boundary(content: &str, idx: usize) -> (r: usize)
    ensures
        r == floor_of(content@, idx as int),
        on_boundary(content@, r as int),
        r <= idx,
        forall|x: int| #[trigger] on_boundary(content@, x) && x <= idx ==> x <= r,
{
    let t = Text::new(content);
    let i: usize = floor_index(&t, idx);
    proof {
        lemma_floor_of(content@, idx as int);
    }
    t.offs[i]
}

/// The word around `at`, as its first byte and the one past its last; empty
/// where there is no word on either side.
pub fn word_range(content: &str, at: usize) -> (r: (usize, usize))
    ensures
        ({
            let i = floor_from(content@, at as int, content@.len() as int);
            &&& r.0 == offset(content@, word_start(content@, i))
            &&& r.1 == offset(content@, word_end(content@, i))
        }),
{
    let t = Text::new(content);
    let i: usize = floor_index(&t, at);
    let mut a: usize = i;
    while a > 0 && (alphanumeric(t.chars[a - 1]) || t.chars[a - 1] == '_')
        invariant
            a <= i <= t@.len(),
            word_start(t@, i as int) == word_start(t@, a as int),
        decreases a,
    {
        a -= 1;
    }
    let mut b: usize = i;
    while b < t.chars.len() && (alphanumeric(t.chars[b]) || t.chars[b] == '_')
        invariant
            i <= b <= t@.len(),
            word_end(t@, i as int) == word_end(t@, b as int),
        decreases t.chars.len() - b,
    {
        b += 1;
    }
    (t.offs[a], t.offs[b])
}

proof fn lemma_uoffset_step(s: Seq<char>, i: int)
    requires
        0 <= i < s.len(),
    ensures
        uoffset(s, i + 1) == uoffset(s, i) + units(s[i]),
{
    assert(s.take(i + 1).drop_last() =~= s.take(i));
}

proof fn lemma_uoffset_mono(s: Seq<char>, i: int, j: int)
    requires
        0 <= i <= j <= s.len(),
    ensures
        uoffset(s, i) + (j - i) <= uoffset(s, j),
        uoffset(s, j) - uoffset(s, i) <= offset(s, j) - offset(s, i),
    decreases j - i,
{
    if i < j {
        lemma_uoffset_mono(s, i, j - 1);
        lemma_uoffset_step(s, j - 1);
        lemma_offset_step(s, j - 1);
    }
}

fn unit_width(c: char) -> (r: usize)
    ensures
        r == units(c),
{
    if c as u32 <= 0xffff {
        1
    } else {
        2
    }
}

/// The byte offset for a UTF-16 offset; inside a character, the one after it.
pub fn utf16_to_utf8_in(text: &str, offset_utf16: usize) -> (r: usize)
    ensures
        r == utf8_of(text@, offset_utf16 as int),
        on_boundary(text@, r as int),
{
    let t = Text::new(text);
    let ghost s = text@;
    let mut i: usize = 0;
    let mut u: usize = 0;
    assert(s.take(0) =~= Seq::<char>::empty());
    while i < t.chars.len() && u < offset_utf16
        invariant
            t.wf(),
            t@ == s,
            i <= s.len(),
            u == uoffset(s, i as int),
            at_unit(s, offset_utf16 as int, 0) == at_unit(s, offset_utf16 as int, i as int),
        decreases s.len() - i,
    {
        proof {
            lemma_uoffset_step(s, i as int);
            lemma_uoffset_mono(s, 0, i + 1);
            assert(s.take(0) =~= Seq::<char>::empty());
            assert(t.offs@[i + 1] == offset(s, i + 1));
        }
        u = u + unit_width(t.chars[i]);
        i += 1;
    }
    proof {
        lemma_index_at(s, i as int);
    }
    t.offs[i]
}

/// The UTF-16 offset for a byte offset; inside a character, the one after it.
pub fn utf8_to_utf16_in(text: &str, offset_utf8: usize) -> (r: usize)
    ensures
        r == utf16_of(text@, offset_utf8 as int),
{
    let t = Text::new(text);
    let ghost s = text@;
    let mut i: usize = 0;
    let mut u: usize = 0;
    assert(s.take(0) =~= Seq::<char>::empty());
    while i < t.chars.len() && t.offs[i] < offset_utf8
        invariant
            t.wf(),
            t@ == s,
            i <= s.len(),
            u == uoffset(s, i as int),
            at_byte(s, offset_utf8 as int, 0) == at_byte(s, offset_utf8 as int, i as int),
        decreases s.len() - i,
    {
        proof {
            lemma_uoffset_step(s, i as int);
            lemma_uoffset_mono(s, 0, i + 1);
            assert(s.take(0) =~= Seq::<char>::empty());
            assert(t.offs@[i + 1] == offset(s, i + 1));
        }
        u = u + unit_width(t.chars[i]);
        i += 1;
    }
    u
}

/// The byte range for a UTF-16 range.
pub fn utf16_range_to_utf8_in(text: &str, range_utf16: &Range<usize>) -> (r: Range<usize>)
    ensures
        r.start == utf8_of(text@, range_utf16.start as int),
        r.end == utf8_of(text@, range_utf16.end as int),
{
    let start: usize = utf16_to_utf8_in(text, range_utf16.start);
    let end: usize = utf16_to_utf8_in(text, range_utf16.end);
    start..end
}

/// The UTF-16 range for a byte range.
pub fn utf8_range_to_utf16_in(text: &str, range: &Range<usize>) -> (r: Range<usize>)
    ensures
        r.start == utf16_of(text@, range.start as int),
        r.end == utf16_of(text@, range.end as int),
{
    let start: usize = utf8_to_utf16_in(text, range.start);
    let end: usize = utf8_to_utf16_in(text, range.end);
    start..end
}

pub(crate) proof fn lemma_at_unit(s: Seq<char>, k: int, i: int)
    requires
        0 <= i <= k <= s.len(),
    ensures
        at_unit(s, uoffset(s, k) as int, i) == k,
    decreases k - i,
{
    if i < k {
        lemma_uoffset_mono(s, i, k);
        lemma_at_unit(s, k, i + 1);
    }
}

pub(crate) proof fn lemma_at_byte(s: Seq<char>, k: int, i: int)
    requires
        0 <= i <= k <= s.len(),
    ensures
        at_byte(s, offset(s, k) as int, i) == k,
    decreases k - i,
{
    if i < k {
        lemma_offset_mono(s, i, k);
        lemma_at_byte(s, k, i + 1);
    }
}

/// Between characters the two bridges undo each other.
pub proof fn law_utf16_reads_back(s: Seq<char>, b: int)
    requires
        on_boundary(s, b),
    ensures
        utf8_of(s, utf16_of(s, b)) == b,
{
    let k = index_at(s, b);
    assert(0 <= k <= s.len() && offset(s, k) == b);
    lemma_at_byte(s, k, 0);
    lemma_at_unit(s, k, 0);
}

/// A step to the left and one to the right lead back, except from the start.
pub proof fn law_left_then_right(s: Seq<char>, at: int, l: int, r: int)
    requires
        on_boundary(s, at),
        at > 0,
        is_before(s, at, l),
        is_after(s, l, r),
    ensures
        r == at,
{
    lemma_all_boundaries(s);
    assert(s.take(0) =~= Seq::<char>::empty());
    lemma_index_at(s, 0);
    assert(on_boundary(s, 0));
}

/// The bridge keeps the order of offsets.
pub proof fn law_bridge_keeps_order(s: Seq<char>, u: int, v: int)
    requires
        u <= v,
    ensures
        utf8_of(s, u) <= utf8_of(s, v),
        utf16_of(s, u) <= utf16_of(s, v),
{
    lemma_units_in_order(s, u, v, 0);
    lemma_bytes_in_order(s, u, v, 0);
    lemma_offset_mono(s, at_unit(s, u, 0), at_unit(s, v, 0));
    lemma_uoffset_mono(s, at_byte(s, u, 0), at_byte(s, v, 0));
}

proof fn lemma_units_in_order(s: Seq<char>, u: int, v: int, i: int)
    requires
        u <= v,
        0 <= i <= s.len(),
    ensures
        i <= at_unit(s, u, i) <= at_unit(s, v, i) <= s.len(),
    decreases s.len() - i,
{
    if i < s.len() {
        lemma_units_in_order(s, u, v, i + 1);
    }
}

proof fn lemma_bytes_in_order(s: Seq<char>, u: int, v: int, i: int)
    requires
        u <= v,
        0 <= i <= s.len(),
    ensures
        i <= at_byte(s, u, i) <= at_byte(s, v, i) <= s.len(),
    decreases s.len() - i,
{
    if i < s.len() {
        lemma_bytes_in_order(s, u, v, i + 1);
    }
}

/// The word that is selected holds the caret, and only word characters.
pub proof fn law_word_is_made_of_word_characters(s: Seq<char>, i: int, k: int)
    requires
        0 <= i <= s.len(),
        word_start(s, i) <= k < word_end(s, i),
    ensures
        word_start(s, i) <= i <= word_end(s, i) <= s.len(),
        0 <= word_start(s, i),
        is_word(s[k]),
        word_start(s, i) > 0 ==> !is_word(s[word_start(s, i) - 1]),
        word_end(s, i) < s.len() ==> !is_word(s[word_end(s, i)]),
{
    lemma_word_start(s, i, k);
    lemma_word_end(s, i, k);
}

proof fn lemma_word_start(s: Seq<char>, i: int, k: int)
    requires
        0 <= i <= s.len(),
    ensures
        0 <= word_start(s, i) <= i,
        word_start(s, i) <= k < i ==> is_word(s[k]),
        word_start(s, i) > 0 ==> !is_word(s[word_start(s, i) - 1]),
    decreases i,
{
    if 0 < i && is_word(s[i - 1]) {
        lemma_word_start(s, i - 1, k);
    }
}

proof fn lemma_word_end(s: Seq<char>, i: int, k: int)
    requires
        0 <= i <= s.len(),
    ensures
        i <= word_end(s, i) <= s.len(),
        i <= k < word_end(s, i) ==> is_word(s[k]),
        word_end(s, i) < s.len() ==> !is_word(s[word_end(s, i)]),
    decreases s.len() - i,
{
    if i < s.len() && is_word(s[i]) {
        lemma_word_end(s, i + 1, k);
    }
}

} // verus!
