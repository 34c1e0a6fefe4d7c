//! Text as a sequence of characters with byte offsets.
//!
//! A `&str` is viewed as its characters (`Seq<char>`). Positions that cross the
//! public interface are byte offsets into the UTF-8 form; [`blen`] is the byte
//! length of a run of characters, so the byte offset of character `i` of `s`
//! is `blen(s.take(i))`.
use vstd::prelude::*;
use vstd::slice::slice_subrange;
use vstd::utf8::{char_is_scalar, encode_scalar, encode_utf8};

verus! {

/// Bytes that `c` takes in UTF-8.
pub open spec fn char_width(c: char) -> nat {
    if c as u32 <= 0x7f {
        1
    } else if c as u32 <= 0x7ff {
        2
    } else if c as u32 <= 0xffff {
        3
    } else {
        4
    }
}

/// Bytes that `s` takes in UTF-8.
pub open spec fn blen(s: Seq<char>) -> nat
    decreases s.len(),
{
    if s.len() == 0 {
        0
    } else {
        blen(s.drop_last()) + char_width(s.last())
    }
}

/// The byte offset of character `i` of `s`.
pub open spec fn offset(s: Seq<char>, i: int) -> nat {
    blen(s.take(i))
}

/// Byte lengths add up over concatenation.
pub proof fn lemma_blen_concat(a: Seq<char>, b: Seq<char>)
    ensures
        blen(a + b) == blen(a) + blen(b),
    decreases b.len(),
{
    if b.len() == 0 {
        assert(a + b =~= a);
    } else {
        assert((a + b).drop_last() =~= a + b.drop_last());
        lemma_blen_concat(a, b.drop_last());
    }
}

/// `blen` is the length of the UTF-8 encoding.
pub proof fn lemma_blen_encode(s: Seq<char>)
    ensures
        encode_utf8(s).len() == blen(s),
    decreases s.len(),
{
    if s.len() > 0 {
        lemma_blen_encode(s.drop_first());
        assert(s =~= seq![s[0]] + s.drop_first());
        lemma_blen_concat(seq![s[0]], s.drop_first());
        reveal_with_fuel(blen, 2);
        assert(seq![s[0]].drop_last() =~= Seq::<char>::empty());
        let c = s[0];
        char_is_scalar(c);
        assert(encode_scalar(c as u32).len() == char_width(c));
    }
}

/// Taking one more character adds its width.
pub proof fn lemma_offset_step(s: Seq<char>, i: int)
    requires
        0 <= i < s.len(),
    ensures
        offset(s, i + 1) == offset(s, i) + char_width(s[i]),
{
    assert(s.take(i + 1).drop_last() =~= s.take(i));
}

/// Byte offsets grow by at least one per character.
pub proof fn lemma_offset_mono(s: Seq<char>, i: int, j: int)
    requires
        0 <= i <= j <= s.len(),
    ensures
        offset(s, j) == offset(s, i) + blen(s.subrange(i, j)),
        offset(s, j) - offset(s, i) >= j - i,
    decreases j - i,
{
    if i == j {
        assert(s.subrange(i, j) =~= Seq::<char>::empty());
    } else {
        lemma_offset_mono(s, i, j - 1);
        lemma_offset_step(s, j - 1);
        assert(s.subrange(i, j).drop_last() =~= s.subrange(i, j - 1));
    }
}

/// The byte length of the whole is the offset of its end.
pub proof fn lemma_offset_end(s: Seq<char>)
    ensures
        offset(s, s.len() as int) == blen(s),
        offset(s, 0) == 0,
{
    assert(s.take(s.len() as int) =~= s);
    assert(s.take(0) =~= Seq::<char>::empty());
}

/// The characters of a string with the byte offset of each.
pub struct Text {
    pub chars: Vec<char>,
    pub offs: Vec<usize>,
}

impl View for Text {
    type V = Seq<char>;

    open spec fn view(&self) -> Seq<char> {
        self.chars@
    }
}

impl Text {
    /// One offset per character and one for the end.
    pub open spec fn wf(&self) -> bool {
        &&& self.offs@.len() == self.chars@.len() + 1
        &&& forall|i: int|
            #![trigger self.offs@[i]]
            0 <= i <= self.chars@.len() ==> self.offs@[i] == offset(self.chars@, i)
    }

    /// The characters and offsets of `s`.
    pub fn new(s: &str) -> (t: Text)
        ensures
            t.wf(),
            t@ == s@,
    {
        let bytes = s.as_bytes();
        let total: usize = bytes.len();
        proof {
            lemma_blen_encode(s@);
        }
        let mut chars: Vec<char> = Vec::new();
        let mut offs: Vec<usize> = Vec::new();
        let mut at: usize = 0;
        offs.push(0);
        proof {
            lemma_offset_end(s@);
        }
        for c in it: s.chars()
            invariant
                it.seq() == s@,
                total == blen(s@),
                chars@ == s@.take(it.index()),
                at == offset(s@, it.index()),
                offs@.len() == it.index() + 1,
                forall|i: int|
                    #![trigger offs@[i]]
                    0 <= i <= it.index() ==> offs@[i] == offset(s@, i),
        {
            proof {
                let k = it.index();
                lemma_offset_step(s@, k);
                lemma_offset_mono(s@, k + 1, s@.len() as int);
                lemma_offset_end(s@);
                assert(s@.take(k + 1) =~= s@.take(k).push(c));
            }
            at = at + width(c);
            chars.push(c);
            offs.push(at);
        }
        assert(s@.take(s@.len() as int) =~= s@);
        assert forall|i: int| #![trigger offs@[i]] 0 <= i <= chars@.len() implies offs@[i] == offset(
            chars@,
            i,
        ) by {}
        Text { chars, offs }
    }

    /// The first character whose byte offset is at least `b`.
    pub fn ceil_index(&self, b: usize) -> (r: usize)
        requires
            self.wf(),
            b <= blen(self@),
        ensures
            r as int == ceil_at(self@, b as int),
            r <= self@.len(),
            offset(self@, r as int) >= b,
    {
        let mut i: usize = 0;
        proof {
            lemma_offset_end(self@);
        }
        while i < self.chars.len() && self.offs[i] < b
            invariant
                self.wf(),
                i <= self@.len(),
                b <= blen(self@),
                offset(self@, self@.len() as int) == blen(self@),
                ceil_from(self@, b as int, 0) == ceil_from(self@, b as int, i as int),
            decreases self.chars.len() - i,
        {
            assert(self.offs@[i as int] == offset(self@, i as int));
            i += 1;
        }
        assert(self.offs@[i as int] == offset(self@, i as int));
        i
    }

    /// The character index at byte offset `b`; `None` past the end or inside a
    /// character.
    pub fn index_of(&self, b: usize) -> (r: Option<usize>)
        requires
            self.wf(),
        ensures
            r is Some <==> on_boundary(self@, b as int),
            r is Some ==> r->0 <= self@.len() && offset(self@, r->0 as int) == b && r->0 == index_at(
                self@,
                b as int,
            ),
    {
        let mut i: usize = 0;
        while i < self.offs.len()
            invariant
                self.wf(),
                i <= self.offs.len(),
                forall|k: int| 0 <= k < i ==> #[trigger] offset(self@, k) != b,
            decreases self.offs.len() - i,
        {
            if self.offs[i] == b {
                proof {
                    lemma_index_at(self@, i as int);
                }
                return Some(i);
            }
            i += 1;
        }
        None
    }
}

/// Whether byte offset `b` of `s` falls between two characters (or at an end).
pub open spec fn on_boundary(s: Seq<char>, b: int) -> bool {
    exists|i: int| 0 <= i <= s.len() && #[trigger] offset(s, i) == b
}

/// The character at byte offset `b`, for an offset on a boundary.
pub open spec fn index_at(s: Seq<char>, b: int) -> int {
    choose|i: int| 0 <= i <= s.len() && #[trigger] offset(s, i) == b
}

/// The first character at or after `from` whose byte offset is at least `b`.
pub open spec fn ceil_from(s: Seq<char>, b: int, from: int) -> int
    decreases s.len() - from,
{
    if 0 <= from < s.len() && offset(s, from) < b {
        ceil_from(s, b, from + 1)
    } else {
        from
    }
}

/// The first character whose byte offset is at least `b`.
pub open spec fn ceil_at(s: Seq<char>, b: int) -> int {
    ceil_from(s, b, 0)
}

/// A byte offset determines the character.
pub proof fn lemma_index_at(s: Seq<char>, i: int)
    requires
        0 <= i <= s.len(),
    ensures
        on_boundary(s, offset(s, i) as int),
        index_at(s, offset(s, i) as int) == i,
{
    let j = index_at(s, offset(s, i) as int);
    assert(0 <= j <= s.len() && offset(s, j) == offset(s, i));
    if i < j {
        lemma_offset_mono(s, i, j);
    } else {
        lemma_offset_mono(s, j, i);
    }
}

/// Bytes that `c` takes in UTF-8.
pub fn width(c: char) -> (r: usize)
    ensures
        r == char_width(c),
{
    let u: u32 = c as u32;
    if u <= 0x7f {
        1
    } else if u <= 0x7ff {
        2
    } else if u <= 0xffff {
        3
    } else {
        4
    }
}

// --- Character classes ---

/// The White_Space property of Unicode.
pub open spec fn is_space(c: char) -> bool {
    let u = c as u32;
    ||| 0x09 <= u <= 0x0d
    ||| u == 0x20
    ||| u == 0x85
    ||| u == 0xa0
    ||| u == 0x1680
    ||| 0x2000 <= u <= 0x200a
    ||| u == 0x2028
    ||| u == 0x2029
    ||| u == 0x202f
    ||| u == 0x205f
    ||| u == 0x3000
}

/// The control characters of Unicode (category Cc).
pub open spec fn is_control(c: char) -> bool {
    c as u32 <= 0x1f || 0x7f <= c as u32 <= 0x9f
}

/// `0` to `9`.
pub open spec fn is_digit(c: char) -> bool {
    '0' <= c <= '9'
}

/// `a` to `z` and `A` to `Z`.
pub open spec fn is_letter(c: char) -> bool {
    'a' <= c <= 'z' || 'A' <= c <= 'Z'
}

/// An ASCII letter or digit.
pub open spec fn is_alnum(c: char) -> bool {
    is_letter(c) || is_digit(c)
}

/// ASCII whitespace: space, tab, line feed, form feed, carriage return.
pub open spec fn is_ascii_space(c: char) -> bool {
    c == ' ' || c == '\t' || c == '\n' || c as u32 == 0x0c || c == '\r'
}

/// An ASCII letter in lower case; every other character as it is.
pub open spec fn lower(c: char) -> char {
    if 'A' <= c <= 'Z' {
        ((c as u32 + 32) as u32) as char
    } else {
        c
    }
}

/// [`lower`] on every character.
pub open spec fn ascii_lower(s: Seq<char>) -> Seq<char> {
    s.map_values(|c: char| lower(c))
}

pub fn space(c: char) -> (r: bool)
    ensures
        r == is_space(c),
{
    let u: u32 = c as u32;
    (0x09 <= u && u <= 0x0d) || u == 0x20 || u == 0x85 || u == 0xa0 || u == 0x1680 || (0x2000 <= u
        && u <= 0x200a) || u == 0x2028 || u == 0x2029 || u == 0x202f || u == 0x205f || u == 0x3000
}

pub fn control(c: char) -> (r: bool)
    ensures
        r == is_control(c),
{
    let u: u32 = c as u32;
    u <= 0x1f || (0x7f <= u && u <= 0x9f)
}

pub fn digit(c: char) -> (r: bool)
    ensures
        r == is_digit(c),
{
    '0' <= c && c <= '9'
}

pub fn letter(c: char) -> (r: bool)
    ensures
        r == is_letter(c),
{
    ('a' <= c && c <= 'z') || ('A' <= c && c <= 'Z')
}

pub fn alnum(c: char) -> (r: bool)
    ensures
        r == is_alnum(c),
{
    letter(c) || digit(c)
}

pub fn ascii_space(c: char) -> (r: bool)
    ensures
        r == is_ascii_space(c),
{
    c == ' ' || c == '\t' || c == '\n' || c as u32 == 0x0c || c == '\r'
}

pub fn to_lower(c: char) -> (r: char)
    ensures
        r == lower(c),
{
    if 'A' <= c && c <= 'Z' {
        ((c as u8) + 32) as char
    } else {
        c
    }
}

/// What `char::is_alphabetic` says of a character beyond ASCII.
pub uninterp spec fn unicode_alphabetic(c: char) -> bool;

/// What `char::is_alphanumeric` says of a character beyond ASCII.
pub uninterp spec fn unicode_alphanumeric(c: char) -> bool;

/// The lower case that `str::to_lowercase` gives a text that is not all ASCII.
pub uninterp spec fn unicode_lowercase(s: Seq<char>) -> Seq<char>;

/// Calls `char::is_alphabetic`: the Unicode property Alphabetic of `c`.
#[verifier::external_body]
fn char_alphabetic(c: char) -> (r: bool)
    ensures
        r == unicode_alphabetic(c),
{
    c.is_alphabetic()
}

/// Calls `char::is_alphanumeric`: `c` is alphabetic or numeric in Unicode.
#[verifier::external_body]
fn char_alphanumeric(c: char) -> (r: bool)
    ensures
        r == unicode_alphanumeric(c),
{
    c.is_alphanumeric()
}

/// Calls `str::to_lowercase`: the lower case of `s` as Unicode maps it.
#[verifier::external_body]
fn str_lowercase(s: &str) -> (r: String)
    ensures
        r@ == unicode_lowercase(s@),
{
    s.to_lowercase()
}

/// Whether `c` is a letter of any script.
pub open spec fn is_alphabetic(c: char) -> bool {
    if c as u32 <= 0x7f {
        is_letter(c)
    } else {
        unicode_alphabetic(c)
    }
}

/// Whether `c` is a letter or number of any script.
pub open spec fn is_alphanumeric(c: char) -> bool {
    if c as u32 <= 0x7f {
        is_alnum(c)
    } else {
        unicode_alphanumeric(c)
    }
}

/// Whether every character is ASCII.
pub open spec fn all_ascii(s: Seq<char>) -> bool {
    forall|k: int| 0 <= k < s.len() ==> (#[trigger] s[k]) as u32 <= 0x7f
}

/// `s` in lower case.
pub open spec fn lowercase(s: Seq<char>) -> Seq<char> {
    if all_ascii(s) {
        ascii_lower(s)
    } else {
        unicode_lowercase(s)
    }
}

pub fn alphabetic(c: char) -> (r: bool)
    ensures
        r == is_alphabetic(c),
{
    if c as u32 <= 0x7f {
        letter(c)
    } else {
        char_alphabetic(c)
    }
}

pub fn alphanumeric(c: char) -> (r: bool)
    ensures
        r == is_alphanumeric(c),
{
    if c as u32 <= 0x7f {
        alnum(c)
    } else {
        char_alphanumeric(c)
    }
}

/// `s` in lower case.
pub fn to_lowercase(s: &[char]) -> (r: String)
    ensures
        r@ == lowercase(s@),
{
    let mut out = String::new();
    let mut i: usize = 0;
    while i < s.len()
        invariant
            i <= s@.len(),
            forall|k: int| 0 <= k < i ==> (#[trigger] s@[k]) as u32 <= 0x7f,
            out@ == ascii_lower(s@.take(i as int)),
        decreases s.len() - i,
    {
        let c: char = s[i];
        if c as u32 > 0x7f {
            assert(!all_ascii(s@)) by {
                assert(s@[i as int] as u32 > 0x7f);
            }
            let whole = to_string(s);
            return str_lowercase(whole.as_str());
        }
        push_char(&mut out, to_lower(c));
        assert(out@ =~= ascii_lower(s@.take(i + 1)));
        i += 1;
    }
    assert(s@.take(s@.len() as int) =~= s@);
    out
}

// --- Searching ---

/// Whether `p` stands in `s` at `i`.
pub open spec fn stands_at(s: Seq<char>, i: int, p: Seq<char>) -> bool {
    0 <= i && i + p.len() <= s.len() && s.subrange(i, i + p.len()) == p
}

/// Whether `s` begins with `p`.
pub open spec fn begins(s: Seq<char>, p: Seq<char>) -> bool {
    stands_at(s, 0, p)
}

/// Whether `s` ends with `p`.
pub open spec fn ends(s: Seq<char>, p: Seq<char>) -> bool {
    stands_at(s, s.len() - p.len(), p)
}

/// The first `c` in `s` at or after `from`.
pub open spec fn index_of(s: Seq<char>, c: char, from: int) -> Option<int>
    decreases s.len() - from,
{
    if from < 0 || from >= s.len() {
        None
    } else if s[from] == c {
        Some(from)
    } else {
        index_of(s, c, from + 1)
    }
}

/// The first place at or after `from` where `p` stands in `s`.
pub open spec fn index_of_str(s: Seq<char>, p: Seq<char>, from: int) -> Option<int>
    decreases s.len() - from + 1,
{
    if from < 0 || from > s.len() {
        None
    } else if stands_at(s, from, p) {
        Some(from)
    } else {
        index_of_str(s, p, from + 1)
    }
}

/// The last place at or before `to` where `p` stands in `s`.
pub open spec fn last_index_of_str(s: Seq<char>, p: Seq<char>, to: int) -> Option<int>
    decreases to + 1,
{
    if to < 0 {
        None
    } else if stands_at(s, to, p) {
        Some(to)
    } else {
        last_index_of_str(s, p, to - 1)
    }
}

/// Whether `p` stands anywhere in `s`.
pub open spec fn holds_str(s: Seq<char>, p: Seq<char>) -> bool {
    index_of_str(s, p, 0) is Some
}

/// The end of the line holding `from`: the next line feed, or the end of `s`.
pub open spec fn line_end_from(s: Seq<char>, from: int) -> int {
    match index_of(s, '\n', from) {
        Some(i) => i,
        None => s.len() as int,
    }
}

/// Where the line holding `at` starts: just past the last line feed before it.
pub open spec fn line_start_of(s: Seq<char>, at: int) -> int
    decreases at,
{
    if at <= 0 || at > s.len() {
        0
    } else if s[at - 1] == '\n' {
        at
    } else {
        line_start_of(s, at - 1)
    }
}

/// The first character at or after `from` that is no whitespace.
pub open spec fn space_end(s: Seq<char>, from: int) -> int
    decreases s.len() - from,
{
    if 0 <= from < s.len() && is_space(s[from]) {
        space_end(s, from + 1)
    } else {
        from
    }
}

/// Where the whitespace that ends at `to` begins.
pub open spec fn space_start(s: Seq<char>, to: int) -> int
    decreases to,
{
    if 0 < to <= s.len() && is_space(s[to - 1]) {
        space_start(s, to - 1)
    } else {
        to
    }
}

/// `s` without leading whitespace.
pub open spec fn trim_start(s: Seq<char>) -> Seq<char> {
    s.skip(space_end(s, 0))
}

/// `s` without trailing whitespace.
pub open spec fn trim_end(s: Seq<char>) -> Seq<char> {
    s.take(space_start(s, s.len() as int))
}

/// `s` without whitespace at either end.
pub open spec fn trim(s: Seq<char>) -> Seq<char> {
    trim_end(trim_start(s))
}

/// Whether `s` is all whitespace.
pub open spec fn blank(s: Seq<char>) -> bool {
    space_end(s, 0) == s.len()
}

/// How many times `c` repeats from `from` on.
pub open spec fn run_of(s: Seq<char>, c: char, from: int) -> nat
    decreases s.len() - from,
{
    if 0 <= from < s.len() && s[from] == c {
        1 + run_of(s, c, from + 1)
    } else {
        0
    }
}

/// The end of the ASCII digits that start at `from`.
pub open spec fn digits_end(s: Seq<char>, from: int) -> int
    decreases s.len() - from,
{
    if 0 <= from < s.len() && is_digit(s[from]) {
        digits_end(s, from + 1)
    } else {
        from
    }
}

/// What [`index_of`] finds is the first.
pub proof fn lemma_index_of(s: Seq<char>, c: char, from: int)
    requires
        0 <= from,
    ensures
        match index_of(s, c, from) {
            Some(i) => from <= i < s.len() && s[i] == c && forall|k: int|
                from <= k < i ==> s[k] != c,
            None => forall|k: int| from <= k < s.len() ==> s[k] != c,
        },
    decreases s.len() - from,
{
    if from < s.len() && s[from] != c {
        lemma_index_of(s, c, from + 1);
    }
}

/// What [`index_of_str`] finds is the first.
pub proof fn lemma_index_of_str(s: Seq<char>, p: Seq<char>, from: int)
    requires
        0 <= from,
    ensures
        match index_of_str(s, p, from) {
            Some(i) => from <= i && stands_at(s, i, p) && forall|k: int|
                from <= k < i ==> !stands_at(s, k, p),
            None => forall|k: int| from <= k ==> !stands_at(s, k, p),
        },
    decreases s.len() - from + 1,
{
    if from <= s.len() && !stands_at(s, from, p) {
        lemma_index_of_str(s, p, from + 1);
    }
}

/// What [`last_index_of_str`] finds is the last.
pub proof fn lemma_last_index_of_str(s: Seq<char>, p: Seq<char>, to: int)
    ensures
        match last_index_of_str(s, p, to) {
            Some(i) => 0 <= i <= to && stands_at(s, i, p) && forall|k: int|
                i < k <= to ==> !stands_at(s, k, p),
            None => forall|k: int| k <= to ==> !stands_at(s, k, p),
        },
    decreases to + 1,
{
    if 0 <= to && !stands_at(s, to, p) {
        lemma_last_index_of_str(s, p, to - 1);
    }
}

/// [`space_end`] passes exactly the whitespace.
pub proof fn lemma_space_end(s: Seq<char>, from: int)
    requires
        0 <= from <= s.len(),
    ensures
        from <= space_end(s, from) <= s.len(),
        forall|k: int| from <= k < space_end(s, from) ==> is_space(s[k]),
        space_end(s, from) < s.len() ==> !is_space(s[space_end(s, from)]),
    decreases s.len() - from,
{
    if from < s.len() && is_space(s[from]) {
        lemma_space_end(s, from + 1);
    }
}

/// [`space_start`] passes exactly the whitespace.
pub proof fn lemma_space_start(s: Seq<char>, to: int)
    requires
        0 <= to <= s.len(),
    ensures
        0 <= space_start(s, to) <= to,
        forall|k: int| space_start(s, to) <= k < to ==> is_space(s[k]),
        space_start(s, to) > 0 ==> !is_space(s[space_start(s, to) - 1]),
    decreases to,
{
    if 0 < to && is_space(s[to - 1]) {
        lemma_space_start(s, to - 1);
    }
}

/// The digits end inside the text.
pub proof fn lemma_digits_end(s: Seq<char>, from: int)
    requires
        0 <= from <= s.len(),
    ensures
        from <= digits_end(s, from) <= s.len(),
    decreases s.len() - from,
{
    if from < s.len() && is_digit(s[from]) {
        lemma_digits_end(s, from + 1);
    }
}

// --- Lines ---

/// The lines of `s` from character `i` on, without their line feeds.
pub open spec fn lines_from(s: Seq<char>, i: int) -> Seq<Seq<char>>
    decreases s.len() - i,
{
    if i < 0 || i > s.len() {
        seq![]
    } else {
        proof {
            lemma_index_of(s, '\n', i);
        }
        match index_of(s, '\n', i) {
            Some(e) => seq![s.subrange(i, e)] + lines_from(s, e + 1),
            None => seq![s.skip(i)],
        }
    }
}

/// The lines of `s`, without their line feeds.
pub open spec fn lines_of(s: Seq<char>) -> Seq<Seq<char>> {
    lines_from(s, 0)
}

/// `lines` with a line feed between each two.
pub open spec fn join_lines(lines: Seq<Seq<char>>) -> Seq<char>
    decreases lines.len(),
{
    if lines.len() == 0 {
        seq![]
    } else if lines.len() == 1 {
        lines[0]
    } else {
        join_lines(lines.drop_last()) + seq!['\n'] + lines.last()
    }
}

/// The lines of `b` stand in a text that ends with it as they do in `b`.
proof fn lemma_lines_behind(p: Seq<char>, b: Seq<char>, j: int)
    requires
        0 <= j <= b.len(),
    ensures
        lines_from(p + b, p.len() + j) == lines_from(b, j),
    decreases b.len() - j,
{
    let s = p + b;
    let n = p.len() as int;
    lemma_index_of(s, '\n', n + j);
    lemma_index_of(b, '\n', j);
    match index_of(b, '\n', j) {
        Some(e) => {
            assert(s[n + e] == '\n');
            let f = index_of(s, '\n', n + j)->0;
            assert(f == n + e) by {
                if f < n + e {
                    assert(s[f] == b[f - n]);
                }
            }
            assert(s.subrange(n + j, n + e) =~= b.subrange(j, e));
            lemma_lines_behind(p, b, e + 1);
        },
        None => {
            if let Some(f) = index_of(s, '\n', n + j) {
                assert(s[f] == b[f - n]);
            }
            assert(s.skip(n + j) =~= b.skip(j));
        },
    }
}

proof fn lemma_lines_before(a: Seq<char>, b: Seq<char>, i: int)
    requires
        0 <= i <= a.len(),
    ensures
        lines_from(a + seq!['\n'] + b, i) == lines_from(a, i) + lines_of(b),
    decreases a.len() - i,
{
    let p = a + seq!['\n'];
    let s = p + b;
    let n = a.len() as int;
    lemma_index_of(s, '\n', i);
    lemma_index_of(a, '\n', i);
    assert(s[n] == '\n');
    let f = index_of(s, '\n', i)->0;
    match index_of(a, '\n', i) {
        Some(e) => {
            assert(s[e] == a[e]);
            assert(f == e) by {
                if f < e {
                    assert(s[f] == a[f]);
                }
            }
            assert(s.subrange(i, e) =~= a.subrange(i, e));
            lemma_lines_before(a, b, e + 1);
            assert(lines_from(s, i) =~= lines_from(a, i) + lines_of(b));
        },
        None => {
            assert(f == n) by {
                if f < n {
                    assert(s[f] == a[f]);
                }
            }
            assert(s.subrange(i, n) =~= a.skip(i));
            lemma_lines_behind(p, b, 0);
            assert(lines_from(s, i) =~= lines_from(a, i) + lines_of(b));
        },
    }
}

/// The lines of two texts with a line feed between them are those of the one and
/// those of the other.
pub proof fn lemma_lines_concat(a: Seq<char>, b: Seq<char>)
    ensures
        lines_of(a + seq!['\n'] + b) == lines_of(a) + lines_of(b),
{
    lemma_lines_before(a, b, 0);
}

proof fn lemma_join_front(head: Seq<char>, rest: Seq<Seq<char>>)
    requires
        rest.len() > 0,
    ensures
        join_lines(seq![head] + rest) == head + seq!['\n'] + join_lines(rest),
    decreases rest.len(),
{
    let all = seq![head] + rest;
    if rest.len() == 1 {
        assert(all.drop_last() =~= seq![head]);
        assert(all.last() == rest[0]);
        assert(join_lines(seq![head]) == head);
    } else {
        assert(all.drop_last() =~= seq![head] + rest.drop_last());
        lemma_join_front(head, rest.drop_last());
        assert(join_lines(all) =~= head + seq!['\n'] + join_lines(rest));
    }
}

proof fn lemma_join_lines_from(s: Seq<char>, i: int)
    requires
        0 <= i <= s.len(),
    ensures
        lines_from(s, i).len() > 0,
        join_lines(lines_from(s, i)) == s.skip(i),
    decreases s.len() - i,
{
    lemma_index_of(s, '\n', i);
    if let Some(e) = index_of(s, '\n', i) {
        lemma_join_lines_from(s, e + 1);
        lemma_join_front(s.subrange(i, e), lines_from(s, e + 1));
        assert(s.skip(i) =~= s.subrange(i, e) + seq!['\n'] + s.skip(e + 1));
    }
}

/// Joining the lines of a text gives the text back.
pub proof fn law_join_splits_back(s: Seq<char>)
    ensures
        lines_of(s).len() > 0,
        join_lines(lines_of(s)) == s,
{
    lemma_join_lines_from(s, 0);
    assert(s.skip(0) =~= s);
}

/// The character ranges of the lines of `s`.
pub fn split_lines(s: &[char]) -> (r: Vec<(usize, usize)>)
    ensures
        r@.len() == lines_of(s@).len(),
        forall|k: int|
            #![trigger r@[k]]
            #![trigger lines_of(s@)[k]]
            0 <= k < r@.len() ==> r@[k].0 <= r@[k].1 <= s@.len() && s@.subrange(
                r@[k].0 as int,
                r@[k].1 as int,
            ) == lines_of(s@)[k],
{
    let mut out: Vec<(usize, usize)> = Vec::new();
    let mut i: usize = 0;
    let n: usize = s.len();
    let ghost mut acc: Seq<Seq<char>> = seq![];
    assert(acc + lines_from(s@, 0) =~= lines_of(s@));
    loop
        invariant
            i <= n == s@.len(),
            acc + lines_from(s@, i as int) == lines_of(s@),
            out@.len() == acc.len(),
            forall|k: int|
                #![trigger out@[k]]
                #![trigger acc[k]]
                0 <= k < out@.len() ==> out@[k].0 <= out@[k].1 <= s@.len() && s@.subrange(
                    out@[k].0 as int,
                    out@[k].1 as int,
                ) == acc[k],
        decreases n - i,
    {
        match find_char(s, '\n', i) {
            Some(e) => {
                let ghost line = s@.subrange(i as int, e as int);
                let ghost rest = lines_from(s@, e + 1);
                proof {
                    assert(acc + (seq![line] + rest) =~= acc.push(line) + rest);
                    acc = acc.push(line);
                }
                out.push((i, e));
                i = e + 1;
            },
            None => {
                let ghost line = s@.skip(i as int);
                proof {
                    assert(line =~= s@.subrange(i as int, n as int));
                    assert(acc + seq![line] =~= acc.push(line));
                    acc = acc.push(line);
                }
                out.push((i, n));
                return out;
            },
        }
    }
}

// --- Executable searching ---

/// Whether `lit` stands in `s` at `at`.
pub fn looks_at(s: &[char], at: usize, lit: &str) -> (r: bool)
    ensures
        r == stands_at(s@, at as int, lit@),
{
    if at > s.len() {
        return false;
    }
    let mut i: usize = at;
    for c in it: lit.chars()
        invariant
            it.seq() == lit@,
            at <= i <= s@.len(),
            i == at + it.index(),
            forall|k: int| 0 <= k < it.index() ==> s@[at + k] == lit@[k],
    {
        if i >= s.len() {
            return false;
        }
        if s[i] != c {
            proof {
                if stands_at(s@, at as int, lit@) {
                    assert(s@.subrange(at as int, at + lit@.len())[it.index()] == s@[i as int]);
                }
            }
            return false;
        }
        i += 1;
    }
    assert(s@.subrange(at as int, at + lit@.len()) =~= lit@);
    true
}

/// Whether `s` is `lit`.
pub fn same(s: &[char], lit: &str) -> (r: bool)
    ensures
        r == (s@ == lit@),
{
    let r = looks_at(s, 0, lit);
    if !r {
        proof {
            assert(s@.subrange(0, s@.len() as int) =~= s@);
        }
        return false;
    }
    let n: usize = lit.unicode_len();
    proof {
        assert(s@.len() == lit@.len() ==> s@.subrange(0, s@.len() as int) =~= s@);
    }
    s.len() == n
}

/// Whether two strings are the same.
pub fn str_is(a: &str, b: &str) -> (r: bool)
    ensures
        r == (a@ == b@),
{
    let x = a.to_owned();
    let y = b.to_owned();
    x == y
}

/// The first `c` at or after `from`.
pub fn find_char(s: &[char], c: char, from: usize) -> (r: Option<usize>)
    ensures
        r is Some == index_of(s@, c, from as int) is Some,
        r is Some ==> from <= r->0 < s@.len() && r->0 as int == index_of(s@, c, from as int)->0,
{
    let mut i: usize = from;
    while i < s.len()
        invariant
            from <= i,
            index_of(s@, c, from as int) == index_of(s@, c, i as int),
        decreases s.len() - i,
    {
        if s[i] == c {
            return Some(i);
        }
        i += 1;
    }
    None
}

/// The last place at or before `to` where `lit` stands.
pub fn rfind_str(s: &[char], lit: &str, to: usize) -> (r: Option<usize>)
    ensures
        r is Some == last_index_of_str(s@, lit@, to as int) is Some,
        r is Some ==> r->0 <= to && r->0 + lit@.len() <= s@.len() && r->0 as int
            == last_index_of_str(s@, lit@, to as int)->0,
{
    let mut i: usize = to;
    loop
        invariant
            i <= to,
            last_index_of_str(s@, lit@, to as int) == last_index_of_str(s@, lit@, i as int),
        decreases i,
    {
        if looks_at(s, i, lit) {
            return Some(i);
        }
        if i == 0 {
            assert(last_index_of_str(s@, lit@, -1) is None);
            return None;
        }
        i -= 1;
    }
}

/// The first character at or after `from` that is no whitespace.
pub fn skip_space(s: &[char], from: usize) -> (r: usize)
    requires
        from <= s@.len(),
    ensures
        r as int == space_end(s@, from as int),
        from <= r <= s@.len(),
{
    let mut i: usize = from;
    while i < s.len() && space(s[i])
        invariant
            from <= i <= s@.len(),
            space_end(s@, from as int) == space_end(s@, i as int),
        decreases s.len() - i,
    {
        i += 1;
    }
    i
}

/// Where the whitespace that ends at `to` begins.
pub fn skip_space_back(s: &[char], to: usize) -> (r: usize)
    requires
        to <= s@.len(),
    ensures
        r as int == space_start(s@, to as int),
        r <= to,
{
    let mut i: usize = to;
    while i > 0 && space(s[i - 1])
        invariant
            i <= to <= s@.len(),
            space_start(s@, to as int) == space_start(s@, i as int),
        decreases i,
    {
        i -= 1;
    }
    i
}

/// How many times `c` repeats from `from` on.
pub fn count_run(s: &[char], c: char, from: usize) -> (r: usize)
    requires
        from <= s@.len(),
    ensures
        r as nat == run_of(s@, c, from as int),
        from + r <= s@.len(),
{
    let mut i: usize = from;
    while i < s.len() && s[i] == c
        invariant
            from <= i <= s@.len(),
            run_of(s@, c, from as int) == (i - from) + run_of(s@, c, i as int),
        decreases s.len() - i,
    {
        i += 1;
    }
    i - from
}

/// The end of the ASCII digits that start at `from`.
pub fn skip_digits(s: &[char], from: usize) -> (r: usize)
    requires
        from <= s@.len(),
    ensures
        r as int == digits_end(s@, from as int),
        from <= r <= s@.len(),
{
    let mut i: usize = from;
    while i < s.len() && digit(s[i])
        invariant
            from <= i <= s@.len(),
            digits_end(s@, from as int) == digits_end(s@, i as int),
        decreases s.len() - i,
    {
        i += 1;
    }
    i
}

/// The end of the line holding `from`.
pub fn line_end_at(s: &[char], from: usize) -> (r: usize)
    requires
        from <= s@.len(),
    ensures
        r as int == line_end_from(s@, from as int),
        from <= r <= s@.len(),
{
    match find_char(s, '\n', from) {
        Some(i) => i,
        None => s.len(),
    }
}

/// Where the line holding `at` starts.
pub fn line_start_at(s: &[char], at: usize) -> (r: usize)
    requires
        at <= s@.len(),
    ensures
        r as int == line_start_of(s@, at as int),
        r <= at,
{
    let mut i: usize = at;
    while i > 0 && s[i - 1] != '\n'
        invariant
            i <= at <= s@.len(),
            line_start_of(s@, at as int) == line_start_of(s@, i as int),
        decreases i,
    {
        i -= 1;
    }
    i
}

/// The part of `s` from `i` to `j`.
pub fn part(s: &[char], i: usize, j: usize) -> (r: &[char])
    requires
        i <= j <= s@.len(),
    ensures
        r@ == s@.subrange(i as int, j as int),
{
    slice_subrange(s, i, j)
}

/// The ends of `s` without whitespace at either end.
pub fn trim_range(s: &[char]) -> (r: (usize, usize))
    ensures
        r.0 <= r.1 <= s@.len(),
        s@.subrange(r.0 as int, r.1 as int) == trim(s@),
        r.0 as int == space_end(s@, 0),
{
    let a: usize = skip_space(s, 0);
    let tail = part(s, a, s.len());
    let k: usize = skip_space_back(tail, tail.len());
    assert(tail@ =~= trim_start(s@));
    assert(s@.subrange(a as int, a + k) =~= tail@.take(k as int));
    (a, a + k)
}

/// The first place at or after `from` where `c1` is followed by `c2`.
pub fn find_pair(s: &[char], c1: char, c2: char, from: usize) -> (r: Option<usize>)
    requires
        from <= s@.len(),
    ensures
        r is Some == index_of_str(s@, seq![c1, c2], from as int) is Some,
        r is Some ==> from <= r->0 && r->0 + 2 <= s@.len() && r->0 as int == index_of_str(
            s@,
            seq![c1, c2],
            from as int,
        )->0,
{
    let ghost p = seq![c1, c2];
    let mut i: usize = from;
    while i < s.len()
        invariant
            from <= i <= s@.len(),
            p == seq![c1, c2],
            index_of_str(s@, p, from as int) == index_of_str(s@, p, i as int),
        decreases s.len() - i,
    {
        if s.len() - i >= 2 && s[i] == c1 && s[i + 1] == c2 {
            assert(s@.subrange(i as int, i + 2) =~= p);
            return Some(i);
        }
        proof {
            if stands_at(s@, i as int, p) {
                assert(s@.subrange(i as int, i + 2)[0] == s@[i as int]);
                assert(s@.subrange(i as int, i + 2)[1] == s@[i + 1]);
            }
        }
        i += 1;
    }
    assert(index_of_str(s@, p, i + 1) is None);
    None
}

// --- Building strings ---

/// Appends one character: `String::push`.
#[verifier::external_body]
pub(crate) fn push_char(s: &mut String, c: char)
    ensures
        final(s)@ == old(s)@.push(c),
{
    s.push(c)
}

/// The views of strings.
pub open spec fn views(v: Seq<String>) -> Seq<Seq<char>> {
    v.map_values(|s: String| s@)
}

/// `lines` with a line feed between each two.
pub fn join(lines: &Vec<String>) -> (r: String)
    ensures
        r@ == join_lines(views(lines@)),
{
    let mut out = String::new();
    let mut i: usize = 0;
    let ghost all = views(lines@);
    while i < lines.len()
        invariant
            i <= lines@.len(),
            all == views(lines@),
            out@ == join_lines(all.take(i as int)),
        decreases lines.len() - i,
    {
        proof {
            assert(all.take(i + 1).drop_last() =~= all.take(i as int));
            assert(all.take(i + 1).last() == lines@[i as int]@);
        }
        if i > 0 {
            push_char(&mut out, '\n');
        }
        out.append(lines[i].as_str());
        proof {
            if i == 0 {
                assert(all.take(1)[0] == lines@[0]@);
                assert(out@ =~= lines@[0]@);
            } else {
                assert(out@ =~= join_lines(all.take(i as int)) + seq!['\n'] + lines@[i as int]@);
            }
        }
        i += 1;
    }
    assert(all.take(all.len() as int) =~= all);
    out
}

/// The characters `s` as a string.
pub fn to_string(s: &[char]) -> (r: String)
    ensures
        r@ == s@,
{
    let mut out = String::new();
    let mut i: usize = 0;
    while i < s.len()
        invariant
            i <= s@.len(),
            out@ == s@.take(i as int),
        decreases s.len() - i,
    {
        push_char(&mut out, s[i]);
        proof {
            assert(s@.take(i + 1) =~= s@.take(i as int).push(s@[i as int]));
        }
        i += 1;
    }
    assert(s@.take(s@.len() as int) =~= s@);
    out
}

/// `s` with the character at `at` replaced.
pub fn with_char(s: &[char], at: usize, c: char) -> (r: String)
    requires
        at < s@.len(),
    ensures
        r@ == s@.update(at as int, c),
{
    let mut out = String::new();
    let mut i: usize = 0;
    let ghost want = s@.update(at as int, c);
    while i < s.len()
        invariant
            i <= s@.len(),
            at < s@.len(),
            want == s@.update(at as int, c),
            out@ == want.take(i as int),
        decreases s.len() - i,
    {
        if i == at {
            push_char(&mut out, c);
        } else {
            push_char(&mut out, s[i]);
        }
        assert(want.take(i + 1) =~= want.take(i as int).push(want[i as int]));
        i += 1;
    }
    assert(want.take(want.len() as int) =~= want);
    out
}

// --- Changing one character ---

pub proof fn lemma_line_start(s: Seq<char>, at: int)
    requires
        0 <= at <= s.len(),
    ensures
        0 <= line_start_of(s, at) <= at,
        line_start_of(s, at) > 0 ==> s[line_start_of(s, at) - 1] == '\n',
        forall|k: int| line_start_of(s, at) <= k < at ==> s[k] != '\n',
    decreases at,
{
    if at > 0 && s[at - 1] != '\n' {
        lemma_line_start(s, at - 1);
    }
}

pub proof fn lemma_line_start_update(s: Seq<char>, at: int, k: int, c: char)
    requires
        0 <= at <= s.len(),
        0 <= k < s.len(),
        s[k] != '\n',
        c != '\n',
    ensures
        line_start_of(s.update(k, c), at) == line_start_of(s, at),
    decreases at,
{
    if at > 0 && s[at - 1] != '\n' {
        lemma_line_start_update(s, at - 1, k, c);
    }
}

pub proof fn lemma_line_end_update(s: Seq<char>, at: int, k: int, c: char)
    requires
        0 <= at,
        0 <= k < s.len(),
        s[k] != '\n',
        c != '\n',
    ensures
        line_end_from(s.update(k, c), at) == line_end_from(s, at),
        index_of(s.update(k, c), '\n', at) == index_of(s, '\n', at),
    decreases s.len() - at,
{
    if at < s.len() && s[at] != '\n' {
        lemma_line_end_update(s, at + 1, k, c);
    }
}

pub proof fn lemma_space_end_update(s: Seq<char>, from: int, k: int, c: char)
    requires
        0 <= from <= s.len(),
        space_end(s, from) <= k < s.len(),
        !is_space(s[k]),
        !is_space(c),
    ensures
        space_end(s.update(k, c), from) == space_end(s, from),
    decreases s.len() - from,
{
    lemma_space_end(s, from);
    if from < s.len() && is_space(s[from]) {
        lemma_space_end_update(s, from + 1, k, c);
    }
}

/// A character replaced by one of the same width moves no offset.
pub proof fn lemma_offset_update(s: Seq<char>, k: int, c: char, j: int)
    requires
        0 <= k < s.len(),
        0 <= j <= s.len(),
        char_width(c) == char_width(s[k]),
    ensures
        offset(s.update(k, c), j) == offset(s, j),
    decreases j,
{
    if j > 0 {
        lemma_offset_update(s, k, c, j - 1);
        lemma_offset_step(s, j - 1);
        lemma_offset_step(s.update(k, c), j - 1);
    } else {
        assert(s.update(k, c).take(0) =~= s.take(0));
    }
}

// --- Trimming what needs none ---

pub proof fn lemma_space_end_at(s: Seq<char>, i: int, j: int)
    requires
        0 <= i <= j <= s.len(),
        forall|k: int| i <= k < j ==> is_space(#[trigger] s[k]),
        j == s.len() || !is_space(s[j]),
    ensures
        space_end(s, i) == j,
    decreases j - i,
{
    if i < j {
        lemma_space_end_at(s, i + 1, j);
    }
}

pub proof fn lemma_space_start_at(s: Seq<char>, i: int, j: int)
    requires
        0 <= i <= j <= s.len(),
        forall|k: int| i <= k < j ==> is_space(#[trigger] s[k]),
        i == 0 || !is_space(s[i - 1]),
    ensures
        space_start(s, j) == i,
    decreases j - i,
{
    if i < j {
        lemma_space_start_at(s, i, j - 1);
    }
}

/// Trimming takes the whitespace around what begins and ends with none.
pub proof fn lemma_trim_between(s: Seq<char>, i: int, j: int)
    requires
        0 <= i < j <= s.len(),
        forall|k: int| 0 <= k < i ==> is_space(#[trigger] s[k]),
        forall|k: int| j <= k < s.len() ==> is_space(#[trigger] s[k]),
        !is_space(s[i]),
        !is_space(s[j - 1]),
    ensures
        trim(s) == s.subrange(i, j),
        trim_start(s) == s.skip(i),
        trim_end(s) == s.take(j),
{
    lemma_space_end_at(s, 0, i);
    lemma_space_start_at(s, j, s.len() as int);
    let t = s.skip(i);
    assert(t[j - i - 1] == s[j - 1]);
    assert forall|k: int| j - i <= k < t.len() implies is_space(#[trigger] t[k]) by {
        assert(t[k] == s[k + i]);
    }
    lemma_space_start_at(t, j - i, t.len() as int);
    assert(t.take(j - i) =~= s.subrange(i, j));
}

// --- What is left without whitespace ---

/// `s` without its whitespace.
pub open spec fn solid(s: Seq<char>) -> Seq<char>
    decreases s.len(),
{
    if s.len() == 0 {
        seq![]
    } else if is_space(s.last()) {
        solid(s.drop_last())
    } else {
        solid(s.drop_last()).push(s.last())
    }
}

/// `solid` of every line, one behind the other.
pub open spec fn solid_lines(lines: Seq<Seq<char>>) -> Seq<char>
    decreases lines.len(),
{
    if lines.len() == 0 {
        seq![]
    } else {
        solid_lines(lines.drop_last()) + solid(lines.last())
    }
}

pub proof fn lemma_solid_concat(a: Seq<char>, b: Seq<char>)
    ensures
        solid(a + b) == solid(a) + solid(b),
    decreases b.len(),
{
    if b.len() == 0 {
        assert(a + b =~= a);
        assert(solid(a) + solid(b) =~= solid(a));
    } else {
        assert((a + b).drop_last() =~= a + b.drop_last());
        lemma_solid_concat(a, b.drop_last());
        assert(solid(a + b) =~= solid(a) + solid(b));
    }
}

pub proof fn lemma_solid_space(s: Seq<char>)
    requires
        forall|k: int| 0 <= k < s.len() ==> is_space(#[trigger] s[k]),
    ensures
        solid(s) == Seq::<char>::empty(),
    decreases s.len(),
{
    if s.len() > 0 {
        assert(is_space(s[s.len() - 1]));
        lemma_solid_space(s.drop_last());
    }
}

/// Trimming takes nothing but whitespace away.
pub proof fn lemma_solid_trim(s: Seq<char>)
    ensures
        solid(trim_start(s)) == solid(s),
        solid(trim_end(s)) == solid(s),
        solid(trim(s)) == solid(s),
{
    lemma_solid_trim_start(s);
    lemma_solid_trim_end(s);
    lemma_solid_trim_end(trim_start(s));
}

proof fn lemma_solid_trim_start(s: Seq<char>)
    ensures
        solid(trim_start(s)) == solid(s),
{
    lemma_space_end(s, 0);
    let i = space_end(s, 0);
    assert(s =~= s.take(i) + s.skip(i));
    lemma_solid_concat(s.take(i), s.skip(i));
    lemma_solid_space(s.take(i));
    assert(Seq::<char>::empty() + solid(s.skip(i)) =~= solid(s.skip(i)));
}

proof fn lemma_solid_trim_end(s: Seq<char>)
    ensures
        solid(trim_end(s)) == solid(s),
{
    lemma_space_start(s, s.len() as int);
    let i = space_start(s, s.len() as int);
    assert(s =~= s.take(i) + s.skip(i));
    lemma_solid_concat(s.take(i), s.skip(i));
    lemma_solid_space(s.skip(i));
    assert(solid(s.take(i)) + Seq::<char>::empty() =~= solid(s.take(i)));
}

pub proof fn lemma_solid_lines_concat(a: Seq<Seq<char>>, b: Seq<Seq<char>>)
    ensures
        solid_lines(a + b) == solid_lines(a) + solid_lines(b),
    decreases b.len(),
{
    if b.len() == 0 {
        assert(a + b =~= a);
        assert(solid_lines(a) + solid_lines(b) =~= solid_lines(a));
    } else {
        assert((a + b).drop_last() =~= a + b.drop_last());
        lemma_solid_lines_concat(a, b.drop_last());
        assert(solid_lines(a + b) =~= solid_lines(a) + solid_lines(b));
    }
}

pub proof fn lemma_solid_one(line: Seq<char>)
    ensures
        solid_lines(seq![line]) == solid(line),
{
    assert(seq![line].drop_last() =~= seq![]);
    assert(solid_lines(seq![line].drop_last()) =~= seq![]);
    assert(solid_lines(seq![line]) =~= solid(line));
}

/// Joining lines adds nothing but whitespace.
pub proof fn lemma_solid_join(lines: Seq<Seq<char>>)
    ensures
        solid(join_lines(lines)) == solid_lines(lines),
    decreases lines.len(),
{
    if lines.len() == 1 {
        lemma_solid_one(lines[0]);
        assert(lines =~= seq![lines[0]]);
    } else if lines.len() > 1 {
        let head = join_lines(lines.drop_last());
        lemma_solid_join(lines.drop_last());
        lemma_solid_concat(head + seq!['\n'], lines.last());
        lemma_solid_concat(head, seq!['\n']);
        lemma_solid_space(seq!['\n']);
        assert(solid(head) + Seq::<char>::empty() =~= solid(head));
    }
}

} // verus!
