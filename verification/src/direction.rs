//! The writing direction of a block, by its first strong character.
use crate::text;
use crate::text::{alphabetic, count_run, find_char, part, skip_digits, skip_space, Text};
use vstd::prelude::*;

verus! {

/// A block's base writing direction.
#[derive(Clone, Copy, PartialEq, Eq, Debug, Structural)]
pub enum Direction {
    Ltr,
    Rtl,
}

impl Default for Direction {
    fn default() -> (r: Self)
        ensures
            r == Direction::Ltr,
    {
        Direction::Ltr
    }
}

impl Direction {
    pub fn is_rtl(self) -> (r: bool)
        ensures
            r == (self == Direction::Rtl),
    {
        self == Direction::Rtl
    }
}

/// Strong right-to-left: Hebrew through the Arabic-script languages, with the
/// presentation forms.
pub open spec fn strong_rtl(c: char) -> bool {
    let u = c as u32;
    ||| 0x0590 <= u <= 0x085f
    ||| 0x08a0 <= u <= 0x08ff
    ||| 0xfb1d <= u <= 0xfdff
    ||| 0xfe70 <= u <= 0xfeff
}

/// Strong left-to-right: every other letter.
pub open spec fn strong_ltr(c: char) -> bool {
    text::is_alphabetic(c) && !strong_rtl(c)
}

fn is_strong_rtl(c: char) -> (r: bool)
    ensures
        r == strong_rtl(c),
{
    let u: u32 = c as u32;
    (0x0590 <= u && u <= 0x085f) || (0x08a0 <= u && u <= 0x08ff) || (0xfb1d <= u && u <= 0xfdff)
        || (0xfe70 <= u && u <= 0xfeff)
}

fn is_strong_ltr(c: char) -> (r: bool)
    ensures
        r == strong_ltr(c),
{
    alphabetic(c) && !is_strong_rtl(c)
}

/// The direction of the first strong character at or after `i`.
pub open spec fn first_strong(s: Seq<char>, i: int) -> Option<Direction>
    decreases s.len() - i,
{
    if i < 0 || i >= s.len() {
        None
    } else if strong_rtl(s[i]) {
        Some(Direction::Rtl)
    } else if strong_ltr(s[i]) {
        Some(Direction::Ltr)
    } else {
        first_strong(s, i + 1)
    }
}

/// `d`, or left-to-right where there is none.
pub open spec fn or_ltr(d: Option<Direction>) -> Direction {
    match d {
        Some(d) => d,
        None => Direction::Ltr,
    }
}

fn find_strong(s: &[char]) -> (r: Option<Direction>)
    ensures
        r == first_strong(s@, 0),
{
    let mut i: usize = 0;
    while i < s.len()
        invariant
            i <= s@.len(),
            first_strong(s@, 0) == first_strong(s@, i as int),
        decreases s.len() - i,
    {
        if is_strong_rtl(s[i]) {
            return Some(Direction::Rtl);
        }
        if is_strong_ltr(s[i]) {
            return Some(Direction::Ltr);
        }
        i += 1;
    }
    None
}

/// The base direction of `text`, by the first strong directional character.
/// Neutral characters (digits, punctuation, whitespace, markers) are skipped;
/// text with no strong character at all is left-to-right.
pub fn base_direction(text: &str) -> (r: Direction)
    ensures
        r == or_ltr(first_strong(text@, 0)),
{
    let t = Text::new(text);
    match find_strong(t.chars.as_slice()) {
        Some(d) => d,
        None => Direction::Ltr,
    }
}

// --- Markers ---

/// Without one blockquote arrow and the whitespace behind it.
pub open spec fn past_quote(s: Seq<char>) -> Seq<char> {
    if s.len() > 0 && s[0] == '>' {
        text::trim_start(s.skip(1))
    } else {
        text::trim_start(s)
    }
}

/// Whether a list bullet stands at the start.
pub open spec fn has_bullet(s: Seq<char>) -> bool {
    s.len() >= 2 && (s[0] == '-' || s[0] == '*' || s[0] == '+') && s[1] == ' '
}

/// Without a list bullet, or an ordered marker like `12.` or `3)`.
pub open spec fn past_bullet(s: Seq<char>) -> Seq<char> {
    let d = text::digits_end(s, 0);
    if has_bullet(s) {
        text::trim_start(s.skip(2))
    } else if d > 0 && d + 1 < s.len() && (s[d] == '.' || s[d] == ')') && s[d + 1] == ' ' {
        text::trim_start(s.skip(d + 2))
    } else {
        s
    }
}

/// Without an alert marker `[!…]` and its fold character.
pub open spec fn past_alert(s: Seq<char>) -> Seq<char> {
    if s.len() >= 2 && s[0] == '[' && s[1] == '!' {
        match text::index_of(s, ']', 2) {
            Some(c) => {
                let after = s.skip(c + 1);
                if after.len() > 0 && (after[0] == '-' || after[0] == '+') {
                    text::trim_start(after.skip(1))
                } else {
                    text::trim_start(after)
                }
            },
            None => s,
        }
    } else {
        s
    }
}

/// Without a task box.
pub open spec fn past_task(s: Seq<char>) -> Seq<char> {
    if s.len() >= 4 && s[0] == '[' && (s[1] == ' ' || s[1] == 'x' || s[1] == 'X') && s[2] == ']'
        && s[3] == ' ' {
        text::trim_start(s.skip(4))
    } else {
        s
    }
}

/// Without heading hashes.
pub open spec fn past_hashes(s: Seq<char>) -> Seq<char> {
    let h = text::run_of(s, '#', 0) as int;
    if h > 0 && h < s.len() && s[h] == ' ' {
        text::trim_start(s.skip(h + 1))
    } else {
        s
    }
}

/// Without one round of markers.
pub open spec fn past_markers(s: Seq<char>) -> Seq<char> {
    past_hashes(past_task(past_alert(past_bullet(past_quote(s)))))
}

/// What a line holds behind all its markers.
pub open spec fn content_of(s: Seq<char>) -> Seq<char>
    decreases s.len(),
{
    if past_markers(s).len() >= s.len() {
        s
    } else {
        content_of(past_markers(s))
    }
}

/// The direction of a line's content, where it has any.
pub open spec fn line_direction(line: Seq<char>) -> Option<Direction> {
    first_strong(content_of(text::trim_start(line)), 0)
}

fn cut(s: &[char], i: usize) -> (r: &[char])
    requires
        i <= s@.len(),
    ensures
        r@ == text::trim_start(s@.skip(i as int)),
{
    let n: usize = s.len();
    let rest = part(s, i, n);
    assert(rest@ =~= s@.skip(i as int));
    let k: usize = skip_space(rest, 0);
    let m: usize = rest.len();
    let out = part(rest, k, m);
    assert(out@ =~= text::trim_start(rest@));
    out
}

fn skip_quote(s: &[char]) -> (r: &[char])
    ensures
        r@ == past_quote(s@),
{
    if s.len() > 0 && s[0] == '>' {
        cut(s, 1)
    } else {
        assert(s@.skip(0) =~= s@);
        cut(s, 0)
    }
}

fn skip_bullet(s: &[char]) -> (r: &[char])
    ensures
        r@ == past_bullet(s@),
{
    let n: usize = s.len();
    if n >= 2 && (s[0] == '-' || s[0] == '*' || s[0] == '+') && s[1] == ' ' {
        return cut(s, 2);
    }
    let d: usize = skip_digits(s, 0);
    if d > 0 && n >= 2 && d < n - 1 && (s[d] == '.' || s[d] == ')') && s[d + 1] == ' ' {
        return cut(s, d + 2);
    }
    s
}

fn skip_alert(s: &[char]) -> (r: &[char])
    ensures
        r@ == past_alert(s@),
{
    let n: usize = s.len();
    if n >= 2 && s[0] == '[' && s[1] == '!' {
        if let Some(c) = find_char(s, ']', 2) {
            if c + 1 < n && (s[c + 1] == '-' || s[c + 1] == '+') {
                assert(s@.skip(c + 1).skip(1) =~= s@.skip(c + 2));
                assert(s@.skip(c + 1)[0] == s@[c + 1]);
                return cut(s, c + 2);
            }
            assert(c + 1 < n ==> s@.skip(c + 1)[0] == s@[c + 1]);
            return cut(s, c + 1);
        }
    }
    s
}

fn skip_task(s: &[char]) -> (r: &[char])
    ensures
        r@ == past_task(s@),
{
    if s.len() >= 4 && s[0] == '[' && (s[1] == ' ' || s[1] == 'x' || s[1] == 'X') && s[2] == ']'
        && s[3] == ' ' {
        cut(s, 4)
    } else {
        s
    }
}

fn skip_hashes(s: &[char]) -> (r: &[char])
    ensures
        r@ == past_hashes(s@),
{
    let h: usize = count_run(s, '#', 0);
    if h > 0 && h < s.len() && s[h] == ' ' {
        cut(s, h + 1)
    } else {
        s
    }
}

/// [`content_direction`], but `None` when the line has no strong character at
/// all: it is blank, or nothing but markers.
pub fn content_direction_opt(line: &str) -> (r: Option<Direction>)
    ensures
        r == line_direction(line@),
{
    let t = Text::new(line);
    let whole = t.chars.as_slice();
    assert(whole@.skip(0) =~= whole@);
    let mut rest = cut(whole, 0);
    loop
        invariant
            content_of(text::trim_start(line@)) == content_of(rest@),
        ensures
            content_of(text::trim_start(line@)) == rest@,
        decreases rest@.len(),
    {
        let next = skip_hashes(skip_task(skip_alert(skip_bullet(skip_quote(rest)))));
        if next.len() >= rest.len() {
            break;
        }
        rest = next;
    }
    find_strong(rest)
}

/// The direction of a source line's content, ignoring its markdown markers:
/// blockquote arrows, list bullets, task boxes, alert markers and heading
/// hashes are syntax, no prose.
pub fn content_direction(line: &str) -> (r: Direction)
    ensures
        r == or_ltr(line_direction(line@)),
{
    match content_direction_opt(line) {
        Some(d) => d,
        None => Direction::Ltr,
    }
}

/// Whether `text` contains any right-to-left character. A line can read
/// left-to-right and still hold a right-to-left run in the middle.
pub fn contains_rtl(text: &str) -> (r: bool)
    ensures
        r == exists|k: int| 0 <= k < text@.len() && strong_rtl(#[trigger] text@[k]),
{
    let t = Text::new(text);
    let mut i: usize = 0;
    while i < t.chars.len()
        invariant
            t@ == text@,
            i <= t@.len(),
            forall|k: int| 0 <= k < i ==> !strong_rtl(#[trigger] text@[k]),
        decreases t.chars.len() - i,
    {
        if is_strong_rtl(t.chars[i]) {
            assert(strong_rtl(text@[i as int]));
            return true;
        }
        i += 1;
    }
    false
}

// --- Laws ---

/// A round of markers that takes nothing away changes nothing, so what
/// [`content_of`] leaves is free of markers.
pub proof fn law_content_has_no_markers(s: Seq<char>)
    ensures
        past_markers(content_of(s)).len() >= content_of(s).len(),
    decreases s.len(),
{
    if past_markers(s).len() < s.len() {
        law_content_has_no_markers(past_markers(s));
    }
}

/// A right-to-left base direction needs a right-to-left character.
pub proof fn law_rtl_base_has_rtl_char(s: Seq<char>, i: int)
    requires
        0 <= i,
        first_strong(s, i) == Some(Direction::Rtl),
    ensures
        exists|k: int| i <= k < s.len() && strong_rtl(#[trigger] s[k]),
    decreases s.len() - i,
{
    if i < s.len() && !strong_rtl(s[i]) && !strong_ltr(s[i]) {
        law_rtl_base_has_rtl_char(s, i + 1);
    } else {
        assert(strong_rtl(s[i]));
    }
}

/// Whether `c` is of no direction.
pub open spec fn is_neutral(c: char) -> bool {
    !strong_rtl(c) && !strong_ltr(c)
}

proof fn lemma_neutral(s: Seq<char>, i: int, k: int)
    requires
        0 <= i <= k <= s.len(),
        forall|j: int| i <= j < k ==> is_neutral(#[trigger] s[j]),
    ensures
        first_strong(s, i) == first_strong(s, k),
    decreases k - i,
{
    if i < k {
        assert(is_neutral(s[i]));
        lemma_neutral(s, i + 1, k);
    }
}

/// The first character that has a direction decides: a Hebrew or Arabic one
/// makes a text right-to-left, any other letter left-to-right. Where none has
/// one, a text is left-to-right.
pub proof fn law_the_first_strong_character_decides(lead: Seq<char>, c: char, rest: Seq<char>)
    requires
        forall|j: int| 0 <= j < lead.len() ==> is_neutral(#[trigger] lead[j]),
    ensures
        0x0590 <= c as u32 <= 0x06ff ==> or_ltr(first_strong(lead + seq![c] + rest, 0))
            == Direction::Rtl,
        text::is_letter(c) ==> or_ltr(first_strong(lead + seq![c] + rest, 0)) == Direction::Ltr,
        or_ltr(first_strong(lead, 0)) == Direction::Ltr,
{
    let s = lead + seq![c] + rest;
    let n = lead.len() as int;
    assert forall|j: int| 0 <= j < n implies is_neutral(#[trigger] s[j]) by {
        assert(s[j] == lead[j]);
    }
    lemma_neutral(s, 0, n);
    lemma_neutral(lead, 0, n);
    assert(s[n] == c);
}

/// Whether `p` is one marker that can lead a line.
pub open spec fn is_mark(p: Seq<char>) -> bool {
    ||| p == seq!['>', ' ']
    ||| p.len() == 2 && (p[0] == '-' || p[0] == '*' || p[0] == '+') && p[1] == ' '
    ||| p.len() == 3 && text::is_digit(p[0]) && (p[1] == '.' || p[1] == ')') && p[2] == ' '
    ||| p.len() == 6 && (p[0] == '-' || p[0] == '*' || p[0] == '+') && p.skip(1) == seq![
        ' ',
        '[',
        p[3],
        ']',
        ' ',
    ] && (p[3] == ' ' || p[3] == 'x' || p[3] == 'X')
    ||| p == seq!['#', ' ']
    ||| p == seq!['#', '#', ' ']
    ||| p == seq!['#', '#', '#', ' ']
}

/// Whether words begin with a character that has a direction.
pub open spec fn starts_strong(words: Seq<char>) -> bool {
    words.len() > 0 && (0x0590 <= words[0] as u32 <= 0x06ff || text::is_letter(words[0]))
}

proof fn lemma_words_stay(words: Seq<char>)
    requires
        starts_strong(words),
    ensures
        text::trim_start(words) == words,
        past_quote(words) == words,
        past_bullet(words) == words,
        past_alert(words) == words,
        past_task(words) == words,
        past_hashes(words) == words,
        content_of(words) == words,
{
    assert(!text::is_space(words[0]));
    assert(text::space_end(words, 0) == 0);
    assert(words.skip(0) =~= words);
    assert(text::digits_end(words, 0) == 0);
}

proof fn lemma_mark(p: Seq<char>, words: Seq<char>)
    requires
        is_mark(p),
        starts_strong(words),
    ensures
        past_markers(p + words) == words,
        text::trim_start(p + words) == p + words,
{
    let s = p + words;
    lemma_words_stay(words);
    assert(!text::is_space(s[0]));
    assert(text::space_end(s, 0) == 0);
    assert(s.skip(0) =~= s);
    assert(s.skip(p.len() as int) =~= words);
    assert(s[p.len() as int] == words[0]);
    if p[0] == '>' {
        assert(s.skip(1) =~= seq![' '] + words);
        let t = s.skip(1);
        assert(t[0] == ' ' && t[1] == words[0]);
        text::lemma_space_end_at(t, 0, 1);
        assert(t.skip(1) =~= words);
    } else if has_bullet(s) {
        if p.len() == 6 {
            let q = p.skip(1);
            assert(q[0] == p[1] && q[1] == p[2] && q[2] == p[3] && q[3] == p[4] && q[4] == p[5]);
            let t = s.skip(2);
            assert(t[0] == '[' && t[1] == p[3] && t[2] == ']' && t[3] == ' ');
            assert(text::space_end(t, 0) == 0);
            assert(t.skip(0) =~= t);
            assert(t.skip(4) =~= words);
        }
    } else if text::is_digit(p[0]) {
        reveal_with_fuel(text::digits_end, 3);
        assert(text::digits_end(s, 0) == 1);
    } else {
        reveal_with_fuel(text::run_of, 5);
        let h = p.len() - 1;
        assert(text::run_of(s, '#', 0) == h);
        assert(past_quote(s) == s);
        assert(text::digits_end(s, 0) == 0);
        assert(past_bullet(s) == s);
    }
}

/// A line's marker does not decide its direction: the words behind a quote's, a
/// list item's, a task's or a heading's marker do, as they do on a line that has
/// none.
pub proof fn law_words_behind_a_marker_decide(p: Seq<char>, words: Seq<char>)
    requires
        is_mark(p),
        starts_strong(words),
    ensures
        ({
            let d = if text::is_letter(words[0]) {
                Direction::Ltr
            } else {
                Direction::Rtl
            };
            &&& line_direction(words) == Some(d)
            &&& line_direction(p + words) == Some(d)
        }),
{
    lemma_words_stay(words);
    lemma_mark(p, words);
}

} // verus!
