//! The clickable constructs of one line: wiki-links, block references, inline
//! links, tags and bare URLs.
use crate::text::{
    alnum, ascii_space, blen, ceil_at, control, count_run, find_char, find_pair, index_of, index_of_str,
    is_alnum, is_ascii_space, is_control, is_space, lemma_index_of, lemma_index_of_str,
    lemma_offset_end, lemma_offset_mono, looks_at, lower, offset, part, run_of, space, stands_at,
    to_lower, to_string, trim, trim_range, Text,
};
use std::ops::Range;
use vstd::prelude::*;

verus! {

/// What a click on a link-like construct targets. `Page` opens a page by title
/// (a `[[wiki-link]]` or a `#tag`); `Url` is an inline or bare URL.
#[derive(Debug, PartialEq, Clone)]
pub enum LinkHit {
    Page(String),
    Url(String),
    /// A `((id))` block reference.
    BlockRef(String),
}

/// A [`LinkHit`] as a value.
pub enum Target {
    Page(Seq<char>),
    Url(Seq<char>),
    BlockRef(Seq<char>),
}

impl View for LinkHit {
    type V = Target;

    open spec fn view(&self) -> Target {
        match self {
            LinkHit::Page(p) => Target::Page(p@),
            LinkHit::Url(u) => Target::Url(u@),
            LinkHit::BlockRef(b) => Target::BlockRef(b@),
        }
    }
}

// --- Wiki-link targets ---

/// The page that the inner text of a wiki-link names: what stands before the
/// first `|`, trimmed.
pub open spec fn wiki_target(inner: Seq<char>) -> Seq<char> {
    match index_of(inner, '|', 0) {
        Some(i) => trim(inner.take(i)),
        None => trim(inner),
    }
}

/// What a wiki-link shows: the label behind the first `|`, trimmed, or the
/// target where there is no label.
pub open spec fn wiki_display(inner: Seq<char>) -> Seq<char> {
    match index_of(inner, '|', 0) {
        Some(i) => if trim(inner.skip(i + 1)).len() > 0 {
            trim(inner.skip(i + 1))
        } else {
            trim(inner.take(i))
        },
        None => trim(inner),
    }
}

/// The character range of a wiki-link's target within its inner text, and that
/// of what it shows.
pub(crate) fn wiki_ranges(inner: &[char]) -> (r: ((usize, usize), (usize, usize)))
    ensures
        r.0.0 <= r.0.1 <= inner@.len(),
        r.1.0 <= r.1.1 <= inner@.len(),
        inner@.subrange(r.0.0 as int, r.0.1 as int) == wiki_target(inner@),
        inner@.subrange(r.1.0 as int, r.1.1 as int) == wiki_display(inner@),
{
    let n: usize = inner.len();
    match find_char(inner, '|', 0) {
        Some(i) => {
            let head = part(inner, 0, i);
            let tail = part(inner, i + 1, n);
            let (a, b) = trim_range(head);
            let (c, d) = trim_range(tail);
            assert(head@ =~= inner@.take(i as int));
            assert(tail@ =~= inner@.skip(i + 1));
            assert(inner@.subrange(a as int, b as int) =~= head@.subrange(a as int, b as int));
            assert(inner@.subrange(i + 1 + c, i + 1 + d) =~= tail@.subrange(c as int, d as int));
            if c < d {
                ((a, b), (i + 1 + c, i + 1 + d))
            } else {
                ((a, b), (a, b))
            }
        },
        None => {
            let (a, b) = trim_range(inner);
            ((a, b), (a, b))
        },
    }
}

/// Splits a wiki-link's inner text into `(target, display)`: `target|label`
/// shows `label` (falling back to the target when the label is empty); `name`
/// shows itself. Both sides are trimmed.
pub fn wiki_target_display(inner: &str) -> (r: (&str, &str))
    ensures
        r.0@ == wiki_target(inner@),
        r.1@ == wiki_display(inner@),
{
    let t = Text::new(inner);
    let ((a, b), (c, d)) = wiki_ranges(t.chars.as_slice());
    (inner.substring_char(a, b), inner.substring_char(c, d))
}

// --- Character classes of the grammar ---

/// Whether `c` may stand in a tag name.
pub open spec fn tag_char(c: char) -> bool {
    is_alnum(c) || c == '_' || c == '-' || c == '/'
}

/// Whether `c` is a word character.
pub open spec fn word_char(c: char) -> bool {
    is_alnum(c) || c == '_'
}

/// Whether `c` may stand in a block id.
pub open spec fn id_char(c: char) -> bool {
    word_char(c) || c == '-'
}

pub(crate) fn tag_at(c: char) -> (r: bool)
    ensures
        r == tag_char(c),
{
    alnum(c) || c == '_' || c == '-' || c == '/'
}

pub(crate) fn word_at(c: char) -> (r: bool)
    ensures
        r == word_char(c),
{
    alnum(c) || c == '_'
}

pub(crate) fn id_at(c: char) -> (r: bool)
    ensures
        r == id_char(c),
{
    word_at(c) || c == '-'
}

/// Whether byte `c` can appear inside a `#tag` name (after the `#`). `/` is
/// included: namespaced tags (`#area/sub`) are one tag.
pub fn is_tag_char(c: u8) -> (r: bool)
    ensures
        r == tag_char(c as char),
{
    tag_at(c as char)
}

/// A word character for boundary checks: a `#` glued to a word is no tag, a URL
/// glued to a word is no link.
pub fn is_word_char(c: u8) -> (r: bool)
    ensures
        r == word_char(c as char),
{
    word_at(c as char)
}

// --- Bare URLs ---

/// Whether `c` ends a bare URL wherever it stands.
pub open spec fn url_stop_char(c: char) -> bool {
    is_ascii_space(c) || c == '<' || c == '>' || c == '"' || c == '`'
}

/// Whether `c` is left out at the end of a bare URL.
pub open spec fn url_tail_char(c: char) -> bool {
    c == '.' || c == ',' || c == ';' || c == ':' || c == '!' || c == '?' || c == ')' || c == ']'
}

/// The first character at or after `i` that ends a bare URL.
pub open spec fn url_stop(s: Seq<char>, i: int) -> int
    decreases s.len() - i,
{
    if 0 <= i < s.len() && !url_stop_char(s[i]) {
        url_stop(s, i + 1)
    } else {
        i
    }
}

/// `j` without the trailing punctuation before it, not going below `i`.
pub open spec fn url_back(s: Seq<char>, i: int, j: int) -> int
    decreases j - i,
{
    if 0 <= i < j <= s.len() && url_tail_char(s[j - 1]) {
        url_back(s, i, j - 1)
    } else {
        j
    }
}

/// Where a bare URL that starts at character `i` ends.
pub open spec fn url_end_at(s: Seq<char>, i: int) -> int {
    url_back(s, i, url_stop(s, i))
}

fn url_limit(s: &[char], i: usize) -> (r: usize)
    requires
        i <= s@.len(),
    ensures
        r as int == url_end_at(s@, i as int),
        i <= r <= s@.len(),
{
    let mut j: usize = i;
    while j < s.len() && !ascii_space(s[j]) && s[j] != '<' && s[j] != '>' && s[j] != '"' && s[j]
        != '`'
        invariant
            i <= j <= s@.len(),
            url_stop(s@, i as int) == url_stop(s@, j as int),
        decreases s.len() - j,
    {
        j += 1;
    }
    let ghost stop = j;
    while j > i && (s[j - 1] == '.' || s[j - 1] == ',' || s[j - 1] == ';' || s[j - 1] == ':' || s[j
        - 1] == '!' || s[j - 1] == '?' || s[j - 1] == ')' || s[j - 1] == ']')
        invariant
            i <= j <= s@.len(),
            url_back(s@, i as int, stop as int) == url_back(s@, i as int, j as int),
        decreases j,
    {
        j -= 1;
    }
    j
}

/// Where a bare URL starting at byte `start` ends: it runs to whitespace or a
/// wrapping delimiter, then backs off trailing punctuation. A `start` past the
/// end of the line is handed back.
pub fn url_end(line: &str, start: usize) -> (r: usize)
    ensures
        start > blen(line@) ==> r == start,
        start <= blen(line@) ==> r == offset(
            line@,
            url_end_at(line@, ceil_at(line@, start as int)),
        ),
{
    let t = Text::new(line);
    let n: usize = t.offs[t.chars.len()];
    proof {
        lemma_offset_end(t@);
    }
    if start > n {
        return start;
    }
    let i: usize = t.ceil_index(start);
    let j: usize = url_limit(t.chars.as_slice(), i);
    t.offs[j]
}

// --- The grammar ---

/// One step of the scan: where it goes on, and the link it passed, if any.
pub struct Step {
    pub next: int,
    pub hit: Option<Target>,
}

/// The first run of exactly `n` backticks at or after `j`. `j` is not inside a
/// run.
pub open spec fn ticks_from(s: Seq<char>, n: nat, j: int) -> Option<int>
    decreases s.len() - j,
{
    if j < 0 || j >= s.len() {
        None
    } else {
        proof {
            lemma_run(s, '`', j);
        }
        let k = run_of(s, '`', j);
        if k == 0 {
            ticks_from(s, n, j + 1)
        } else if k == n {
            Some(j)
        } else {
            ticks_from(s, n, j + k)
        }
    }
}

/// The closing backticks of an inline code span that opens at `i`: the next run
/// of as many backticks as opened it.
pub open spec fn code_close(s: Seq<char>, i: int) -> Option<int> {
    let n = run_of(s, '`', i);
    if n > 0 {
        ticks_from(s, n, i + n)
    } else {
        None
    }
}

/// The `]]` of a wiki-link that opens at `i`.
pub open spec fn wiki_close(s: Seq<char>, i: int) -> Option<int> {
    if i + 1 < s.len() && s[i] == '[' && s[i + 1] == '[' {
        index_of_str(s, seq![']', ']'], i + 2)
    } else {
        None
    }
}

/// The `))` of a block reference that opens at `i`, where the id between has
/// the shape of one.
pub open spec fn block_ref_close(s: Seq<char>, i: int) -> Option<int> {
    if i + 1 < s.len() && s[i] == '(' && s[i + 1] == '(' {
        match index_of_str(s, seq![')', ')'], i + 2) {
            Some(c) => if c > i + 2 && all_id(s.subrange(i + 2, c)) {
                Some(c)
            } else {
                None
            },
            None => None,
        }
    } else {
        None
    }
}

/// Whether every character of `s` may stand in a block id.
pub open spec fn all_id(s: Seq<char>) -> bool {
    forall|k: int| 0 <= k < s.len() ==> id_char(#[trigger] s[k])
}

/// The `]` of a footnote reference `[^label]` that opens at `i`.
pub open spec fn footnote_close(s: Seq<char>, i: int) -> Option<int> {
    if i + 1 < s.len() && s[i] == '[' && s[i + 1] == '^' {
        match index_of(s, ']', i + 2) {
            Some(c) => if c > i + 2 {
                Some(c)
            } else {
                None
            },
            None => None,
        }
    } else {
        None
    }
}

/// The `]` and the `)` of an inline link `[text](url)` that opens at `i`.
pub open spec fn inline_close(s: Seq<char>, i: int) -> Option<(int, int)> {
    if s[i] == '[' {
        match index_of(s, ']', i + 1) {
            Some(rb) => if rb + 1 < s.len() && s[rb + 1] == '(' {
                match index_of(s, ')', rb + 2) {
                    Some(rp) => Some((rb, rp)),
                    None => None,
                }
            } else {
                None
            },
            None => None,
        }
    } else {
        None
    }
}

/// The first character at or after `i` that is no tag character.
pub open spec fn tag_run(s: Seq<char>, i: int) -> int
    decreases s.len() - i,
{
    if 0 <= i < s.len() && tag_char(s[i]) {
        tag_run(s, i + 1)
    } else {
        i
    }
}

/// Whether a word may begin at `i`.
pub open spec fn word_edge(s: Seq<char>, i: int) -> bool {
    i == 0 || !word_char(s[i - 1])
}

/// The end of a `#tag` at `i`.
pub open spec fn tag_end(s: Seq<char>, i: int) -> Option<int> {
    if s[i] == '#' && word_edge(s, i) && tag_run(s, i + 1) > i + 1 {
        Some(tag_run(s, i + 1))
    } else {
        None
    }
}

/// `http://`.
pub open spec fn http() -> Seq<char> {
    seq!['h', 't', 't', 'p', ':', '/', '/']
}

/// `https://`.
pub open spec fn https() -> Seq<char> {
    seq!['h', 't', 't', 'p', 's', ':', '/', '/']
}

/// The end of a bare URL at `i`: it takes more than eight bytes.
pub open spec fn bare_url_end(s: Seq<char>, i: int) -> Option<int> {
    if (stands_at(s, i, http()) || stands_at(s, i, https())) && word_edge(s, i) && offset(
        s,
        url_end_at(s, i),
    ) > offset(s, i) + 8 {
        Some(url_end_at(s, i))
    } else {
        None
    }
}

/// What stands at `i`, by the first rule that applies: a code span (opaque), a
/// run of backticks that nothing closes (text), a wiki-link, a block reference, a footnote reference (no link), an inline link
/// or image (an image is no link), a tag, a bare URL, or nothing.
pub open spec fn step(s: Seq<char>, i: int) -> Step {
    if run_of(s, '`', i) > 0 {
        match code_close(s, i) {
            Some(c) => Step { next: c + run_of(s, '`', i), hit: None },
            None => Step { next: i + run_of(s, '`', i), hit: None },
        }
    } else if let Some(c) = wiki_close(s, i) {
        let target = wiki_target(s.subrange(i + 2, c));
        Step {
            next: c + 2,
            hit: if target.len() > 0 {
                Some(Target::Page(target))
            } else {
                None
            },
        }
    } else if let Some(c) = block_ref_close(s, i) {
        Step { next: c + 2, hit: Some(Target::BlockRef(s.subrange(i + 2, c))) }
    } else if let Some(c) = footnote_close(s, i) {
        Step { next: c + 1, hit: None }
    } else if let Some((rb, rp)) = inline_close(s, i) {
        let url = trim(s.subrange(rb + 2, rp));
        Step {
            next: rp + 1,
            hit: if url.len() > 0 && !(i > 0 && s[i - 1] == '!') {
                Some(Target::Url(url))
            } else {
                None
            },
        }
    } else if let Some(j) = tag_end(s, i) {
        Step { next: j, hit: Some(Target::Page(s.subrange(i + 1, j))) }
    } else if let Some(j) = bare_url_end(s, i) {
        Step { next: j, hit: Some(Target::Url(s.subrange(i, j))) }
    } else {
        Step { next: i + 1, hit: None }
    }
}

/// A link: its first character, the character behind it, and its target.
pub struct Link {
    pub start: int,
    pub end: int,
    pub target: Target,
}

/// The links of `s` from character `i` on.
pub open spec fn links_from(s: Seq<char>, i: int) -> Seq<Link>
    decreases s.len() - i,
{
    if i < 0 || i >= s.len() {
        seq![]
    } else {
        proof {
            lemma_step(s, i);
        }
        let st = step(s, i);
        let rest = links_from(s, st.next);
        match st.hit {
            Some(t) => seq![Link { start: i, end: st.next, target: t }] + rest,
            None => rest,
        }
    }
}

/// Every link of `s`, from left to right.
pub open spec fn links_of(s: Seq<char>) -> Seq<Link> {
    links_from(s, 0)
}

/// A tag run stays inside the line.
pub proof fn lemma_tag_run(s: Seq<char>, i: int)
    requires
        0 <= i <= s.len(),
    ensures
        i <= tag_run(s, i) <= s.len(),
    decreases s.len() - i,
{
    if i < s.len() && tag_char(s[i]) {
        lemma_tag_run(s, i + 1);
    }
}

proof fn lemma_url_end(s: Seq<char>, i: int)
    requires
        0 <= i <= s.len(),
    ensures
        i <= url_end_at(s, i) <= s.len(),
{
    lemma_url_stop(s, i);
    lemma_url_back(s, i, url_stop(s, i));
}

proof fn lemma_url_stop(s: Seq<char>, i: int)
    requires
        0 <= i <= s.len(),
    ensures
        i <= url_stop(s, i) <= s.len(),
    decreases s.len() - i,
{
    if i < s.len() && !url_stop_char(s[i]) {
        lemma_url_stop(s, i + 1);
    }
}

proof fn lemma_url_back(s: Seq<char>, i: int, j: int)
    requires
        0 <= i <= j <= s.len(),
    ensures
        i <= url_back(s, i, j) <= j,
    decreases j - i,
{
    if i < j && url_tail_char(s[j - 1]) {
        lemma_url_back(s, i, j - 1);
    }
}

/// A run stays inside the line.
pub proof fn lemma_run(s: Seq<char>, c: char, i: int)
    requires
        0 <= i <= s.len(),
    ensures
        i + run_of(s, c, i) <= s.len(),
    decreases s.len() - i,
{
    if i < s.len() && s[i] == c {
        lemma_run(s, c, i + 1);
    }
}

proof fn lemma_ticks_from(s: Seq<char>, n: nat, j: int)
    requires
        0 <= j <= s.len(),
    ensures
        ticks_from(s, n, j) is Some ==> j <= ticks_from(s, n, j)->0 && run_of(
            s,
            '`',
            ticks_from(s, n, j)->0,
        ) == n && ticks_from(s, n, j)->0 + n <= s.len(),
    decreases s.len() - j,
{
    if j < s.len() {
        let k = run_of(s, '`', j);
        lemma_run(s, '`', j);
        if k == 0 {
            lemma_ticks_from(s, n, j + 1);
        } else if k != n {
            lemma_ticks_from(s, n, j + k);
        }
    }
}

/// The first run of exactly `n` backticks at or after `from`.
fn find_ticks(s: &[char], n: usize, from: usize) -> (r: Option<usize>)
    requires
        n > 0,
        from <= s@.len(),
    ensures
        r is Some == ticks_from(s@, n as nat, from as int) is Some,
        r is Some ==> r->0 as int == ticks_from(s@, n as nat, from as int)->0 && r->0 + n
            <= s@.len(),
{
    let mut j: usize = from;
    while j < s.len()
        invariant
            n > 0,
            j <= s@.len(),
            ticks_from(s@, n as nat, from as int) == ticks_from(s@, n as nat, j as int),
        decreases s.len() - j,
    {
        let k: usize = count_run(s, '`', j);
        if k == 0 {
            j += 1;
        } else if k == n {
            return Some(j);
        } else {
            j += k;
        }
    }
    None
}

/// A step moves forward and stays inside the line.
pub proof fn lemma_step(s: Seq<char>, i: int)
    requires
        0 <= i < s.len(),
    ensures
        i < step(s, i).next <= s.len(),
{
    lemma_run(s, '`', i);
    lemma_ticks_from(s, run_of(s, '`', i), i + run_of(s, '`', i));
    lemma_index_of_str(s, seq![']', ']'], i + 2);
    lemma_index_of_str(s, seq![')', ')'], i + 2);
    lemma_index_of(s, ']', i + 2);
    lemma_index_of(s, ']', i + 1);
    if let Some(rb) = index_of(s, ']', i + 1) {
        lemma_index_of(s, ')', rb + 2);
    }
    lemma_tag_run(s, i + 1);
    lemma_url_end(s, i);
}

pub(crate) fn all_id_at(s: &[char]) -> (r: bool)
    ensures
        r == all_id(s@),
{
    let mut k: usize = 0;
    while k < s.len()
        invariant
            k <= s@.len(),
            forall|m: int| 0 <= m < k ==> id_char(#[trigger] s@[m]),
        decreases s.len() - k,
    {
        if !id_at(s[k]) {
            assert(!id_char(s@[k as int]));
            return false;
        }
        k += 1;
    }
    true
}

/// One step of the scan at `i`.
fn step_at(t: &Text, i: usize) -> (r: (usize, Option<LinkHit>))
    requires
        t.wf(),
        i < t@.len(),
    ensures
        r.0 as int == step(t@, i as int).next,
        i < r.0 <= t@.len(),
        r.1 is Some == step(t@, i as int).hit is Some,
        r.1 is Some ==> r.1->0@ == step(t@, i as int).hit->0,
{
    let s = t.chars.as_slice();
    let end: usize = s.len();
    let c: char = s[i];
    proof {
        lemma_step(t@, i as int);
    }
    let ticks: usize = count_run(s, '`', i);
    if ticks > 0 {
        return match find_ticks(s, ticks, i + ticks) {
            Some(close) => (close + ticks, None),
            None => (i + ticks, None),
        };
    }
    if c == '[' && i + 1 < end && s[i + 1] == '[' {
        if let Some(close) = find_pair(s, ']', ']', i + 2) {
            let inner = part(s, i + 2, close);
            let ((a, b), _) = wiki_ranges(inner);
            if a < b {
                return (close + 2, Some(LinkHit::Page(to_string(part(inner, a, b)))));
            }
            return (close + 2, None);
        }
    }
    if c == '(' && i + 1 < end && s[i + 1] == '(' {
        if let Some(close) = find_pair(s, ')', ')', i + 2) {
            let id = part(s, i + 2, close);
            if id.len() > 0 && all_id_at(id) {
                return (close + 2, Some(LinkHit::BlockRef(to_string(id))));
            }
        }
    }
    if c == '[' && i + 1 < end && s[i + 1] == '^' {
        if let Some(rb) = find_char(s, ']', i + 2) {
            if rb > i + 2 {
                return (rb + 1, None);
            }
        }
    }
    if c == '[' {
        if let Some(rb) = find_char(s, ']', i + 1) {
            if rb + 1 < end && s[rb + 1] == '(' {
                if let Some(rp) = find_char(s, ')', rb + 2) {
                    let is_image = i > 0 && s[i - 1] == '!';
                    let inner = part(s, rb + 2, rp);
                    let (a, b) = trim_range(inner);
                    if !is_image && a < b {
                        return (rp + 1, Some(LinkHit::Url(to_string(part(inner, a, b)))));
                    }
                    return (rp + 1, None);
                }
            }
        }
    }
    if c == '#' && (i == 0 || !word_at(s[i - 1])) {
        let mut j: usize = i + 1;
        while j < end && tag_at(s[j])
            invariant
                s@ == t@,
                end == s@.len(),
                i < j <= end,
                tag_run(s@, i + 1) == tag_run(s@, j as int),
            decreases end - j,
        {
            j += 1;
        }
        if j > i + 1 {
            return (j, Some(LinkHit::Page(to_string(part(s, i + 1, j)))));
        }
    }
    proof {
        reveal_strlit("http://");
        reveal_strlit("https://");
        assert("http://"@ =~= http());
        assert("https://"@ =~= https());
    }
    if (looks_at(s, i, "http://") || looks_at(s, i, "https://")) && (i == 0 || !word_at(
        s[i - 1],
    )) {
        let j: usize = url_limit(s, i);
        assert(t.offs@[j as int] == offset(t@, j as int));
        assert(t.offs@[i as int] == offset(t@, i as int));
        proof {
            lemma_offset_mono(t@, i as int, j as int);
        }
        if t.offs[j] - t.offs[i] > 8 {
            return (j, Some(LinkHit::Url(to_string(part(s, i, j)))));
        }
    }
    (i + 1, None)
}

/// Whether `row` is `link` of `s`, with its ends as byte offsets.
pub open spec fn is_link(row: (Range<usize>, LinkHit), s: Seq<char>, link: Link) -> bool {
    &&& row.0.start == offset(s, link.start)
    &&& row.0.end == offset(s, link.end)
    &&& row.1@ == link.target
}

/// Whether `rows` are `all` of `s`, one for one.
pub open spec fn are_links(
    rows: Seq<(Range<usize>, LinkHit)>,
    s: Seq<char>,
    all: Seq<Link>,
) -> bool {
    &&& rows.len() == all.len()
    &&& forall|k: int|
        #![trigger rows[k]]
        #![trigger all[k]]
        0 <= k < all.len() ==> is_link(rows[k], s, all[k])
}

/// Every clickable link in `line`, as `(source byte range, target)`.
pub fn links(line: &str) -> (r: Vec<(Range<usize>, LinkHit)>)
    ensures
        are_links(r@, line@, links_of(line@)),
{
    let t = Text::new(line);
    let mut out: Vec<(Range<usize>, LinkHit)> = Vec::new();
    let mut i: usize = 0;
    let ghost mut acc: Seq<Link> = seq![];
    assert(acc + links_from(t@, 0) =~= links_of(line@));
    while i < t.chars.len()
        invariant
            t.wf(),
            t@ == line@,
            i <= t@.len(),
            acc + links_from(t@, i as int) == links_of(line@),
            are_links(out@, line@, acc),
        decreases t.chars.len() - i,
    {
        let (next, hit) = step_at(&t, i);
        let ghost rest = links_from(t@, next as int);
        assert(t.offs@[i as int] == offset(t@, i as int));
        assert(t.offs@[next as int] == offset(t@, next as int));
        if let Some(h) = hit {
            let ghost link = Link { start: i as int, end: next as int, target: h@ };
            proof {
                assert(acc + (seq![link] + rest) =~= acc.push(link) + rest);
                acc = acc.push(link);
            }
            out.push((Range { start: t.offs[i], end: t.offs[next] }, h));
        }
        i = next;
    }
    assert(links_from(t@, i as int) =~= seq![]);
    assert(acc =~= links_of(line@));
    out
}

/// The link of `s` that holds byte `col`.
pub open spec fn link_over(s: Seq<char>, all: Seq<Link>, col: int) -> Option<Target>
    decreases all.len(),
{
    if all.len() == 0 {
        None
    } else if offset(s, all[0].start) <= col < offset(s, all[0].end) {
        Some(all[0].target)
    } else {
        link_over(s, all.drop_first(), col)
    }
}

/// The link under byte `col` of `line`, if any (see [`links`]).
pub fn link_at(line: &str, col: usize) -> (r: Option<LinkHit>)
    ensures
        r is Some == link_over(line@, links_of(line@), col as int) is Some,
        r is Some ==> r->0@ == link_over(line@, links_of(line@), col as int)->0,
{
    let mut all = links(line);
    let ghost every = links_of(line@);
    let mut i: usize = 0;
    assert(every.skip(0) =~= every);
    while i < all.len()
        invariant
            i <= all@.len(),
            every == links_of(line@),
            are_links(all@, line@, every),
            link_over(line@, every, col as int) == link_over(line@, every.skip(i as int), col as int),
        decreases all.len() - i,
    {
        assert(is_link(all@[i as int], line@, every[i as int]));
        assert(every.skip(i as int).drop_first() =~= every.skip(i + 1));
        if all[i].0.start <= col && col < all[i].0.end {
            let (_, hit) = all.swap_remove(i);
            return Some(hit);
        }
        i += 1;
    }
    None
}

// --- Laws ---

/// Code is opaque: where the scan comes to backticks that are closed, the next
/// link stands behind the closing run.
pub proof fn law_code_is_opaque(s: Seq<char>, i: int, k: int)
    requires
        0 <= i < s.len(),
        code_close(s, i) is Some,
        0 <= k < links_from(s, i).len(),
    ensures
        links_from(s, i)[k].start >= code_close(s, i)->0 + run_of(s, '`', i),
{
    lemma_step(s, i);
    law_links_ordered(s, code_close(s, i)->0 + run_of(s, '`', i));
}

/// The links of a line stand in it one behind the other: each takes at least
/// one character, starts where the one before has ended or later, and ends
/// inside the line.
pub proof fn law_links_ordered(s: Seq<char>, i: int)
    requires
        0 <= i <= s.len(),
    ensures
        forall|k: int|
            #![trigger links_from(s, i)[k]]
            0 <= k < links_from(s, i).len() ==> i <= links_from(s, i)[k].start < links_from(
                s,
                i,
            )[k].end <= s.len(),
        forall|k: int, m: int|
            #![trigger links_from(s, i)[k], links_from(s, i)[m]]
            0 <= k < m < links_from(s, i).len() ==> links_from(s, i)[k].end <= links_from(
                s,
                i,
            )[m].start,
    decreases s.len() - i,
{
    if i < s.len() {
        lemma_step(s, i);
        let st = step(s, i);
        law_links_ordered(s, st.next);
        let rest = links_from(s, st.next);
        let all = links_from(s, i);
        if let Some(t) = st.hit {
            let head = Link { start: i, end: st.next, target: t };
            assert(all == seq![head] + rest);
            assert forall|k: int| #![trigger all[k]] 0 <= k < all.len() implies i <= all[k].start
                < all[k].end <= s.len() by {
                if k > 0 {
                    assert(all[k] == rest[k - 1]);
                }
            }
            assert forall|k: int, m: int|
                #![trigger all[k], all[m]]
                0 <= k < m < all.len() implies all[k].end <= all[m].start by {
                assert(all[m] == rest[m - 1]);
                if k > 0 {
                    assert(all[k] == rest[k - 1]);
                }
            }
        } else {
            assert(all == rest);
        }
    }
}

/// The text that a target carries.
pub open spec fn target_text(t: Target) -> Seq<char> {
    match t {
        Target::Page(p) => p,
        Target::Url(u) => u,
        Target::BlockRef(b) => b,
    }
}

/// No link has an empty target.
pub proof fn law_links_have_targets(s: Seq<char>, i: int)
    requires
        0 <= i <= s.len(),
    ensures
        forall|k: int|
            #![trigger links_from(s, i)[k]]
            0 <= k < links_from(s, i).len() ==> target_text(links_from(s, i)[k].target).len() > 0,
    decreases s.len() - i,
{
    if i < s.len() {
        lemma_step(s, i);
        lemma_index_of_str(s, seq![')', ')'], i + 2);
        let st = step(s, i);
        law_links_have_targets(s, st.next);
        let rest = links_from(s, st.next);
        let all = links_from(s, i);
        if let Some(t) = st.hit {
            let head = Link { start: i, end: st.next, target: t };
            assert(all == seq![head] + rest);
            assert forall|k: int| #![trigger all[k]] 0 <= k < all.len() implies target_text(
                all[k].target,
            ).len() > 0 by {
                if k > 0 {
                    assert(all[k] == rest[k - 1]);
                }
            }
        } else {
            assert(all == rest);
        }
    }
}

proof fn lemma_link_over(s: Seq<char>, all: Seq<Link>, k: int, col: int)
    requires
        0 <= k < all.len(),
        offset(s, all[k].start) <= col < offset(s, all[k].end),
        forall|a: int, b: int|
            #![trigger all[a], all[b]]
            0 <= a < b < all.len() ==> all[a].end <= all[b].start,
        forall|a: int|
            #![trigger all[a]]
            0 <= a < all.len() ==> 0 <= all[a].start <= all[a].end <= s.len(),
    ensures
        link_over(s, all, col) == Some(all[k].target),
    decreases all.len(),
{
    if k > 0 {
        assert(all[0].end <= all[k].start);
        assert(0 <= all[k].start <= s.len());
        lemma_offset_mono(s, all[0].end, all[k].start);
        let rest = all.drop_first();
        assert(rest[k - 1] == all[k]);
        assert forall|a: int, b: int|
            #![trigger rest[a], rest[b]]
            0 <= a < b < rest.len() implies rest[a].end <= rest[b].start by {
            assert(rest[a] == all[a + 1] && rest[b] == all[b + 1]);
        }
        assert forall|a: int| #![trigger rest[a]] 0 <= a < rest.len() implies 0 <= rest[a].start
            <= rest[a].end <= s.len() by {
            assert(rest[a] == all[a + 1]);
        }
        lemma_link_over(s, rest, k - 1, col);
    }
}

/// Every byte of a link leads to that link's target.
pub proof fn law_link_under_every_byte(s: Seq<char>, k: int, col: int)
    requires
        0 <= k < links_of(s).len(),
        offset(s, links_of(s)[k].start) <= col < offset(s, links_of(s)[k].end),
    ensures
        link_over(s, links_of(s), col) == Some(links_of(s)[k].target),
{
    law_links_ordered(s, 0);
    lemma_link_over(s, links_of(s), k, col);
}

// --- Targets that may leave the application ---

/// Whether `s` begins with `scheme`, letters compared without case.
pub open spec fn begins_nocase(s: Seq<char>, scheme: Seq<char>) -> bool {
    scheme.len() <= s.len() && forall|k: int|
        0 <= k < scheme.len() ==> lower(#[trigger] s[k]) == lower(scheme[k])
}

/// `mailto:`.
pub open spec fn mailto() -> Seq<char> {
    seq!['m', 'a', 'i', 'l', 't', 'o', ':']
}

/// Whether `url` may be handed to the opener of the operating system: an
/// allowlist of schemes, and no whitespace or control character anywhere.
pub open spec fn safe_url(url: Seq<char>) -> bool {
    &&& forall|k: int| 0 <= k < url.len() ==> !is_space(#[trigger] url[k]) && !is_control(url[k])
    &&& begins_nocase(url, http()) || begins_nocase(url, https()) || begins_nocase(url, mailto())
}

fn has_scheme(s: &[char], scheme: &str) -> (r: bool)
    ensures
        r == begins_nocase(s@, scheme@),
{
    let mut i: usize = 0;
    for c in it: scheme.chars()
        invariant
            it.seq() == scheme@,
            i == it.index(),
            i <= s@.len(),
            forall|k: int| 0 <= k < i ==> lower(#[trigger] s@[k]) == lower(scheme@[k]),
    {
        if i >= s.len() {
            return false;
        }
        if to_lower(s[i]) != to_lower(c) {
            assert(lower(s@[i as int]) != lower(scheme@[i as int]));
            return false;
        }
        i += 1;
    }
    true
}

/// Whether `url` may be handed to the operating system's URL opener. Link
/// targets come from anyone who can write a note, and an opener runs whatever
/// owns the scheme, so this is an allowlist: `http://`, `https://` and
/// `mailto:`, in any case. Whitespace and control characters anywhere are a
/// rejection, since openers strip them.
pub fn is_safe_external_url(url: &str) -> (r: bool)
    ensures
        r == safe_url(url@),
{
    let t = Text::new(url);
    let s = t.chars.as_slice();
    let mut i: usize = 0;
    while i < s.len()
        invariant
            s@ == url@,
            i <= s@.len(),
            forall|k: int| 0 <= k < i ==> !is_space(#[trigger] url@[k]) && !is_control(url@[k]),
        decreases s.len() - i,
    {
        if space(s[i]) || control(s[i]) {
            assert(is_space(url@[i as int]) || is_control(url@[i as int]));
            return false;
        }
        i += 1;
    }
    proof {
        reveal_strlit("http://");
        reveal_strlit("https://");
        reveal_strlit("mailto:");
        assert("http://"@ =~= http());
        assert("https://"@ =~= https());
        assert("mailto:"@ =~= mailto());
    }
    has_scheme(s, "http://") || has_scheme(s, "https://") || has_scheme(s, "mailto:")
}

} // verus!
