//! Block ids, headings, and the parts of a page that they name.
use crate::links;
use crate::links::all_id_at;
use crate::math;
use crate::text;
use crate::text::{
    count_run, find_char, find_pair, line_end_at, looks_at, part, rfind_str, same, skip_space,
    skip_space_back, to_lower, to_lowercase, to_string, trim_range, Text,
};
use std::ops::Range;
use vstd::prelude::*;

verus! {

// --- Block ids ---

/// ` ^`.
pub open spec fn caret_mark() -> Seq<char> {
    seq![' ', '^']
}

/// The anchor at the end of a line: where its space stands, and the id.
pub open spec fn block_id_of(line: Seq<char>) -> Option<(int, Seq<char>)> {
    let t = text::trim_end(line);
    match text::last_index_of_str(t, caret_mark(), t.len() as int) {
        Some(i) => if t.skip(i + 2).len() > 0 && links::all_id(t.skip(i + 2)) {
            Some((i, t.skip(i + 2)))
        } else {
            None
        },
        None => None,
    }
}

pub(crate) fn find_block_id(s: &[char]) -> (r: Option<(usize, usize)>)
    ensures
        r is Some == block_id_of(s@) is Some,
        r is Some ==> {
            let (i, e) = r->0;
            &&& i + 2 < e <= s@.len()
            &&& i as int == (block_id_of(s@)->0).0
            &&& s@.subrange(i + 2, e as int) == (block_id_of(s@)->0).1
        },
{
    let n: usize = s.len();
    let e: usize = skip_space_back(s, n);
    let t = part(s, 0, e);
    assert(t@ =~= text::trim_end(s@));
    proof {
        reveal_strlit(" ^");
        assert(" ^"@ =~= caret_mark());
    }
    match rfind_str(t, " ^", e) {
        Some(i) => {
            let id = part(t, i + 2, e);
            assert(id@ =~= t@.skip(i + 2));
            if id.len() == 0 || !all_id_at(id) {
                return None;
            }
            assert(s@.subrange(i + 2, e as int) =~= id@);
            Some((i, e))
        },
        None => None,
    }
}

/// The block-id anchor at the end of `line` (` ^some-id`): the byte where its
/// leading space starts, and the id itself. The id must be non-empty, made of
/// word characters and `-`, and sit at the line's end (trailing whitespace
/// tolerated).
pub fn block_id(line: &str) -> (r: Option<(usize, &str)>)
    ensures
        r is Some == block_id_of(line@) is Some,
        r is Some ==> (r->0).0 == text::offset(line@, (block_id_of(line@)->0).0) && (r->0).1@ == (
        block_id_of(line@)->0).1,
{
    let t = Text::new(line);
    match find_block_id(t.chars.as_slice()) {
        Some((i, e)) => {
            assert(t.offs@[i as int] == text::offset(line@, i as int));
            Some((t.offs[i], line.substring_char(i + 2, e)))
        },
        None => None,
    }
}

// --- Splitting link targets ---

/// A target split into page and block id at the first `#^`, where both sides
/// hold something.
pub open spec fn block_anchor(target: Seq<char>) -> Option<(Seq<char>, Seq<char>)> {
    match text::index_of_str(target, seq!['#', '^'], 0) {
        Some(i) => if i > 0 && target.skip(i + 2).len() > 0 {
            Some((target.take(i), target.skip(i + 2)))
        } else {
            None
        },
        None => None,
    }
}

/// Splits a wiki-link target into `(page, block id)`: `Note#^id` links to the
/// block carrying `^id` on the page `Note`; anything else is a plain page
/// target. Only the `#^` form is an anchor: a bare `#` stays part of the title.
pub fn split_block_anchor(target: &str) -> (r: (&str, Option<&str>))
    ensures
        r.1 is Some == block_anchor(target@) is Some,
        r.1 is Some ==> (r.0@, r.1->0@) == block_anchor(target@)->0,
        r.1 is None ==> r.0@ == target@,
{
    let t = Text::new(target);
    let s = t.chars.as_slice();
    let n: usize = s.len();
    if let Some(i) = find_pair(s, '#', '^', 0) {
        if i > 0 && i + 2 < n {
            let page = target.substring_char(0, i);
            let id = target.substring_char(i + 2, n);
            assert(page@ =~= target@.take(i as int));
            assert(id@ =~= target@.skip(i + 2));
            return (page, Some(id));
        }
    }
    (target, None)
}

/// `.pdf`.
pub open spec fn pdf() -> Seq<char> {
    seq!['.', 'p', 'd', 'f']
}

/// Whether a page is a PDF by its name, in any case.
pub open spec fn is_pdf(page: Seq<char>) -> bool {
    text::ends(text::ascii_lower(page), pdf())
}

/// A target split into page and heading at the first `#`.
pub open spec fn heading_anchor(target: Seq<char>) -> Option<(Seq<char>, Seq<char>)> {
    match text::index_of(target, '#', 0) {
        Some(i) => {
            let page = target.take(i);
            let heading = target.skip(i + 1);
            if page.len() > 0 && text::trim(heading).len() > 0 && heading[0] != '^' && !is_pdf(
                page,
            ) {
                Some((page, heading))
            } else {
                None
            }
        },
        None => None,
    }
}

fn pdf_at(s: &[char]) -> (r: bool)
    ensures
        r == is_pdf(s@),
{
    let n: usize = s.len();
    let ghost low = text::ascii_lower(s@);
    if n < 4 {
        return false;
    }
    let r = to_lower(s[n - 4]) == '.' && to_lower(s[n - 3]) == 'p' && to_lower(s[n - 2]) == 'd'
        && to_lower(s[n - 1]) == 'f';
    proof {
        let tail = low.subrange(n - 4, n as int);
        assert(tail[0] == text::lower(s@[n - 4]));
        assert(tail[1] == text::lower(s@[n - 3]));
        assert(tail[2] == text::lower(s@[n - 2]));
        assert(tail[3] == text::lower(s@[n - 1]));
        if r {
            assert(tail =~= pdf());
        }
    }
    r
}

/// Splits a wiki-link target into `(page, heading)`: `Note#My Heading` links to
/// the heading on the page `Note`. Splits at the first `#` when both sides are
/// non-empty and the page part is no PDF. Block anchors (`#^`) are not split.
pub fn split_heading_anchor(target: &str) -> (r: (&str, Option<&str>))
    ensures
        r.1 is Some == heading_anchor(target@) is Some,
        r.1 is Some ==> (r.0@, r.1->0@) == heading_anchor(target@)->0,
        r.1 is None ==> r.0@ == target@,
{
    let t = Text::new(target);
    let s = t.chars.as_slice();
    let n: usize = s.len();
    if let Some(i) = find_char(s, '#', 0) {
        let page = part(s, 0, i);
        let heading = part(s, i + 1, n);
        assert(page@ =~= target@.take(i as int));
        assert(heading@ =~= target@.skip(i + 1));
        let (a, b) = trim_range(heading);
        if i > 0 && a < b && heading[0] != '^' && !pdf_at(page) {
            let left = target.substring_char(0, i);
            let right = target.substring_char(i + 1, n);
            assert(left@ =~= page@);
            assert(right@ =~= heading@);
            return (left, Some(right));
        }
    }
    (target, None)
}

// --- Finding lines ---

/// The level of an ATX heading line without its indent: how many hashes lead,
/// where a space follows them. 0 where it is no heading.
pub open spec fn heading_level(t: Seq<char>) -> nat {
    let h = text::run_of(t, '#', 0);
    if h > 0 && h < t.len() && t[h as int] == ' ' {
        h
    } else {
        0
    }
}

/// Whether `line` is a heading of level one to six whose text in lower case is
/// `want`.
pub open spec fn is_heading(line: Seq<char>, want: Seq<char>) -> bool {
    let t = text::trim_start(line);
    let h = heading_level(t);
    1 <= h <= 6 && text::lowercase(text::trim(t.skip(h + 1int))) == want
}

/// Whether `line` opens or closes a code fence.
pub open spec fn is_fence(line: Seq<char>) -> bool {
    text::begins(text::trim_start(line), math::ticks())
}

/// The start of the first line at or after `i` that is the heading `want`
/// outside fenced code.
pub open spec fn heading_line(s: Seq<char>, want: Seq<char>, i: int, fenced: bool) -> Option<int>
    decreases s.len() + 1 - i,
{
    if i < 0 || i > s.len() {
        None
    } else {
        proof {
            text::lemma_index_of(s, '\n', i);
        }
        let e = text::line_end_from(s, i);
        let line = s.subrange(i, e);
        if is_fence(line) {
            heading_line(s, want, e + 1, !fenced)
        } else if !fenced && is_heading(line, want) {
            Some(i)
        } else {
            heading_line(s, want, e + 1, fenced)
        }
    }
}

fn fence_at(line: &[char]) -> (r: bool)
    ensures
        r == is_fence(line@),
{
    let a: usize = skip_space(line, 0);
    let n: usize = line.len();
    let t = part(line, a, n);
    assert(t@ =~= text::trim_start(line@));
    proof {
        reveal_strlit("```");
        assert("```"@ =~= math::ticks());
    }
    looks_at(t, 0, "```")
}

fn level_at(t: &[char]) -> (r: usize)
    ensures
        r as nat == heading_level(t@),
        r > 0 ==> r < t@.len(),
{
    let h: usize = count_run(t, '#', 0);
    if h > 0 && h < t.len() && t[h] == ' ' {
        h
    } else {
        0
    }
}

fn heading_at(line: &[char], want: &str) -> (r: bool)
    ensures
        r == is_heading(line@, want@),
{
    let a: usize = skip_space(line, 0);
    let n: usize = line.len();
    let t = part(line, a, n);
    assert(t@ =~= text::trim_start(line@));
    let h: usize = level_at(t);
    if h < 1 || h > 6 {
        return false;
    }
    let m: usize = t.len();
    let body = part(t, h + 1, m);
    assert(body@ =~= t@.skip(h + 1));
    let (c, d) = trim_range(body);
    let low = to_lowercase(part(body, c, d));
    let l = Text::new(low.as_str());
    same(l.chars.as_slice(), want)
}

/// The character where the heading line starts.
fn find_heading(s: &[char], want: &str) -> (r: Option<usize>)
    ensures
        r is Some == heading_line(s@, want@, 0, false) is Some,
        r is Some ==> r->0 as int == heading_line(s@, want@, 0, false)->0 && r->0 <= s@.len(),
{
    let n: usize = s.len();
    let mut i: usize = 0;
    let mut fenced = false;
    loop
        invariant
            i <= n == s@.len(),
            heading_line(s@, want@, 0, false) == heading_line(s@, want@, i as int, fenced),
        decreases n - i,
    {
        let e: usize = line_end_at(s, i);
        let line = part(s, i, e);
        if fence_at(line) {
            fenced = !fenced;
        } else if !fenced && heading_at(line, want) {
            return Some(i);
        }
        if e == n {
            assert(heading_line(s@, want@, n + 1, fenced) is None);
            return None;
        }
        i = e + 1;
    }
}

/// What a heading is searched by: its text, trimmed, in lower case.
pub open spec fn wanted(heading: Seq<char>) -> Seq<char> {
    text::lowercase(text::trim(heading))
}

fn want_of(heading: &str) -> (r: String)
    ensures
        r@ == wanted(heading@),
{
    let t = Text::new(heading);
    let s = t.chars.as_slice();
    let (a, b) = trim_range(s);
    to_lowercase(part(s, a, b))
}

/// The byte offset of the start of the line carrying the ATX heading whose text
/// matches `heading` (case-insensitive, trimmed; fenced code skipped),
/// searching top to bottom.
pub fn find_heading_line(content: &str, heading: &str) -> (r: Option<usize>)
    ensures
        r is Some == heading_line(content@, wanted(heading@), 0, false) is Some,
        r is Some ==> r->0 == text::offset(
            content@,
            heading_line(content@, wanted(heading@), 0, false)->0,
        ),
{
    let want = want_of(heading);
    let t = Text::new(content);
    match find_heading(t.chars.as_slice(), want.as_str()) {
        Some(i) => {
            assert(t.offs@[i as int] == text::offset(content@, i as int));
            Some(t.offs[i])
        },
        None => None,
    }
}

/// Whether `line` carries the block anchor `id`.
pub open spec fn carries(line: Seq<char>, id: Seq<char>) -> bool {
    block_id_of(line) is Some && (block_id_of(line)->0).1 == id
}

/// The start of the first line at or after `i` that carries the block anchor
/// `id`.
pub open spec fn block_line(s: Seq<char>, id: Seq<char>, i: int) -> Option<int>
    decreases s.len() + 1 - i,
{
    if i < 0 || i > s.len() {
        None
    } else {
        proof {
            text::lemma_index_of(s, '\n', i);
        }
        let e = text::line_end_from(s, i);
        if carries(s.subrange(i, e), id) {
            Some(i)
        } else {
            block_line(s, id, e + 1)
        }
    }
}

fn find_block(s: &[char], id: &str) -> (r: Option<usize>)
    ensures
        r is Some == block_line(s@, id@, 0) is Some,
        r is Some ==> r->0 as int == block_line(s@, id@, 0)->0 && r->0 <= s@.len(),
{
    let n: usize = s.len();
    let mut i: usize = 0;
    loop
        invariant
            i <= n == s@.len(),
            block_line(s@, id@, 0) == block_line(s@, id@, i as int),
        decreases n - i,
    {
        let e: usize = line_end_at(s, i);
        let line = part(s, i, e);
        if let Some((a, b)) = find_block_id(line) {
            if same(part(line, a + 2, b), id) {
                return Some(i);
            }
        }
        if e == n {
            assert(block_line(s@, id@, n + 1) is None);
            return None;
        }
        i = e + 1;
    }
}

/// The byte offset of the start of the line carrying the block anchor `^id`,
/// searching top to bottom.
pub fn find_block_line(content: &str, id: &str) -> (r: Option<usize>)
    ensures
        r is Some == block_line(content@, id@, 0) is Some,
        r is Some ==> r->0 == text::offset(content@, block_line(content@, id@, 0)->0),
{
    let t = Text::new(content);
    match find_block(t.chars.as_slice(), id) {
        Some(i) => {
            assert(t.offs@[i as int] == text::offset(content@, i as int));
            Some(t.offs[i])
        },
        None => None,
    }
}

// --- Embeds ---

/// The target of a line that is exactly `![[target]]`.
pub open spec fn embed_of(line: Seq<char>) -> Option<Seq<char>> {
    let t = text::trim(line);
    if t.len() >= 5 && text::begins(t, seq!['!', '[', '[']) && text::ends(t, seq![']', ']']) {
        let inner = t.subrange(3, t.len() - 2);
        if text::trim(inner).len() > 0 && !text::holds_str(inner, seq![']', ']']) {
            Some(text::trim(inner))
        } else {
            None
        }
    } else {
        None
    }
}

fn find_embed(line: &[char]) -> (r: Option<(usize, usize)>)
    ensures
        r is Some == embed_of(line@) is Some,
        r is Some ==> (r->0).0 <= (r->0).1 <= line@.len() && line@.subrange(
            (r->0).0 as int,
            (r->0).1 as int,
        ) == embed_of(line@)->0,
{
    let (a, b) = trim_range(line);
    let t = part(line, a, b);
    let n: usize = t.len();
    if n < 5 {
        return None;
    }
    proof {
        reveal_strlit("![[");
        reveal_strlit("]]");
        assert("![["@ =~= seq!['!', '[', '[']);
        assert("]]"@ =~= seq![']', ']']);
    }
    if !looks_at(t, 0, "![[") || !looks_at(t, n - 2, "]]") {
        return None;
    }
    let inner = part(t, 3, n - 2);
    let (c, d) = trim_range(inner);
    if c == d || find_pair(inner, ']', ']', 0).is_some() {
        return None;
    }
    assert(line@.subrange(a + 3 + c, a + 3 + d) =~= inner@.subrange(c as int, d as int));
    Some((a + 3 + c, a + 3 + d))
}

/// The embed target when `line` is a standalone transclusion: exactly
/// `![[target]]` and nothing else on the line. Mid-text embeds do not count.
pub fn embed_line(line: &str) -> (r: Option<&str>)
    ensures
        r is Some == embed_of(line@) is Some,
        r is Some ==> r->0@ == embed_of(line@)->0,
{
    let t = Text::new(line);
    match find_embed(t.chars.as_slice()) {
        Some((a, b)) => Some(line.substring_char(a, b)),
        None => None,
    }
}

/// The targets of the first `n` lines that are embeds, in order.
pub open spec fn embeds_upto(lines: Seq<Seq<char>>, n: int) -> Seq<Seq<char>>
    decreases n,
{
    if n <= 0 {
        seq![]
    } else {
        match embed_of(lines[n - 1]) {
            Some(t) => embeds_upto(lines, n - 1).push(t),
            None => embeds_upto(lines, n - 1),
        }
    }
}

/// The targets of every line of a page that is an embed, in order.
pub open spec fn embeds_of(s: Seq<char>) -> Seq<Seq<char>> {
    embeds_upto(text::lines_of(s), text::lines_of(s).len() as int)
}

/// Every standalone embed target in `content`, in order.
pub fn embed_targets(content: &str) -> (r: Vec<String>)
    ensures
        text::views(r@) == embeds_of(content@),
{
    let t = Text::new(content);
    let s = t.chars.as_slice();
    let rows = text::split_lines(s);
    let ghost lines = text::lines_of(content@);
    let mut out: Vec<String> = Vec::new();
    let mut k: usize = 0;
    assert(text::views(out@) =~= seq![]);
    while k < rows.len()
        invariant
            s@ == content@,
            lines == text::lines_of(content@),
            rows@.len() == lines.len(),
            forall|k: int|
                #![trigger rows@[k]]
                #![trigger lines[k]]
                0 <= k < rows@.len() ==> rows@[k].0 <= rows@[k].1 <= s@.len() && s@.subrange(
                    rows@[k].0 as int,
                    rows@[k].1 as int,
                ) == lines[k],
            k <= rows@.len(),
            text::views(out@) == embeds_upto(lines, k as int),
        decreases rows.len() - k,
    {
        let ghost acc = text::views(out@);
        assert(rows@[k as int].0 <= rows@[k as int].1);
        let line = part(s, rows[k].0, rows[k].1);
        if let Some((a, b)) = find_embed(line) {
            let target = to_string(part(line, a, b));
            out.push(target);
            assert(text::views(out@) =~= acc.push(embed_of(lines[k as int])->0));
        }
        k += 1;
    }
    out
}

// --- Extraction ---

/// The source range, in bytes, of the block carrying the anchor `^id`: its
/// whole line.
pub fn extract_block(content: &str, id: &str) -> (r: Option<Range<usize>>)
    ensures
        r is Some == block_line(content@, id@, 0) is Some,
        r is Some ==> {
            let i = block_line(content@, id@, 0)->0;
            &&& r->0.start == text::offset(content@, i)
            &&& r->0.end == text::offset(content@, text::line_end_from(content@, i))
        },
{
    let t = Text::new(content);
    let s = t.chars.as_slice();
    match find_block(s, id) {
        Some(i) => {
            let e: usize = line_end_at(s, i);
            assert(t.offs@[i as int] == text::offset(content@, i as int));
            assert(t.offs@[e as int] == text::offset(content@, e as int));
            Some(Range { start: t.offs[i], end: t.offs[e] })
        },
        None => None,
    }
}

/// Where a section of `level` ends, looking from the line start `i` on: before
/// the next heading of the same or a higher level outside fenced code, or at
/// the end of the page.
pub open spec fn section_end(s: Seq<char>, level: nat, i: int, fenced: bool) -> int
    decreases s.len() + 1 - i,
{
    if i < 0 || i >= s.len() {
        s.len() as int
    } else {
        proof {
            text::lemma_index_of(s, '\n', i);
        }
        let e = text::line_end_from(s, i);
        let line = s.subrange(i, e);
        if is_fence(line) {
            section_end(s, level, e + 1, !fenced)
        } else if !fenced && 1 <= heading_level(text::trim_start(line)) <= level {
            i - 1
        } else {
            section_end(s, level, e + 1, fenced)
        }
    }
}

/// The section that starts with the heading line at `i`.
pub open spec fn section_of(s: Seq<char>, i: int) -> int {
    let e = text::line_end_from(s, i);
    section_end(s, heading_level(text::trim_start(s.subrange(i, e))), e + 1, false)
}

fn find_section_end(s: &[char], level: usize, from: usize) -> (r: usize)
    requires
        1 <= from,
    ensures
        r as int == section_end(s@, level as nat, from as int, false),
        r <= s@.len(),
{
    let n: usize = s.len();
    if from > n {
        return n;
    }
    let mut i: usize = from;
    let mut fenced = false;
    while i < n
        invariant
            1 <= i <= n == s@.len(),
            section_end(s@, level as nat, from as int, false) == section_end(
                s@,
                level as nat,
                i as int,
                fenced,
            ),
        decreases n - i,
    {
        let e: usize = line_end_at(s, i);
        let line = part(s, i, e);
        if fence_at(line) {
            fenced = !fenced;
        } else if !fenced {
            let a: usize = skip_space(line, 0);
            let m: usize = line.len();
            let t = part(line, a, m);
            assert(t@ =~= text::trim_start(line@));
            let h: usize = level_at(t);
            if 1 <= h && h <= level {
                return i - 1;
            }
        }
        if e == n {
            assert(section_end(s@, level as nat, n + 1, fenced) == n);
            return n;
        }
        i = e + 1;
    }
    n
}

/// The source range, in bytes, of the section under `heading`: the heading line
/// through the line before the next heading of the same or higher level (fenced
/// code skipped).
pub fn extract_section(content: &str, heading: &str) -> (r: Option<Range<usize>>)
    ensures
        r is Some == heading_line(content@, wanted(heading@), 0, false) is Some,
        r is Some ==> {
            let i = heading_line(content@, wanted(heading@), 0, false)->0;
            &&& r->0.start == text::offset(content@, i)
            &&& r->0.end == text::offset(content@, section_of(content@, i))
        },
{
    let want = want_of(heading);
    let t = Text::new(content);
    let s = t.chars.as_slice();
    let n: usize = s.len();
    match find_heading(s, want.as_str()) {
        Some(i) => {
            let e: usize = line_end_at(s, i);
            let line = part(s, i, e);
            let a: usize = skip_space(line, 0);
            let m: usize = line.len();
            let head = part(line, a, m);
            assert(head@ =~= text::trim_start(line@));
            let level: usize = level_at(head);
            let end: usize = if e == n {
                n
            } else {
                find_section_end(s, level, e + 1)
            };
            assert(t.offs@[i as int] == text::offset(content@, i as int));
            assert(t.offs@[end as int] == text::offset(content@, end as int));
            Some(Range { start: t.offs[i], end: t.offs[end] })
        },
        None => None,
    }
}

// --- Laws ---

proof fn lemma_heading_line(s: Seq<char>, want: Seq<char>, i: int, fenced: bool)
    requires
        0 <= i,
    ensures
        heading_line(s, want, i, fenced) is Some ==> {
            let k = heading_line(s, want, i, fenced)->0;
            &&& i <= k <= s.len()
            &&& is_heading(s.subrange(k, text::line_end_from(s, k)), want)
        },
    decreases s.len() + 1 - i,
{
    if i <= s.len() {
        text::lemma_index_of(s, '\n', i);
        let e = text::line_end_from(s, i);
        lemma_heading_line(s, want, e + 1, fenced);
        lemma_heading_line(s, want, e + 1, !fenced);
    }
}

proof fn lemma_section_end(s: Seq<char>, level: nat, i: int, fenced: bool)
    requires
        0 <= i,
    ensures
        section_end(s, level, i, fenced) <= s.len(),
        i <= s.len() ==> i - 1 <= section_end(s, level, i, fenced),
    decreases s.len() + 1 - i,
{
    if i < s.len() {
        text::lemma_index_of(s, '\n', i);
        let e = text::line_end_from(s, i);
        lemma_section_end(s, level, e + 1, fenced);
        lemma_section_end(s, level, e + 1, !fenced);
    }
}

/// A section starts with the heading it was asked for and holds that line
/// whole.
pub proof fn law_section_holds_its_heading(s: Seq<char>, want: Seq<char>)
    requires
        heading_line(s, want, 0, false) is Some,
    ensures
        ({
            let i = heading_line(s, want, 0, false)->0;
            let e = text::line_end_from(s, i);
            &&& is_heading(s.subrange(i, e), want)
            &&& 0 <= i <= e <= section_of(s, i) <= s.len()
        }),
{
    lemma_heading_line(s, want, 0, false);
    let i = heading_line(s, want, 0, false)->0;
    text::lemma_index_of(s, '\n', i);
    let e = text::line_end_from(s, i);
    lemma_section_end(s, heading_level(text::trim_start(s.subrange(i, e))), e + 1, false);
}

/// Whether a line starts at `m`.
pub open spec fn starts_line(s: Seq<char>, m: int) -> bool {
    0 <= m <= s.len() && (m == 0 || s[m - 1] == '\n')
}

/// The line that starts at `m`.
pub open spec fn line_at(s: Seq<char>, m: int) -> Seq<char> {
    s.subrange(m, text::line_end_from(s, m))
}

/// Whether a code fence is open at the line that starts at `m`, where it was
/// `fenced` at the line that starts at `i`.
pub open spec fn fence_open(s: Seq<char>, i: int, m: int, fenced: bool) -> bool
    decreases s.len() + 1 - i,
{
    if i < 0 || i >= m || i > s.len() {
        fenced
    } else {
        proof {
            text::lemma_index_of(s, '\n', i);
        }
        let e = text::line_end_from(s, i);
        fence_open(s, e + 1, m, if is_fence(line_at(s, i)) { !fenced } else { fenced })
    }
}

/// Whether the line at `m` is a heading that ends a section of `level`: outside
/// fenced code, and of the same or a higher level.
pub open spec fn ends_section(s: Seq<char>, level: nat, i: int, m: int, fenced: bool) -> bool {
    &&& !fence_open(s, i, m, fenced)
    &&& !is_fence(line_at(s, m))
    &&& 1 <= heading_level(text::trim_start(line_at(s, m))) <= level
}

proof fn lemma_next_line(s: Seq<char>, i: int, m: int)
    requires
        0 <= i < m,
        starts_line(s, m),
    ensures
        text::line_end_from(s, i) + 1 <= m,
        starts_line(s, text::line_end_from(s, i) + 1),
{
    text::lemma_index_of(s, '\n', i);
}

proof fn lemma_no_end_inside(s: Seq<char>, level: nat, i: int, fenced: bool, m: int)
    requires
        0 <= i <= m < s.len(),
        starts_line(s, m),
        m <= section_end(s, level, i, fenced),
    ensures
        !ends_section(s, level, i, m, fenced),
    decreases m - i,
{
    if i < m {
        lemma_next_line(s, i, m);
        text::lemma_index_of(s, '\n', i);
        let e = text::line_end_from(s, i);
        if is_fence(line_at(s, i)) {
            lemma_no_end_inside(s, level, e + 1, !fenced, m);
        } else {
            lemma_no_end_inside(s, level, e + 1, fenced, m);
        }
    }
}

proof fn lemma_end_is_a_heading(s: Seq<char>, level: nat, i: int, fenced: bool)
    requires
        0 < i,
        i <= s.len() ==> starts_line(s, i),
        section_end(s, level, i, fenced) < s.len(),
    ensures
        ({
            let e = section_end(s, level, i, fenced);
            i - 1 <= e && s[e] == '\n' && ends_section(s, level, i, e + 1, fenced)
        }),
    decreases s.len() + 1 - i,
{
    if i < s.len() {
        text::lemma_index_of(s, '\n', i);
        let e = text::line_end_from(s, i);
        let line = s.subrange(i, e);
        if is_fence(line) {
            lemma_end_is_a_heading(s, level, e + 1, !fenced);
        } else if !fenced && 1 <= heading_level(text::trim_start(line)) <= level {
        } else {
            lemma_end_is_a_heading(s, level, e + 1, fenced);
        }
    }
}

/// A section is as long as it can be and no longer: below its heading no line
/// outside fenced code is a heading of the same or a higher level, and the
/// section runs to the end of the page or to the line before such a heading.
pub proof fn law_section_stops_at_the_next_heading(s: Seq<char>, want: Seq<char>)
    requires
        heading_line(s, want, 0, false) is Some,
    ensures
        ({
            let i = heading_line(s, want, 0, false)->0;
            let below = text::line_end_from(s, i) + 1;
            let level = heading_level(text::trim_start(line_at(s, i)));
            let end = section_of(s, i);
            &&& forall|m: int|
                below <= m <= end && m < s.len() && #[trigger] starts_line(s, m) ==> !ends_section(
                    s,
                    level,
                    below,
                    m,
                    false,
                )
            &&& end == s.len() || (s[end] == '\n' && ends_section(s, level, below, end + 1, false))
        }),
{
    law_section_holds_its_heading(s, want);
    let i = heading_line(s, want, 0, false)->0;
    text::lemma_index_of(s, '\n', i);
    let below = text::line_end_from(s, i) + 1;
    let level = heading_level(text::trim_start(line_at(s, i)));
    let end = section_of(s, i);
    assert forall|m: int|
        below <= m <= end && m < s.len() && #[trigger] starts_line(s, m) implies !ends_section(
        s,
        level,
        below,
        m,
        false,
    ) by {
        lemma_no_end_inside(s, level, below, false, m);
    }
    if end < s.len() {
        lemma_end_is_a_heading(s, level, below, false);
    }
}

proof fn lemma_block_line(s: Seq<char>, id: Seq<char>, i: int)
    requires
        0 <= i,
        i <= s.len() ==> starts_line(s, i),
    ensures
        block_line(s, id, i) is Some ==> {
            let k = block_line(s, id, i)->0;
            &&& i <= k <= s.len()
            &&& starts_line(s, k)
            &&& carries(line_at(s, k), id)
        },
        forall|m: int|
            i <= m && #[trigger] starts_line(s, m) && (block_line(s, id, i) is Some ==> m
                < block_line(s, id, i)->0) ==> !carries(line_at(s, m), id),
    decreases s.len() + 1 - i,
{
    if i <= s.len() {
        text::lemma_index_of(s, '\n', i);
        let e = text::line_end_from(s, i);
        if !carries(s.subrange(i, e), id) {
            lemma_block_line(s, id, e + 1);
            assert forall|m: int|
                i <= m && #[trigger] starts_line(s, m) && (block_line(s, id, i) is Some ==> m
                    < block_line(s, id, i)->0) implies !carries(line_at(s, m), id) by {
                if i < m {
                    lemma_next_line(s, i, m);
                }
            }
        }
    }
}

/// The block that an id finds is the first line that carries that id, whole, and
/// none is found only where no line carries it.
pub proof fn law_block_carries_its_id(s: Seq<char>, id: Seq<char>)
    ensures
        block_line(s, id, 0) is Some ==> {
            let k = block_line(s, id, 0)->0;
            let e = text::line_end_from(s, k);
            &&& starts_line(s, k)
            &&& carries(s.subrange(k, e), id)
            &&& k <= e <= s.len() && (e == s.len() || s[e] == '\n')
            &&& forall|j: int| k <= j < e ==> s[j] != '\n'
            &&& forall|m: int|
                m < k && #[trigger] starts_line(s, m) ==> !carries(line_at(s, m), id)
        },
        block_line(s, id, 0) is None ==> forall|m: int| #[trigger]
            starts_line(s, m) ==> !carries(line_at(s, m), id),
{
    lemma_block_line(s, id, 0);
    if let Some(k) = block_line(s, id, 0) {
        text::lemma_index_of(s, '\n', k);
    }
}

proof fn lemma_embeds_concat(a: Seq<Seq<char>>, b: Seq<Seq<char>>, n: int)
    requires
        0 <= n <= b.len(),
    ensures
        embeds_upto(a + b, a.len() + n) == embeds_upto(a, a.len() as int) + embeds_upto(b, n),
    decreases n,
{
    if n > 0 {
        lemma_embeds_concat(a, b, n - 1);
        assert((a + b)[a.len() + n - 1] == b[n - 1]);
        assert(embeds_upto(a + b, a.len() + n) =~= embeds_upto(a, a.len() as int) + embeds_upto(
            b,
            n,
        ));
    } else {
        lemma_embeds_prefix(a, b, a.len() as int);
        assert(embeds_upto(a, a.len() as int) + embeds_upto(b, 0) =~= embeds_upto(
            a,
            a.len() as int,
        ));
    }
}

proof fn lemma_embeds_prefix(a: Seq<Seq<char>>, b: Seq<Seq<char>>, n: int)
    requires
        0 <= n <= a.len(),
    ensures
        embeds_upto(a + b, n) == embeds_upto(a, n),
    decreases n,
{
    if n > 0 {
        lemma_embeds_prefix(a, b, n - 1);
        assert((a + b)[n - 1] == a[n - 1]);
    }
}

/// The embeds of two pages, one below the other, are those of the first and then
/// those of the second, none left out and none twice; a single line has its own
/// or none.
pub proof fn law_embeds_line_by_line(a: Seq<char>, b: Seq<char>)
    ensures
        embeds_of(a + seq!['\n'] + b) == embeds_of(a) + embeds_of(b),
        !a.contains('\n') ==> embeds_of(a) == match embed_of(a) {
            Some(t) => seq![t],
            None => seq![],
        },
{
    let x = text::lines_of(a);
    let y = text::lines_of(b);
    text::lemma_lines_concat(a, b);
    lemma_embeds_concat(x, y, y.len() as int);
    if !a.contains('\n') {
        text::lemma_index_of(a, '\n', 0);
        assert(a.skip(0) =~= a);
        assert(x =~= seq![a]);
        assert(embeds_upto(x, 0) =~= seq![]);
        assert(embeds_upto(x, 1) =~= match embed_of(a) {
            Some(t) => seq![t],
            None => seq![],
        });
    }
}

/// A split target can be put together again.
pub proof fn law_anchors_split_losslessly(target: Seq<char>)
    ensures
        block_anchor(target) is Some ==> target == (block_anchor(target)->0).0 + seq!['#', '^'] + (
        block_anchor(target)->0).1,
        heading_anchor(target) is Some ==> target == (heading_anchor(target)->0).0 + seq!['#'] + (
        heading_anchor(target)->0).1,
        block_anchor(target) is Some && heading_anchor(target) is Some ==> (heading_anchor(
            target,
        )->0).0.len() < (block_anchor(target)->0).0.len(),
{
    text::lemma_index_of_str(target, seq!['#', '^'], 0);
    text::lemma_index_of(target, '#', 0);
    if let Some((page, id)) = block_anchor(target) {
        let i = page.len() as int;
        assert(target.subrange(i, i + 2) == seq!['#', '^']);
        assert(target =~= page + target.subrange(i, i + 2) + id);
        assert(target[i] == target.subrange(i, i + 2)[0]);
        assert(target[i + 1] == target.subrange(i, i + 2)[1]);
        if let Some((p, h)) = heading_anchor(target) {
            let j = p.len() as int;
            assert(j <= i);
            if j == i {
                assert(h[0] == target[i + 1]);
            }
        }
    }
    if let Some((p, h)) = heading_anchor(target) {
        let j = p.len() as int;
        assert(target =~= p + seq!['#'] + h);
    }
}

} // verus!
