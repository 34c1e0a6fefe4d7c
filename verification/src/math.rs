//! Display math: recognising `$$` fences that share a line with words, and
//! splitting them onto lines of their own.
use crate::lists;
use crate::tables;
use crate::text::{
    begins, ends, find_pair, holds_str, index_of_str, is_space, join, join_lines,
    last_index_of_str, law_join_splits_back, lemma_index_of_str, lemma_last_index_of_str, lemma_solid_concat,
    lemma_solid_join, lemma_solid_lines_concat, lemma_solid_one, lemma_solid_trim, lemma_space_end,
    lemma_space_start, lines_of, looks_at, offset, part, same, skip_space, skip_space_back, solid,
    solid_lines, space,
    space_end, space_start, split_lines, stands_at, to_string, trim, trim_end, trim_range,
    trim_start, views, Text,
};
use std::borrow::Cow;
use vstd::prelude::*;

verus! {

/// `$$`.
pub open spec fn dollars() -> Seq<char> {
    seq!['$', '$']
}

/// Three backticks, which open and close a code fence.
pub open spec fn ticks() -> Seq<char> {
    seq!['`', '`', '`']
}

// --- Classifying lines ---

/// How a line carries one `$$` beside words: `Some(true)` where it trails (an
/// opener), `Some(false)` where it leads (a closer).
pub open spec fn fence_words(line: Seq<char>) -> Option<bool> {
    let t = trim(line);
    if t == dollars() {
        None
    } else if ends(t, dollars()) && !holds_str(t.take(t.len() - 2), dollars()) {
        Some(true)
    } else if begins(t, dollars()) && !holds_str(t.skip(2), dollars()) {
        Some(false)
    } else {
        None
    }
}

fn dollars_at(s: &[char], i: usize) -> (r: bool)
    ensures
        r == stands_at(s@, i as int, dollars()),
{
    proof {
        reveal_strlit("$$");
        assert("$$"@ =~= dollars());
    }
    looks_at(s, i, "$$")
}

fn is_dollars(s: &[char]) -> (r: bool)
    ensures
        r == (s@ == dollars()),
{
    proof {
        reveal_strlit("$$");
        assert("$$"@ =~= dollars());
    }
    same(s, "$$")
}

fn words_of(line: &[char]) -> (r: Option<bool>)
    ensures
        r == fence_words(line@),
{
    let (a, b) = trim_range(line);
    let t = part(line, a, b);
    let n: usize = t.len();
    if is_dollars(t) || n < 2 {
        return None;
    }
    let head = part(t, 0, n - 2);
    let tail = part(t, 2, n);
    assert(head@ =~= t@.take(n - 2));
    assert(tail@ =~= t@.skip(2));
    if dollars_at(t, n - 2) && find_pair(head, '$', '$', 0).is_none() {
        return Some(true);
    }
    if dollars_at(t, 0) && find_pair(tail, '$', '$', 0).is_none() {
        return Some(false);
    }
    None
}

/// Classifies a words-attached `$$` fence line: `Some(true)` for an opener
/// (`words $$`), `Some(false)` for a closer (`$$ words`). A bare `$$` and lines
/// whose `$$` pairs up on the same line classify as neither.
pub fn math_fence_words(line: &str) -> (r: Option<bool>)
    ensures
        r == fence_words(line@),
{
    let t = Text::new(line);
    words_of(t.chars.as_slice())
}

/// The ends of the one complete `$$…$$` pair of a line that also carries other
/// text: the first `$$` and the place behind the last, where what stands between
/// is not empty, holds no other `$$` and neither begins nor ends with
/// whitespace. Table rows have none.
pub open spec fn embedded(line: Seq<char>) -> Option<(int, int)> {
    if begins(trim_start(line), seq!['|']) {
        None
    } else {
        match (
            index_of_str(line, dollars(), 0),
            last_index_of_str(line, dollars(), line.len() as int),
        ) {
            (Some(s), Some(e)) => {
                let inner = line.subrange(s + 2, e);
                if e > s + 2 && !holds_str(inner, dollars()) && !is_space(inner[0]) && !is_space(
                    inner.last(),
                ) && (trim(line.take(s)).len() > 0 || trim(line.skip(e + 2)).len() > 0) {
                    Some((s, e + 2))
                } else {
                    None
                }
            },
            _ => None,
        }
    }
}

fn last_dollars(s: &[char]) -> (r: Option<usize>)
    ensures
        r is Some == last_index_of_str(s@, dollars(), s@.len() as int) is Some,
        r is Some ==> r->0 + 2 <= s@.len() && r->0 as int == last_index_of_str(
            s@,
            dollars(),
            s@.len() as int,
        )->0,
{
    proof {
        reveal_strlit("$$");
        assert("$$"@ =~= dollars());
    }
    crate::text::rfind_str(s, "$$", s.len())
}

fn pair_of(line: &[char]) -> (r: Option<(usize, usize)>)
    ensures
        r is Some == embedded(line@) is Some,
        r is Some ==> ((r->0).0 as int, (r->0).1 as int) == embedded(line@)->0 && (r->0).0 + 4 < (r->0).1
            <= line@.len(),
{
    let a: usize = skip_space(line, 0);
    let n: usize = line.len();
    let bar = a < n && line[a] == '|';
    proof {
        let t = trim_start(line@);
        assert(bar == begins(t, seq!['|'])) by {
            if a < n {
                assert(t[0] == line@[a as int]);
                assert(t.subrange(0, 1) =~= seq![t[0]]);
                assert(seq!['|'][0] == '|');
            }
        }
    }
    if bar {
        return None;
    }
    let s: usize = match find_pair(line, '$', '$', 0) {
        Some(s) => s,
        None => {
            return None;
        },
    };
    let e: usize = match last_dollars(line) {
        Some(e) => e,
        None => {
            return None;
        },
    };
    if e < s || e - s < 3 {
        return None;
    }
    let inner = part(line, s + 2, e);
    if find_pair(inner, '$', '$', 0).is_some() || space(inner[0]) || space(inner[inner.len() - 1]) {
        return None;
    }
    let (a, b) = trim_range(part(line, 0, s));
    let (c, d) = trim_range(part(line, e + 2, n));
    assert(line@.subrange(0, s as int) =~= line@.take(s as int));
    assert(line@.subrange(e + 2, n as int) =~= line@.skip(e + 2));
    if a == b && c == d {
        return None;
    }
    Some((s, e + 2))
}

/// A single complete `$$…$$` pair on a line that also carries other text, as
/// byte offsets, with strict inner rules (not empty, no interior `$$`, no
/// whitespace at the delimiters), so that prose about prices never matches.
/// Table rows keep their cells.
pub fn embedded_math(line: &str) -> (r: Option<(usize, usize)>)
    ensures
        r is Some == embedded(line@) is Some,
        r is Some ==> (r->0).0 == offset(line@, (embedded(line@)->0).0) && (r->0).1 == offset(
            line@,
            (embedded(line@)->0).1,
        ),
{
    let t = Text::new(line);
    match pair_of(t.chars.as_slice()) {
        Some((s, e)) => {
            assert(t.offs@[s as int] == offset(line@, s as int));
            assert(t.offs@[e as int] == offset(line@, e as int));
            Some((t.offs[s], t.offs[e]))
        },
        None => None,
    }
}

// --- Alignment markers ---

/// Alignment named by a `<!-- math:ALIGN -->` marker line.
#[derive(Clone, Copy, PartialEq, Eq, Debug, Structural)]
pub enum MathMarkerAlign {
    Left,
    Right,
}

/// The alignment that a marker line names.
pub open spec fn align_named(line: Seq<char>) -> Option<MathMarkerAlign> {
    match tables::without_prefix(trim(line), "<!--"@) {
        Some(a) => match tables::without_suffix(a, "-->"@) {
            Some(b) => match tables::without_prefix(trim(b), "math:"@) {
                Some(c) => if trim(c) == "left"@ {
                    Some(MathMarkerAlign::Left)
                } else if trim(c) == "right"@ {
                    Some(MathMarkerAlign::Right)
                } else {
                    None
                },
                None => None,
            },
            None => None,
        },
        None => None,
    }
}

/// The alignment named by the line directly above the block that starts at
/// character `i`.
pub open spec fn align_above(s: Seq<char>, i: int) -> Option<MathMarkerAlign> {
    if 0 < i <= s.len() && s[i - 1] == '\n' {
        align_named(s.subrange(crate::text::line_start_of(s, i - 1), i - 1))
    } else {
        None
    }
}

fn read_align(line: &[char]) -> (r: Option<MathMarkerAlign>)
    ensures
        r == align_named(line@),
{
    proof {
        reveal_strlit("<!--");
        reveal_strlit("-->");
        reveal_strlit("math:");
    }
    let (a, b) = trim_range(line);
    let t = part(line, a, b);
    let n: usize = t.len();
    if !looks_at(t, 0, "<!--") {
        return None;
    }
    let inner = part(t, 4, n);
    assert(inner@ =~= t@.skip(4));
    let m: usize = inner.len();
    if m < 3 || !looks_at(inner, m - 3, "-->") {
        return None;
    }
    let body = part(inner, 0, m - 3);
    assert(body@ =~= inner@.take(m - 3));
    let (c, d) = trim_range(body);
    let word = part(body, c, d);
    let k: usize = word.len();
    if !looks_at(word, 0, "math:") {
        return None;
    }
    let name = part(word, 5, k);
    assert(name@ =~= word@.skip(5));
    let (e, f) = trim_range(name);
    let name = part(name, e, f);
    if same(name, "left") {
        Some(MathMarkerAlign::Left)
    } else if same(name, "right") {
        Some(MathMarkerAlign::Right)
    } else {
        None
    }
}

/// The `<!-- math:ALIGN -->` marker on the line directly above the block
/// starting at byte `start`, if any. A marker separated by a blank line steers
/// nothing.
pub fn preceding_math_align(source: &str, start: Option<usize>) -> (r: Option<MathMarkerAlign>)
    requires
        start is Some ==> lists::caret_ok(source@, start->0 as int),
    ensures
        r == match start {
            Some(b) => align_above(source@, lists::caret(source@, b as int)),
            None => None,
        },
{
    match start {
        Some(b) => {
            let t = Text::new(source);
            find_align(&t, b)
        },
        None => None,
    }
}

/// The marker on the line directly above byte `b`.
pub(crate) fn find_align(t: &Text, b: usize) -> (r: Option<MathMarkerAlign>)
    requires
        t.wf(),
        lists::caret_ok(t@, b as int),
    ensures
        r == align_above(t@, lists::caret(t@, b as int)),
{
    let s = t.chars.as_slice();
    let (i, _, _) = lists::locate(t, b);
    if i > 0 && s[i - 1] == '\n' {
        let a: usize = crate::text::line_start_at(s, i - 1);
        read_align(part(s, a, i - 1))
    } else {
        None
    }
}

// --- Splitting fences onto their own lines ---

/// The line that closes an opener, looking from line `j` on: a bare `$$` or a
/// closer with words, before the next blank line and before any code fence.
pub open spec fn closer(lines: Seq<Seq<char>>, j: int) -> Option<int>
    decreases lines.len() - j,
{
    if j < 0 || j >= lines.len() || trim(lines[j]).len() == 0 || begins(
        trim(lines[j]),
        ticks(),
    ) {
        None
    } else if trim(lines[j]) == dollars() || fence_words(lines[j]) == Some(false) {
        Some(j)
    } else {
        closer(lines, j + 1)
    }
}

/// `s` as the only line, or no line at all where it is empty.
pub open spec fn line_if_any(s: Seq<char>) -> Seq<Seq<char>> {
    if s.len() > 0 {
        seq![s]
    } else {
        seq![]
    }
}

/// The lines that a complete pair becomes: the words before it, the pair, the
/// words behind it.
pub open spec fn pair_lines(line: Seq<char>, s: int, e: int) -> Seq<Seq<char>> {
    line_if_any(trim_end(line.take(s))) + seq![line.subrange(s, e)] + line_if_any(
        trim_start(line.skip(e)),
    )
}

/// The words before the trailing `$$` of an opener.
pub open spec fn opener_words(line: Seq<char>) -> Seq<char> {
    let t = trim_end(line);
    trim_end(t.take(t.len() - 2))
}

/// The words behind the leading `$$` of a closer.
pub open spec fn closer_words(line: Seq<char>) -> Seq<char> {
    trim_start(trim_start(line).skip(2))
}

/// The lines that an opener at `i`, closed at `j`, becomes with all between.
pub open spec fn block_lines(lines: Seq<Seq<char>>, i: int, j: int) -> Seq<Seq<char>> {
    seq![opener_words(lines[i]), dollars()] + lines.subrange(i + 1, j) + seq![dollars()]
        + line_if_any(closer_words(lines[j]))
}

/// A text after normalising: its lines, and whether any differs.
pub struct Normal {
    pub lines: Seq<Seq<char>>,
    pub changed: bool,
}

/// `head` before `rest`.
pub open spec fn put_before(head: Seq<Seq<char>>, changed: bool, rest: Normal) -> Normal {
    Normal { lines: head + rest.lines, changed: changed || rest.changed }
}

/// Normalises `lines` from line `i` on. Lines of a code fence stay; a complete
/// pair with words goes onto its own line; an opener with a closer before the
/// next blank line or code fence does too; every other line stays.
pub open spec fn normal_from(lines: Seq<Seq<char>>, i: int, in_code: bool) -> Normal
    decreases lines.len() - i,
{
    if i < 0 || i >= lines.len() {
        Normal { lines: seq![], changed: false }
    } else {
        proof {
            lemma_closer(lines, i + 1);
        }
        let line = lines[i];
        if begins(trim(line), ticks()) {
            put_before(seq![line], false, normal_from(lines, i + 1, !in_code))
        } else if !in_code && embedded(line) is Some {
            let (s, e) = embedded(line)->0;
            let head = pair_lines(line, s, e);
            put_before(head, head.len() > 1, normal_from(lines, i + 1, in_code))
        } else if !in_code && fence_words(line) == Some(true) && closer(lines, i + 1) is Some {
            let j = closer(lines, i + 1)->0;
            put_before(block_lines(lines, i, j), true, normal_from(lines, j + 1, in_code))
        } else {
            put_before(seq![line], false, normal_from(lines, i + 1, in_code))
        }
    }
}

/// A closer lies among the lines and closes.
pub proof fn lemma_closer(lines: Seq<Seq<char>>, j: int)
    requires
        0 <= j,
    ensures
        closer(lines, j) is Some ==> j <= closer(lines, j)->0 < lines.len() && (trim(
            lines[closer(lines, j)->0],
        ) == dollars() || fence_words(lines[closer(lines, j)->0]) == Some(false)),
    decreases lines.len() - j,
{
    if j < lines.len() && trim(lines[j]).len() > 0 && !begins(trim(lines[j]), ticks()) && trim(
        lines[j],
    ) != dollars() && fence_words(lines[j]) != Some(false) {
        lemma_closer(lines, j + 1);
    }
}

/// `source` normalised, line by line.
pub open spec fn normal_of(source: Seq<char>) -> Normal {
    normal_from(lines_of(source), 0, false)
}

/// A text with its math fences on lines of their own.
pub open spec fn normalized(source: Seq<char>) -> Seq<char> {
    if normal_of(source).changed {
        join_lines(normal_of(source).lines)
    } else {
        source
    }
}

/// A line ending in `$$` still ends so without trailing whitespace alone.
proof fn lemma_opener_len(line: Seq<char>)
    requires
        fence_words(line) == Some(true),
    ensures
        trim_end(line).len() >= 2,
        line.len() >= 2,
{
    let a = space_end(line, 0);
    lemma_space_end(line, 0);
    let t = trim_start(line);
    lemma_space_start(t, t.len() as int);
    lemma_space_start(line, line.len() as int);
    let e = space_start(line, line.len() as int);
    if e < a + 2 {
        let k = space_start(t, t.len() as int);
        assert(trim(line).len() == k >= 2);
        assert(t[k - 1] == line[a + k - 1]);
        assert(!is_space(t[k - 1]));
    }
}

proof fn lemma_closer_len(line: Seq<char>)
    requires
        trim(line) == dollars() || fence_words(line) == Some(false),
    ensures
        trim_start(line).len() >= 2,
        line.len() >= 2,
{
    lemma_space_end(line, 0);
    let t = trim_start(line);
    lemma_space_start(t, t.len() as int);
    assert(dollars().len() == 2);
}

fn push_line(out: &mut Vec<String>, s: &[char])
    ensures
        views(final(out)@) == views(old(out)@).push(s@),
{
    out.push(to_string(s));
    assert(views(out@) =~= views(old(out)@).push(s@));
}

/// Whether `rows` are the ranges of `lines` in `s`.
spec fn ranges(rows: Seq<(usize, usize)>, s: Seq<char>, lines: Seq<Seq<char>>) -> bool {
    &&& rows.len() == lines.len()
    &&& forall|k: int|
        #![trigger rows[k]]
        #![trigger lines[k]]
        0 <= k < rows.len() ==> rows[k].0 <= rows[k].1 <= s.len() && s.subrange(
            rows[k].0 as int,
            rows[k].1 as int,
        ) == lines[k]
}

fn find_closer(
    s: &[char],
    rows: &Vec<(usize, usize)>,
    from: usize,
    Ghost(lines): Ghost<Seq<Seq<char>>>,
) -> (r: Option<usize>)
    requires
        ranges(rows@, s@, lines),
        from <= rows@.len(),
    ensures
        r is Some == closer(lines, from as int) is Some,
        r is Some ==> from <= r->0 < rows@.len() && r->0 as int == closer(lines, from as int)->0,
{
    let mut j: usize = from;
    while j < rows.len()
        invariant
            from <= j <= rows@.len(),
            ranges(rows@, s@, lines),
            closer(lines, from as int) == closer(lines, j as int),
        decreases rows.len() - j,
    {
        assert(rows@[j as int].0 <= rows@[j as int].1);
        let line = part(s, rows[j].0, rows[j].1);
        let (a, b) = trim_range(line);
        if a == b {
            return None;
        }
        proof {
            reveal_strlit("```");
            assert("```"@ =~= ticks());
        }
        if looks_at(part(line, a, b), 0, "```") {
            return None;
        }
        if is_dollars(part(line, a, b)) {
            return Some(j);
        }
        if let Some(false) = words_of(line) {
            return Some(j);
        }
        j += 1;
    }
    None
}

fn push_pair(out: &mut Vec<String>, line: &[char], s: usize, e: usize) -> (grew: bool)
    requires
        s <= e <= line@.len(),
    ensures
        views(final(out)@) == views(old(out)@) + pair_lines(line@, s as int, e as int),
        grew == (pair_lines(line@, s as int, e as int).len() > 1),
{
    let n: usize = line.len();
    let ghost before = views(out@);
    let head = part(line, 0, s);
    let tail = part(line, e, n);
    assert(head@ =~= line@.take(s as int));
    assert(tail@ =~= line@.skip(e as int));
    let h: usize = skip_space_back(head, s);
    let t: usize = skip_space(tail, 0);
    let front = part(head, 0, h);
    let back = part(tail, t, n - e);
    assert(front@ =~= trim_end(line@.take(s as int)));
    assert(back@ =~= trim_start(line@.skip(e as int)));
    if h > 0 {
        push_line(out, front);
    }
    push_line(out, part(line, s, e));
    if t < n - e {
        push_line(out, back);
    }
    assert(views(out@) =~= before + pair_lines(line@, s as int, e as int));
    h > 0 || t < n - e
}

fn push_block(
    out: &mut Vec<String>,
    s: &[char],
    rows: &Vec<(usize, usize)>,
    i: usize,
    j: usize,
    Ghost(lines): Ghost<Seq<Seq<char>>>,
)
    requires
        ranges(rows@, s@, lines),
        i < j < rows@.len(),
        fence_words(lines[i as int]) == Some(true),
        trim(lines[j as int]) == dollars() || fence_words(lines[j as int]) == Some(false),
    ensures
        views(final(out)@) == views(old(out)@) + block_lines(lines, i as int, j as int),
{
    let ghost before = views(out@);
    assert(rows@[i as int].0 <= rows@[i as int].1);
    assert(rows@[j as int].0 <= rows@[j as int].1);
    let first = part(s, rows[i].0, rows[i].1);
    let last = part(s, rows[j].0, rows[j].1);
    proof {
        lemma_opener_len(lines[i as int]);
        lemma_closer_len(lines[j as int]);
        lemma_space_start(first@, first@.len() as int);
        lemma_space_end(last@, 0);
    }
    let stop: usize = skip_space_back(first, first.len());
    let open = part(first, 0, stop - 2);
    assert(trim_end(first@).len() == stop);
    assert(open@ =~= trim_end(first@).take(stop - 2));
    let end: usize = skip_space_back(open, stop - 2);
    let words = part(open, 0, end);
    assert(words@ =~= opener_words(lines[i as int]));
    push_line(out, words);
    let fence: [char; 2] = ['$', '$'];
    let mark = vstd::array::array_as_slice(&fence);
    assert(mark@ =~= dollars());
    push_line(out, mark);
    let ghost head = views(out@);
    let mut k: usize = i + 1;
    while k < j
        invariant
            i < k <= j < rows@.len(),
            ranges(rows@, s@, lines),
            views(out@) == head + lines.subrange(i + 1, k as int),
        decreases j - k,
    {
        assert(rows@[k as int].0 <= rows@[k as int].1);
        push_line(out, part(s, rows[k].0, rows[k].1));
        assert(head + lines.subrange(i + 1, k + 1) =~= (head + lines.subrange(
            i + 1,
            k as int,
        )).push(lines[k as int]));
        k += 1;
    }
    push_line(out, mark);
    let start: usize = skip_space(last, 0);
    let n: usize = last.len();
    let close = part(last, start + 2, n);
    assert(close@ =~= trim_start(last@).skip(2));
    let from: usize = skip_space(close, 0);
    let m: usize = close.len();
    let rest = part(close, from, m);
    assert(rest@ =~= closer_words(lines[j as int]));
    if from < m {
        push_line(out, rest);
    }
    assert(views(out@) =~= before + block_lines(lines, i as int, j as int));
}

/// Splits words-attached `$$` fences onto their own lines when they pair up (an
/// opener needs a closer before the next blank line or code fence), and a
/// complete pair mixed
/// with words likewise, so that a math parser sees well-formed display blocks.
/// Code fences are left alone; unpaired `$$`s pass through untouched. Borrowed
/// when nothing changes.
pub fn normalize_math_fences(source: &str) -> (r: Cow<'_, str>)
    ensures
        r is Owned == normal_of(source@).changed,
        r@ == normalized(source@),
{
    let t = Text::new(source);
    let s = t.chars.as_slice();
    if find_pair(s, '$', '$', 0).is_none() {
        proof {
            law_no_dollars_no_change(source@);
        }
        return Cow::Borrowed(source);
    }
    let ghost lines = lines_of(source@);
    let rows = split_lines(s);
    let mut out: Vec<String> = Vec::new();
    let mut changed = false;
    let mut in_code = false;
    let mut i: usize = 0;
    assert(views(out@) =~= seq![]);
    assert(seq![] + normal_of(source@).lines =~= normal_of(source@).lines);
    while i < rows.len()
        invariant
            s@ == source@,
            lines == lines_of(source@),
            ranges(rows@, s@, lines),
            i <= rows@.len(),
            normal_of(source@) == put_before(
                views(out@),
                changed,
                normal_from(lines, i as int, in_code),
            ),
        decreases rows.len() - i,
    {
        let ghost acc = views(out@);
        assert(rows@[i as int].0 <= rows@[i as int].1);
        let line = part(s, rows[i].0, rows[i].1);
        let (a, b) = trim_range(line);
        proof {
            reveal_strlit("```");
            assert("```"@ =~= ticks());
            lemma_closer(lines, i + 1);
        }
        if looks_at(part(line, a, b), 0, "```") {
            let ghost rest = normal_from(lines, i + 1, !in_code);
            push_line(&mut out, line);
            in_code = !in_code;
            i += 1;
            assert(acc + (seq![line@] + rest.lines) =~= views(out@) + rest.lines);
            continue;
        }
        if !in_code {
            if let Some((p, q)) = pair_of(line) {
                let ghost rest = normal_from(lines, i + 1, in_code);
                let grew = push_pair(&mut out, line, p, q);
                changed = changed || grew;
                i += 1;
                assert(acc + (pair_lines(line@, p as int, q as int) + rest.lines) =~= views(out@)
                    + rest.lines);
                continue;
            }
            if let Some(true) = words_of(line) {
                if let Some(j) = find_closer(s, &rows, i + 1, Ghost(lines)) {
                    let ghost rest = normal_from(lines, j + 1, in_code);
                    push_block(&mut out, s, &rows, i, j, Ghost(lines));
                    changed = true;
                    assert(acc + (block_lines(lines, i as int, j as int) + rest.lines) =~= views(
                        out@,
                    ) + rest.lines);
                    i = j + 1;
                    continue;
                }
            }
        }
        let ghost rest = normal_from(lines, i + 1, in_code);
        push_line(&mut out, line);
        i += 1;
        assert(acc + (seq![line@] + rest.lines) =~= views(out@) + rest.lines);
    }
    assert(views(out@) + Seq::<Seq<char>>::empty() =~= views(out@));
    if changed {
        Cow::Owned(join(&out))
    } else {
        Cow::Borrowed(source)
    }
}

// --- Laws ---

proof fn lemma_no_change_from(lines: Seq<Seq<char>>, i: int, in_code: bool)
    requires
        0 <= i <= lines.len(),
        forall|k: int| 0 <= k < lines.len() ==> !holds_str(#[trigger] lines[k], dollars()),
    ensures
        normal_from(lines, i, in_code) == (Normal { lines: lines.skip(i), changed: false }),
    decreases lines.len() - i,
{
    if i < lines.len() {
        let line = lines[i];
        lemma_index_of_str(line, dollars(), 0);
        lemma_no_change_from(lines, i + 1, in_code);
        lemma_no_change_from(lines, i + 1, !in_code);
        let a = space_end(line, 0);
        lemma_space_end(line, 0);
        let t0 = trim_start(line);
        lemma_space_start(t0, t0.len() as int);
        let t = trim(line);
        assert(!ends(t, dollars())) by {
            if ends(t, dollars()) {
                let k = t.len() - 2;
                assert(t.subrange(k, k + 2) =~= line.subrange(a + k, a + k + 2));
                assert(stands_at(line, a + k, dollars()));
            }
        }
        assert(lines.skip(i) =~= seq![line] + lines.skip(i + 1));
    } else {
        assert(lines.skip(i) =~= seq![]);
    }
}

proof fn lemma_lines_hold_nothing(s: Seq<char>, p: Seq<char>, i: int)
    requires
        0 <= i <= s.len(),
        forall|m: int| 0 <= m ==> !stands_at(s, m, p),
    ensures
        forall|k: int|
            0 <= k < crate::text::lines_from(s, i).len() ==> !holds_str(
                #[trigger] crate::text::lines_from(s, i)[k],
                p,
            ),
    decreases s.len() - i,
{
    let all = crate::text::lines_from(s, i);
    crate::text::lemma_index_of(s, '\n', i);
    let e = crate::text::line_end_from(s, i);
    let first = s.subrange(i, e);
    assert(first =~= all[0]) by {
        if crate::text::index_of(s, '\n', i) is None {
            assert(s.skip(i) =~= s.subrange(i, e));
        }
    }
    lemma_index_of_str(first, p, 0);
    assert(!holds_str(first, p)) by {
        if let Some(m) = index_of_str(first, p, 0) {
            assert(first.subrange(m, m + p.len()) =~= s.subrange(i + m, i + m + p.len()));
            assert(stands_at(s, i + m, p));
        }
    }
    if e < s.len() {
        lemma_lines_hold_nothing(s, p, e + 1);
        assert forall|k: int| 0 <= k < all.len() implies !holds_str(#[trigger] all[k], p) by {
            if k > 0 {
                assert(all[k] == crate::text::lines_from(s, e + 1)[k - 1]);
            }
        }
    }
}

/// The text that a [`Cow`] holds.
pub(crate) fn cow_text<'a>(c: &'a Cow<'_, str>) -> (r: &'a str)
    ensures
        r@ == c@,
{
    match c {
        Cow::Borrowed(s) => s,
        Cow::Owned(s) => s.as_str(),
    }
}

/// A text without `$$` is not changed.
pub proof fn law_no_dollars_no_change(source: Seq<char>)
    requires
        !holds_str(source, dollars()),
    ensures
        !normal_of(source).changed,
        normal_of(source).lines == lines_of(source),
{
    lemma_index_of_str(source, dollars(), 0);
    lemma_lines_hold_nothing(source, dollars(), 0);
    lemma_no_change_from(lines_of(source), 0, false);
    assert(lines_of(source).skip(0) =~= lines_of(source));
}

proof fn lemma_solid_if_any(s: Seq<char>)
    ensures
        solid_lines(line_if_any(s)) == solid(s),
{
    if s.len() > 0 {
        lemma_solid_one(s);
    }
}

proof fn lemma_solid_pair(line: Seq<char>, s: int, e: int)
    requires
        0 <= s <= e <= line.len(),
    ensures
        solid_lines(pair_lines(line, s, e)) == solid(line),
{
    let a = trim_end(line.take(s));
    let b = line.subrange(s, e);
    let c = trim_start(line.skip(e));
    lemma_solid_lines_concat(line_if_any(a) + seq![b], line_if_any(c));
    lemma_solid_lines_concat(line_if_any(a), seq![b]);
    lemma_solid_if_any(a);
    lemma_solid_if_any(c);
    lemma_solid_one(b);
    lemma_solid_trim(line.take(s));
    lemma_solid_trim(line.skip(e));
    assert(line =~= line.take(s) + b + line.skip(e));
    lemma_solid_concat(line.take(s) + b, line.skip(e));
    lemma_solid_concat(line.take(s), b);
}

proof fn lemma_solid_opener(line: Seq<char>)
    requires
        fence_words(line) == Some(true),
    ensures
        solid(line) == solid(opener_words(line)) + solid(dollars()),
{
    lemma_opener_len(line);
    let t = trim_end(line);
    let n = t.len() - 2;
    lemma_solid_trim(line);
    lemma_solid_trim(t.take(n));
    assert(t.skip(n) =~= dollars()) by {
        let a = space_end(line, 0);
        lemma_space_end(line, 0);
        let u = trim_start(line);
        lemma_space_start(u, u.len() as int);
        lemma_space_start(line, line.len() as int);
        let k = space_start(u, u.len() as int);
        let e = space_start(line, line.len() as int);
        assert(u[k - 1] == line[a + k - 1]);
        assert(e == a + k) by {
            if e > a + k {
                assert(u[e - 1 - a] == line[e - 1]);
            }
        }
        let v = trim(line);
        assert(v.subrange(v.len() - 2, v.len() as int) == dollars());
        assert(t.skip(n) =~= v.subrange(v.len() - 2, v.len() as int));
    }
    assert(t =~= t.take(n) + t.skip(n));
    lemma_solid_concat(t.take(n), t.skip(n));
}

proof fn lemma_solid_closer(line: Seq<char>)
    requires
        trim(line) == dollars() || fence_words(line) == Some(false),
    ensures
        solid(line) == solid(dollars()) + solid(closer_words(line)),
{
    lemma_closer_len(line);
    let t = trim_start(line);
    lemma_space_start(t, t.len() as int);
    let v = trim(line);
    assert(v.take(2) =~= dollars()) by {
        if v != dollars() {
            assert(v.subrange(0, 2) == dollars());
        }
    }
    assert(t.take(2) =~= v.take(2));
    lemma_solid_trim(line);
    lemma_solid_trim(t.skip(2));
    assert(t =~= t.take(2) + t.skip(2));
    lemma_solid_concat(t.take(2), t.skip(2));
}

proof fn lemma_solid_block(lines: Seq<Seq<char>>, i: int, j: int)
    requires
        0 <= i < j < lines.len(),
        fence_words(lines[i]) == Some(true),
        trim(lines[j]) == dollars() || fence_words(lines[j]) == Some(false),
    ensures
        solid_lines(block_lines(lines, i, j)) == solid_lines(lines.subrange(i, j + 1)),
{
    let w = opener_words(lines[i]);
    let z = closer_words(lines[j]);
    let mid = lines.subrange(i + 1, j);
    let d = dollars();
    lemma_solid_lines_concat(seq![w, d] + mid + seq![d], line_if_any(z));
    lemma_solid_lines_concat(seq![w, d] + mid, seq![d]);
    lemma_solid_lines_concat(seq![w, d], mid);
    assert(seq![w, d] =~= seq![w] + seq![d]);
    lemma_solid_lines_concat(seq![w], seq![d]);
    lemma_solid_one(w);
    lemma_solid_one(d);
    lemma_solid_if_any(z);
    lemma_solid_opener(lines[i]);
    lemma_solid_closer(lines[j]);
    assert(lines.subrange(i, j + 1) =~= seq![lines[i]] + mid + seq![lines[j]]);
    lemma_solid_lines_concat(seq![lines[i]] + mid, seq![lines[j]]);
    lemma_solid_lines_concat(seq![lines[i]], mid);
    lemma_solid_one(lines[i]);
    lemma_solid_one(lines[j]);
    assert(solid_lines(block_lines(lines, i, j)) =~= solid_lines(lines.subrange(i, j + 1)));
}

proof fn lemma_solid_from(lines: Seq<Seq<char>>, i: int, in_code: bool)
    requires
        0 <= i <= lines.len(),
    ensures
        solid_lines(normal_from(lines, i, in_code).lines) == solid_lines(lines.skip(i)),
    decreases lines.len() - i,
{
    if i < lines.len() {
        lemma_closer(lines, i + 1);
        let line = lines[i];
        lemma_solid_one(line);
        lemma_solid_from(lines, i + 1, in_code);
        lemma_solid_from(lines, i + 1, !in_code);
        assert(lines.skip(i) =~= seq![line] + lines.skip(i + 1));
        lemma_solid_lines_concat(seq![line], lines.skip(i + 1));
        if begins(trim(line), ticks()) {
            lemma_solid_lines_concat(seq![line], normal_from(lines, i + 1, !in_code).lines);
        } else if !in_code && embedded(line) is Some {
            let (s, e) = embedded(line)->0;
            lemma_index_of_str(line, dollars(), 0);
            lemma_last_index_of_str(line, dollars(), line.len() as int);
            lemma_solid_pair(line, s, e);
            lemma_solid_lines_concat(
                pair_lines(line, s, e),
                normal_from(lines, i + 1, in_code).lines,
            );
        } else if !in_code && fence_words(line) == Some(true) && closer(lines, i + 1) is Some {
            let j = closer(lines, i + 1)->0;
            lemma_solid_from(lines, j + 1, in_code);
            lemma_solid_block(lines, i, j);
            lemma_solid_lines_concat(
                block_lines(lines, i, j),
                normal_from(lines, j + 1, in_code).lines,
            );
            assert(lines.skip(i) =~= lines.subrange(i, j + 1) + lines.skip(j + 1));
            lemma_solid_lines_concat(lines.subrange(i, j + 1), lines.skip(j + 1));
        } else {
            lemma_solid_lines_concat(seq![line], normal_from(lines, i + 1, in_code).lines);
        }
    } else {
        assert(lines.skip(i) =~= seq![]);
    }
}

/// Normalising moves whitespace alone: every other character stays, in order.
pub proof fn law_normalizing_keeps_the_text(source: Seq<char>)
    ensures
        solid(join_lines(normal_of(source).lines)) == solid(source),
{
    let lines = lines_of(source);
    law_join_splits_back(source);
    lemma_solid_join(lines);
    lemma_solid_join(normal_of(source).lines);
    lemma_solid_from(lines, 0, false);
    assert(lines.skip(0) =~= lines);
}

} // verus!
