//! List editing: how Enter continues an item, how Tab and Shift+Tab move it,
//! and re-indenting a whole page.
use crate::numbering;
use crate::numbering::decimal_string;
use crate::text;
use crate::text::{
    join, line_end_at, line_start_at, part, push_char, skip_digits, split_lines, to_string,
    trim_range, Text,
};
use vstd::prelude::*;

verus! {

/// The default indent level (two spaces).
pub const INDENT: &'static str = "  ";

/// What pressing Enter should do on a list or blockquote line.
#[derive(Clone, PartialEq, Eq, Debug)]
pub enum ListEdit {
    /// Insert this text at the caret: a newline and the continued marker,
    /// indent preserved.
    Continue(String),
    /// The current item is empty (just a marker); remove it. Delete the byte
    /// range `start..end` and leave the caret at `start`.
    Exit { start: usize, end: usize },
}

/// A [`ListEdit`] as a value.
pub enum Edit {
    Continue(Seq<char>),
    Exit { start: int, end: int },
}

impl View for ListEdit {
    type V = Edit;

    open spec fn view(&self) -> Edit {
        match self {
            ListEdit::Continue(s) => Edit::Continue(s@),
            ListEdit::Exit { start, end } => Edit::Exit { start: *start as int, end: *end as int },
        }
    }
}

// --- Markers ---

/// The number that the digits `s` write.
pub open spec fn number_of(s: Seq<char>) -> nat
    decreases s.len(),
{
    if s.len() == 0 {
        0
    } else {
        number_of(s.drop_last()) * 10 + (s.last() as u32 - '0' as u32) as nat
    }
}

/// A list or quote marker: what the next line begins with, and where the
/// content behind this line's marker begins.
pub struct Marker {
    pub next: Seq<char>,
    pub content: int,
}

/// Whether a bullet and a space lead.
pub open spec fn is_bullet(s: Seq<char>) -> bool {
    s.len() >= 2 && (s[0] == '-' || s[0] == '*' || s[0] == '+') && s[1] == ' '
}

/// Whether a bullet and a task box lead; what stands in the box does not
/// matter, as long as it is one ASCII character.
pub open spec fn is_task(s: Seq<char>) -> bool {
    is_bullet(s) && s.len() >= 6 && s[2] == '[' && s[3] as u32 <= 0x7f && s[4] == ']' && s[5] == ' '
}

/// Whether digits that fit a `u64`, a dot or bracket, and a space lead.
pub open spec fn is_ordered(s: Seq<char>) -> bool {
    let d = text::digits_end(s, 0);
    d > 0 && d + 1 < s.len() && (s[d] == '.' || s[d] == ')') && s[d + 1] == ' ' && number_of(
        s.take(d),
    ) <= u64::MAX
}

/// The marker that `s` (a line without its indent) begins with. Task items are
/// tried before plain bullets and start the next item unchecked; an ordered
/// item continues with the next number.
pub open spec fn marker_of(s: Seq<char>) -> Option<Marker> {
    let d = text::digits_end(s, 0);
    if is_task(s) {
        Some(Marker { next: seq![s[0], ' ', '[', ' ', ']', ' '], content: 6 })
    } else if is_bullet(s) {
        Some(Marker { next: seq![s[0], ' '], content: 2 })
    } else if is_ordered(s) {
        Some(
            Marker {
                next: numbering::decimal(number_of(s.take(d)) + 1) + seq![s[d], ' '],
                content: d + 2,
            },
        )
    } else if s.len() > 0 && s[0] == '>' {
        Some(
            Marker {
                next: seq!['>', ' '],
                content: if s.len() > 1 && s[1] == ' ' {
                    2
                } else {
                    1
                },
            },
        )
    } else {
        None
    }
}

/// The end of the spaces and tabs that start at `i`.
pub open spec fn indent_end(s: Seq<char>, i: int) -> int
    decreases s.len() - i,
{
    if 0 <= i < s.len() && (s[i] == ' ' || s[i] == '\t') {
        indent_end(s, i + 1)
    } else {
        i
    }
}

fn skip_indent(s: &[char]) -> (r: usize)
    ensures
        r as int == indent_end(s@, 0),
        r <= s@.len(),
{
    let mut i: usize = 0;
    while i < s.len() && (s[i] == ' ' || s[i] == '\t')
        invariant
            i <= s@.len(),
            indent_end(s@, 0) == indent_end(s@, i as int),
        decreases s.len() - i,
    {
        i += 1;
    }
    i
}

proof fn lemma_number_grows(s: Seq<char>, k: int)
    requires
        0 <= k <= s.len(),
        forall|i: int| 0 <= i < s.len() ==> text::is_digit(#[trigger] s[i]),
    ensures
        number_of(s.take(k)) <= number_of(s),
    decreases s.len() - k,
{
    if k < s.len() {
        lemma_number_grows(s, k + 1);
        assert(s.take(k + 1).drop_last() =~= s.take(k));
        assert(s.take(k + 1).last() == s[k]);
        assert(text::is_digit(s[k]));
    } else {
        assert(s.take(k) =~= s);
    }
}

/// The number that digits write, where it fits.
fn read_number(s: &[char]) -> (r: Option<u64>)
    requires
        forall|i: int| 0 <= i < s@.len() ==> text::is_digit(#[trigger] s@[i]),
    ensures
        r is Some == (number_of(s@) <= u64::MAX),
        r is Some ==> r->0 as nat == number_of(s@),
{
    let mut n: u64 = 0;
    let mut i: usize = 0;
    assert(s@.take(0) =~= Seq::<char>::empty());
    while i < s.len()
        invariant
            i <= s@.len(),
            forall|i: int| 0 <= i < s@.len() ==> text::is_digit(#[trigger] s@[i]),
            n as nat == number_of(s@.take(i as int)),
        decreases s.len() - i,
    {
        proof {
            assert(s@.take(i + 1).drop_last() =~= s@.take(i as int));
            assert(s@.take(i + 1).last() == s@[i as int]);
            lemma_number_grows(s@, i + 1);
            assert(text::is_digit(s@[i as int]));
        }
        let d: u64 = (s[i] as u32 - '0' as u32) as u64;
        match n.checked_mul(10) {
            None => {
                return None;
            },
            Some(m) => match m.checked_add(d) {
                None => {
                    return None;
                },
                Some(v) => {
                    n = v;
                },
            },
        }
        i += 1;
    }
    assert(s@.take(s@.len() as int) =~= s@);
    Some(n)
}

proof fn lemma_digits(s: Seq<char>, i: int)
    requires
        0 <= i <= s.len(),
    ensures
        i <= text::digits_end(s, i) <= s.len(),
        forall|k: int| i <= k < text::digits_end(s, i) ==> text::is_digit(#[trigger] s[k]),
    decreases s.len() - i,
{
    if i < s.len() && text::is_digit(s[i]) {
        lemma_digits(s, i + 1);
    }
}

/// The number of an ordered item: its value, and how many digits it has.
fn find_ordered(s: &[char]) -> (r: Option<(u64, usize)>)
    ensures
        r is Some == is_ordered(s@),
        r is Some ==> (r->0).1 as int == text::digits_end(s@, 0) && (r->0).1 + 1 < s@.len() && (
        r->0).0 as nat == number_of(s@.take((r->0).1 as int)),
{
    let n: usize = s.len();
    let d: usize = skip_digits(s, 0);
    if d > 0 && n >= 2 && d < n - 1 && (s[d] == '.' || s[d] == ')') && s[d + 1] == ' ' {
        let digits = part(s, 0, d);
        proof {
            lemma_digits(s@, 0);
            assert(digits@ =~= s@.take(d as int));
        }
        match read_number(digits) {
            Some(v) => Some((v, d)),
            None => None,
        }
    } else {
        None
    }
}

/// Whether `s` begins with a list or quote marker.
fn has_marker(s: &[char]) -> (r: bool)
    ensures
        r == marker_of(s@) is Some,
{
    let n: usize = s.len();
    if n >= 2 && (s[0] == '-' || s[0] == '*' || s[0] == '+') && s[1] == ' ' {
        return true;
    }
    if find_ordered(s).is_some() {
        return true;
    }
    n > 0 && s[0] == '>'
}

/// Whether the next number of the item that `s` begins with is no number.
pub open spec fn next_number_fits(s: Seq<char>) -> bool {
    is_ordered(s) ==> number_of(s.take(text::digits_end(s, 0))) < u64::MAX
}

/// The marker at the start of `s`.
fn parse_list_marker(s: &[char]) -> (r: Option<(String, usize)>)
    requires
        next_number_fits(s@),
    ensures
        r is Some == marker_of(s@) is Some,
        r is Some ==> (r->0).0@ == marker_of(s@)->0.next && (r->0).1 as int == marker_of(
            s@,
        )->0.content && (r->0).1 <= s@.len(),
{
    let n: usize = s.len();
    let mut next = String::new();
    if n >= 2 && (s[0] == '-' || s[0] == '*' || s[0] == '+') && s[1] == ' ' {
        push_char(&mut next, s[0]);
        push_char(&mut next, ' ');
        if n >= 6 && s[2] == '[' && s[3] as u32 <= 0x7f && s[4] == ']' && s[5] == ' ' {
            push_char(&mut next, '[');
            push_char(&mut next, ' ');
            push_char(&mut next, ']');
            push_char(&mut next, ' ');
            assert(next@ =~= seq![s@[0], ' ', '[', ' ', ']', ' ']);
            return Some((next, 6));
        }
        assert(next@ =~= seq![s@[0], ' ']);
        return Some((next, 2));
    }
    if let Some((v, d)) = find_ordered(s) {
        let mut out = decimal_string(v + 1);
        push_char(&mut out, s[d]);
        push_char(&mut out, ' ');
        assert(out@ =~= numbering::decimal((v + 1) as nat) + seq![s@[d as int], ' ']);
        return Some((out, d + 2));
    }
    if n > 0 && s[0] == '>' {
        push_char(&mut next, '>');
        push_char(&mut next, ' ');
        assert(next@ =~= seq!['>', ' ']);
        if n > 1 && s[1] == ' ' {
            return Some((next, 2));
        }
        return Some((next, 1));
    }
    None
}

// --- The caret's line ---

/// The character that byte `cursor` names, the end of the text for one past it.
pub open spec fn caret(s: Seq<char>, cursor: int) -> int {
    if cursor >= text::blen(s) {
        s.len() as int
    } else {
        text::index_at(s, cursor)
    }
}

/// Whether byte `cursor` names a character or lies behind the text.
pub open spec fn caret_ok(s: Seq<char>, cursor: int) -> bool {
    cursor < text::blen(s) ==> text::on_boundary(s, cursor)
}

/// The line of the caret.
pub open spec fn caret_line(s: Seq<char>, cursor: int) -> Seq<char> {
    let i = caret(s, cursor);
    s.subrange(text::line_start_of(s, i), text::line_end_from(s, i))
}

/// The caret's line without its indent.
pub open spec fn caret_item(s: Seq<char>, cursor: int) -> Seq<char> {
    let line = caret_line(s, cursor);
    line.skip(indent_end(line, 0))
}

/// The character of the caret, and the ends of its line.
pub(crate) fn locate(t: &Text, cursor: usize) -> (r: (usize, usize, usize))
    requires
        t.wf(),
        caret_ok(t@, cursor as int),
    ensures
        r.0 as int == caret(t@, cursor as int),
        r.0 <= t@.len(),
        r.1 as int == text::line_start_of(t@, r.0 as int),
        r.2 as int == text::line_end_from(t@, r.0 as int),
        r.1 <= r.0 <= r.2 <= t@.len(),
{
    let s = t.chars.as_slice();
    let n: usize = s.len();
    proof {
        text::lemma_offset_end(t@);
    }
    assert(t.offs@[n as int] == text::offset(t@, n as int));
    let i: usize = if cursor >= t.offs[n] {
        n
    } else {
        match t.index_of(cursor) {
            Some(i) => i,
            None => n,
        }
    };
    (i, line_start_at(s, i), line_end_at(s, i))
}

/// How Enter continues the caret's line.
pub open spec fn continuation(s: Seq<char>, cursor: int) -> Option<Edit> {
    let i = caret(s, cursor);
    let a = text::line_start_of(s, i);
    let b = text::line_end_from(s, i);
    let line = caret_line(s, cursor);
    let rest = caret_item(s, cursor);
    match marker_of(rest) {
        Some(m) => if text::trim(rest.skip(m.content)).len() == 0 {
            Some(Edit::Exit { start: text::offset(s, a) as int, end: text::offset(s, b) as int })
        } else {
            Some(Edit::Continue(seq!['\n'] + line.take(indent_end(line, 0)) + m.next))
        },
        None => None,
    }
}

/// Decides how Enter continues a list or quote at byte `cursor` in `value`.
/// Recognises `-`/`*`/`+` bullets, `N.`/`N)` ordered items, `- [ ]` task items
/// and `>` blockquotes (leading indent preserved). A non-empty item continues
/// with the next marker; an empty item exits the list. `None` when the current
/// line is no list or quote item.
pub fn list_continuation(value: &str, cursor: usize) -> (r: Option<ListEdit>)
    requires
        caret_ok(value@, cursor as int),
        next_number_fits(caret_item(value@, cursor as int)),
    ensures
        r is Some == continuation(value@, cursor as int) is Some,
        r is Some ==> r->0@ == continuation(value@, cursor as int)->0,
{
    let t = Text::new(value);
    let s = t.chars.as_slice();
    let (i, a, b) = locate(&t, cursor);
    let line = part(s, a, b);
    let k: usize = skip_indent(line);
    let n: usize = line.len();
    let rest = part(line, k, n);
    assert(rest@ =~= caret_item(value@, cursor as int));
    match parse_list_marker(rest) {
        Some((next, content)) => {
            let m: usize = rest.len();
            let body = part(rest, content, m);
            assert(body@ =~= rest@.skip(content as int));
            let (x, y) = trim_range(body);
            if x == y {
                assert(t.offs@[a as int] == text::offset(t@, a as int));
                assert(t.offs@[b as int] == text::offset(t@, b as int));
                Some(ListEdit::Exit { start: t.offs[a], end: t.offs[b] })
            } else {
                let mut out = String::new();
                push_char(&mut out, '\n');
                let indent = to_string(part(line, 0, k));
                out.append(indent.as_str());
                out.append(next.as_str());
                assert(line@.subrange(0, k as int) =~= line@.take(k as int));
                assert(out@ =~= seq!['\n'] + line@.take(k as int) + next@);
                Some(ListEdit::Continue(out))
            }
        },
        None => None,
    }
}

// --- Moving an item ---

/// `s` with `indent` put before the caret's line, where that is a list or quote
/// item.
pub open spec fn indented(s: Seq<char>, cursor: int, indent: Seq<char>) -> Option<Seq<char>> {
    let a = text::line_start_of(s, caret(s, cursor));
    if marker_of(caret_item(s, cursor)) is Some {
        Some(s.take(a) + indent + s.skip(a))
    } else {
        None
    }
}

/// The smaller of two numbers.
pub open spec fn least(a: int, b: int) -> int {
    if a <= b {
        a
    } else {
        b
    }
}

/// If the caret's line is a list or quote item, indents it one level (`indent`
/// at the line start), giving the new text and the shifted caret. `None` when
/// the line is no list item.
pub fn indent_list_line(value: &str, cursor: usize, indent: &str) -> (r: Option<(String, usize)>)
    requires
        caret_ok(value@, cursor as int),
    ensures
        r is Some == indented(value@, cursor as int, indent@) is Some,
        r is Some ==> (r->0).0@ == indented(value@, cursor as int, indent@)->0 && (r->0).1 == least(
            cursor as int,
            text::blen(value@) as int,
        ) + text::blen(indent@),
{
    let t = Text::new(value);
    let s = t.chars.as_slice();
    let (i, a, b) = locate(&t, cursor);
    let line = part(s, a, b);
    let k: usize = skip_indent(line);
    let n: usize = line.len();
    let rest = part(line, k, n);
    assert(rest@ =~= caret_item(value@, cursor as int));
    if !has_marker(rest) {
        return None;
    }
    let total: usize = s.len();
    let mut out = to_string(part(s, 0, a));
    out.append(indent);
    let tail = to_string(part(s, a, total));
    out.append(tail.as_str());
    assert(value@.subrange(0, a as int) =~= value@.take(a as int));
    assert(value@.subrange(a as int, total as int) =~= value@.skip(a as int));
    proof {
        text::lemma_offset_end(t@);
        text::lemma_blen_encode(indent@);
        text::lemma_blen_encode(out@);
        assert(value@ =~= value@.take(a as int) + value@.skip(a as int));
        text::lemma_blen_concat(value@.take(a as int), value@.skip(a as int));
        text::lemma_blen_concat(value@.take(a as int) + indent@, value@.skip(a as int));
        text::lemma_blen_concat(value@.take(a as int), indent@);
    }
    assert(t.offs@[total as int] == text::offset(t@, total as int));
    let whole: usize = out.as_str().as_bytes().len();
    assert(whole == text::blen(value@) + text::blen(indent@));
    let at: usize = if cursor <= t.offs[total] {
        cursor
    } else {
        t.offs[total]
    };
    let width: usize = indent.as_bytes().len();
    Some((out, at + width))
}

/// How many characters Shift+Tab takes from the start of a line: one tab, or up
/// to `width` spaces.
pub open spec fn outdent_width(s: Seq<char>, a: int, width: int) -> int {
    if 0 <= a < s.len() && s[a] == '\t' {
        1
    } else {
        least(text::run_of(s, ' ', a) as int, width)
    }
}

/// `s` without one level of indent on the caret's line.
pub open spec fn outdented(s: Seq<char>, cursor: int, width: int) -> Option<Seq<char>> {
    let a = text::line_start_of(s, caret(s, cursor));
    let k = outdent_width(s, a, width);
    if k > 0 {
        Some(s.take(a) + s.skip(a + k))
    } else {
        None
    }
}

/// The greater of two numbers.
pub open spec fn most(a: int, b: int) -> int {
    if a >= b {
        a
    } else {
        b
    }
}

/// The caret after an outdent: moved left with its text, not past the line
/// start.
pub open spec fn outdented_caret(s: Seq<char>, cursor: int, width: int) -> int {
    let a = text::line_start_of(s, caret(s, cursor));
    most(
        least(cursor, text::blen(s) as int) - outdent_width(s, a, width),
        text::offset(s, a) as int,
    )
}

/// Outdents the caret's line one level: removes up to `indent`'s width of
/// leading spaces (or one leading tab). Gives the new text and caret, or `None`
/// if the line has no leading indent to remove.
pub fn outdent_line(value: &str, cursor: usize, indent: &str) -> (r: Option<(String, usize)>)
    requires
        caret_ok(value@, cursor as int),
    ensures
        ({
            let width = most(text::blen(indent@) as int, 1);
            &&& r is Some == outdented(value@, cursor as int, width) is Some
            &&& r is Some ==> (r->0).0@ == outdented(value@, cursor as int, width)->0 && (r->0).1
                as int == outdented_caret(value@, cursor as int, width)
        }),
{
    let t = Text::new(value);
    let s = t.chars.as_slice();
    let (i, a, b) = locate(&t, cursor);
    let total: usize = s.len();
    proof {
        text::lemma_blen_encode(indent@);
    }
    let width: usize = indent.as_bytes().len();
    let most_spaces: usize = if width >= 1 {
        width
    } else {
        1
    };
    let k: usize = if a < total && s[a] == '\t' {
        1
    } else {
        let run: usize = text::count_run(s, ' ', a);
        if run <= most_spaces {
            run
        } else {
            most_spaces
        }
    };
    if k == 0 {
        return None;
    }
    let mut out = to_string(part(s, 0, a));
    let tail = to_string(part(s, a + k, total));
    out.append(tail.as_str());
    assert(value@.subrange(0, a as int) =~= value@.take(a as int));
    assert(value@.subrange(a + k, total as int) =~= value@.skip(a + k));
    proof {
        text::lemma_offset_end(t@);
    }
    assert(t.offs@[total as int] == text::offset(t@, total as int));
    assert(t.offs@[a as int] == text::offset(t@, a as int));
    let at: usize = if cursor <= t.offs[total] {
        cursor
    } else {
        t.offs[total]
    };
    let moved: usize = if at >= k {
        at - k
    } else {
        0
    };
    let first: usize = t.offs[a];
    let caret: usize = if moved >= first {
        moved
    } else {
        first
    };
    Some((out, caret))
}

// --- Re-indenting ---

/// Spaces.
pub open spec fn spaces(n: nat) -> Seq<char> {
    numbering::repeated(' ', n)
}

/// The leading spaces of a line that is a nested list or quote item, 0 for any
/// other line.
pub open spec fn nesting(line: Seq<char>) -> nat {
    let ws = text::run_of(line, ' ', 0);
    if marker_of(line.skip(ws as int)) is Some {
        ws
    } else {
        0
    }
}

/// A line re-indented from units of `old` spaces to units of `new`.
pub open spec fn reindented(line: Seq<char>, old_unit: nat, new_unit: nat) -> Seq<char> {
    let ws = nesting(line);
    if ws > 0 {
        spaces(ws / old_unit * new_unit) + line.skip(ws as int)
    } else {
        line
    }
}

/// Every line re-indented.
pub open spec fn all_reindented(
    lines: Seq<Seq<char>>,
    old_unit: nat,
    new_unit: nat,
) -> Seq<Seq<char>> {
    lines.map_values(|line: Seq<char>| reindented(line, old_unit, new_unit))
}

/// Whether re-indenting changes a line.
pub open spec fn shifts(line: Seq<char>, old_unit: nat, new_unit: nat) -> bool {
    nesting(line) / old_unit * new_unit != nesting(line)
}

fn reindent_line(line: &[char], old_unit: usize, new_unit: usize) -> (r: (String, bool))
    requires
        old_unit > 0,
        nesting(line@) / (old_unit as nat) * (new_unit as nat) <= usize::MAX,
    ensures
        r.0@ == reindented(line@, old_unit as nat, new_unit as nat),
        r.1 == shifts(line@, old_unit as nat, new_unit as nat),
{
    let ws: usize = text::count_run(line, ' ', 0);
    let n: usize = line.len();
    let rest = part(line, ws, n);
    assert(rest@ =~= line@.skip(ws as int));
    if ws == 0 || !has_marker(rest) {
        assert(nesting(line@) == 0);
        proof {
            lemma_no_shift(old_unit as nat, new_unit as nat);
        }
        return (to_string(line), false);
    }
    assert(nesting(line@) == ws as nat);
    let level: usize = ws / old_unit;
    let ghost exact = (ws as nat) / (old_unit as nat) * (new_unit as nat);
    assert(level as nat == (ws as nat) / (old_unit as nat));
    let width: usize = level * new_unit;
    assert(width as nat == exact);
    let mut fresh = String::new();
    let mut j: usize = 0;
    assert(fresh@ =~= spaces(0));
    while j < width
        invariant
            j <= width,
            fresh@ == spaces(j as nat),
        decreases width - j,
    {
        push_char(&mut fresh, ' ');
        assert(spaces((j + 1) as nat) =~= spaces(j as nat).push(' '));
        j += 1;
    }
    let tail = to_string(rest);
    fresh.append(tail.as_str());
    (fresh, width != ws)
}

proof fn lemma_no_shift(old_unit: nat, new_unit: nat)
    requires
        old_unit > 0,
    ensures
        0nat / old_unit * new_unit == 0,
{
    assert(0nat / old_unit == 0) by (nonlinear_arith)
        requires
            old_unit > 0,
    ;
    assert(0nat * new_unit == 0);
}

/// Re-indents every space-indented list or quote item in `content` from
/// `old_unit`-space nesting units to `new_unit`-space units. Each item's level
/// is its leading spaces divided by `old_unit`. Non-list lines, top-level items
/// and tab-indented lines are left untouched. `None` when nothing changes.
pub fn reindent(content: &str, old_unit: usize, new_unit: usize) -> (r: Option<String>)
    requires
        old_unit > 0 ==> forall|k: int|
            0 <= k < text::lines_of(content@).len() ==> nesting(
                #[trigger] text::lines_of(content@)[k],
            ) / (old_unit as nat) * (new_unit as nat) <= usize::MAX,
    ensures
        r is Some == (old_unit != 0 && old_unit != new_unit && exists|k: int|
            0 <= k < text::lines_of(content@).len() && shifts(
                #[trigger] text::lines_of(content@)[k],
                old_unit as nat,
                new_unit as nat,
            )),
        r is Some ==> r->0@ == text::join_lines(
            all_reindented(text::lines_of(content@), old_unit as nat, new_unit as nat),
        ),
{
    let ghost lines = text::lines_of(content@);
    if old_unit == 0 || old_unit == new_unit {
        return None;
    }
    let t = Text::new(content);
    let s = t.chars.as_slice();
    let rows = split_lines(s);
    let mut out: Vec<String> = Vec::new();
    let mut changed = false;
    let mut k: usize = 0;
    let ghost want = all_reindented(lines, old_unit as nat, new_unit as nat);
    while k < rows.len()
        invariant
            s@ == content@,
            lines == text::lines_of(content@),
            want == all_reindented(lines, old_unit as nat, new_unit as nat),
            old_unit > 0,
            rows@.len() == lines.len(),
            forall|k: int|
                #![trigger rows@[k]]
                #![trigger lines[k]]
                0 <= k < rows@.len() ==> rows@[k].0 <= rows@[k].1 <= s@.len() && s@.subrange(
                    rows@[k].0 as int,
                    rows@[k].1 as int,
                ) == lines[k],
            forall|k: int|
                0 <= k < lines.len() ==> nesting(#[trigger] lines[k]) / (old_unit as nat) * (
                new_unit as nat) <= usize::MAX,
            k <= rows@.len(),
            text::views(out@) == want.take(k as int),
            changed == exists|m: int|
                0 <= m < k && shifts(#[trigger] lines[m], old_unit as nat, new_unit as nat),
        decreases rows.len() - k,
    {
        let ghost acc = text::views(out@);
        assert(rows@[k as int].0 <= rows@[k as int].1);
        let line = part(s, rows[k].0, rows[k].1);
        let (fresh, moved) = reindent_line(line, old_unit, new_unit);
        if moved {
            changed = true;
            assert(shifts(lines[k as int], old_unit as nat, new_unit as nat));
        }
        out.push(fresh);
        assert(text::views(out@) =~= acc.push(want[k as int]));
        assert(text::views(out@) =~= want.take(k + 1));
        k += 1;
    }
    assert(want.take(want.len() as int) =~= want);
    if changed {
        Some(join(&out))
    } else {
        None
    }
}

// --- Laws ---

proof fn lemma_line_start_prefix(s: Seq<char>, r: Seq<char>, a: int, i: int)
    requires
        0 <= a <= i <= s.len(),
        i <= r.len(),
        s.take(i) == r.take(i),
        text::line_start_of(s, i) == a,
    ensures
        text::line_start_of(r, i) == a,
    decreases i,
{
    text::lemma_line_start(s, i);
    if i > 0 {
        assert(s.take(i)[i - 1] == s[i - 1]);
        assert(r.take(i)[i - 1] == r[i - 1]);
        if s[i - 1] != '\n' {
            assert(s.take(i - 1) =~= s.take(i).take(i - 1));
            assert(r.take(i - 1) =~= r.take(i).take(i - 1));
            if a <= i - 1 {
                lemma_line_start_prefix(s, r, a, i - 1);
            }
        }
    }
}

proof fn lemma_line_start_none(s: Seq<char>, i: int, j: int)
    requires
        0 <= i <= j <= s.len(),
        forall|k: int| i <= k < j ==> s[k] != '\n',
    ensures
        text::line_start_of(s, j) == text::line_start_of(s, i),
    decreases j - i,
{
    if i < j {
        lemma_line_start_none(s, i, j - 1);
    }
}

proof fn lemma_run_at_least(s: Seq<char>, c: char, i: int, n: int)
    requires
        0 <= i,
        0 <= n,
        i + n <= s.len(),
        forall|k: int| i <= k < i + n ==> s[k] == c,
    ensures
        text::run_of(s, c, i) >= n,
    decreases n,
{
    if n > 0 {
        lemma_run_at_least(s, c, i + 1, n - 1);
    }
}

/// Whether `indent` is one or more spaces, or a single tab.
pub open spec fn is_indent(indent: Seq<char>) -> bool {
    indent == seq!['\t'] || (indent.len() > 0 && indent == spaces(indent.len()))
}

proof fn lemma_blen_indent(indent: Seq<char>)
    requires
        is_indent(indent),
    ensures
        text::blen(indent) == indent.len(),
        forall|k: int| 0 <= k < indent.len() ==> indent[k] != '\n',
{
    if indent == seq!['\t'] {
        assert(indent.drop_last() =~= seq![]);
        assert(text::blen(indent.drop_last()) == 0);
    } else {
        lemma_blen_spaces(indent.len());
        assert forall|k: int| 0 <= k < indent.len() implies indent[k] != '\n' by {
            assert(indent[k] == spaces(indent.len())[k]);
        }
    }
}

/// An indent put at `a` moves the offset of everything behind by its length.
proof fn lemma_offset_behind(s: Seq<char>, a: int, i: int, indent: Seq<char>)
    requires
        0 <= a <= i <= s.len(),
        is_indent(indent),
    ensures
        ({
            let t = s.take(a) + indent + s.skip(a);
            &&& text::offset(t, i + indent.len()) == text::offset(s, i) + indent.len()
            &&& text::offset(t, a) == text::offset(s, a)
        }),
{
    let t = s.take(a) + indent + s.skip(a);
    lemma_blen_indent(indent);
    assert(t.take(i + indent.len()) =~= s.take(a) + indent + s.subrange(a, i));
    text::lemma_blen_concat(s.take(a) + indent, s.subrange(a, i));
    text::lemma_blen_concat(s.take(a), indent);
    text::lemma_offset_mono(s, a, i);
    assert(t.take(a) =~= s.take(a));
}

/// An indent put at the start of a line leaves that start.
proof fn lemma_line_start_behind(s: Seq<char>, i: int, indent: Seq<char>)
    requires
        0 <= i <= s.len(),
        is_indent(indent),
    ensures
        ({
            let a = text::line_start_of(s, i);
            let t = s.take(a) + indent + s.skip(a);
            text::line_start_of(t, i + indent.len()) == a
        }),
{
    let a = text::line_start_of(s, i);
    let n = indent.len();
    text::lemma_line_start(s, i);
    lemma_blen_indent(indent);
    let t = s.take(a) + indent + s.skip(a);
    lemma_line_start_none(s, a, i);
    assert(t.take(a) =~= s.take(a));
    lemma_line_start_prefix(s, t, a, a);
    assert forall|k: int| a <= k < i + n implies t[k] != '\n' by {
        if k >= a + n {
            assert(t[k] == s[k - n]);
        } else {
            assert(t[k] == indent[k - a]);
        }
    }
    lemma_line_start_none(t, a, i + n);
}

pub(crate) proof fn lemma_caret_at(s: Seq<char>, i: int)
    requires
        0 <= i <= s.len(),
    ensures
        caret(s, text::offset(s, i) as int) == i,
        text::offset(s, i) <= text::blen(s),
{
    text::lemma_index_at(s, i);
    text::lemma_offset_mono(s, i, s.len() as int);
    text::lemma_offset_end(s);
}

/// Shift+Tab undoes Tab: outdenting an item that was just indented, by spaces or
/// by a tab, gives the text and the caret back.
pub proof fn law_outdent_undoes_indent(s: Seq<char>, i: int, indent: Seq<char>)
    requires
        0 <= i <= s.len(),
        is_indent(indent),
        indented(s, text::offset(s, i) as int, indent) is Some,
    ensures
        ({
            let t = indented(s, text::offset(s, i) as int, indent)->0;
            let at = text::offset(s, i) + text::blen(indent);
            let width = most(text::blen(indent) as int, 1);
            &&& text::on_boundary(t, at as int)
            &&& outdented(t, at as int, width) == Some(s)
            &&& outdented_caret(t, at as int, width) == text::offset(s, i)
        }),
{
    lemma_caret_at(s, i);
    let a = text::line_start_of(s, i);
    text::lemma_line_start(s, i);
    text::lemma_offset_mono(s, a, i);
    lemma_blen_indent(indent);
    let t = s.take(a) + indent + s.skip(a);
    let m = indent.len() as int;
    lemma_offset_behind(s, a, i, indent);
    lemma_line_start_behind(s, i, indent);
    text::lemma_index_at(t, i + m);
    lemma_caret_at(t, i + m);
    assert(t[a] == indent[0]);
    assert(outdent_width(t, a, m) == m) by {
        if indent != seq!['\t'] {
            assert forall|k: int| a <= k < a + m implies t[k] == ' ' by {
                assert(t[k] == indent[k - a]);
                assert(indent[k - a] == spaces(indent.len())[k - a]);
            }
            lemma_run_at_least(t, ' ', a, m);
        }
    }
    assert(t.take(a) + t.skip(a + m) =~= s);
}

proof fn lemma_blen_spaces(n: nat)
    ensures
        text::blen(spaces(n)) == n,
    decreases n,
{
    if n > 0 {
        assert(spaces(n).drop_last() =~= spaces((n - 1) as nat));
        lemma_blen_spaces((n - 1) as nat);
    }
}

/// The digits of a number are digits, and write that number.
pub(crate) proof fn lemma_decimal_reads_back(n: nat)
    ensures
        numbering::decimal(n).len() > 0,
        forall|k: int|
            0 <= k < numbering::decimal(n).len() ==> text::is_digit(
                #[trigger] numbering::decimal(n)[k],
            ),
        number_of(numbering::decimal(n)) == n,
    decreases n,
{
    let s = numbering::decimal(n);
    if n < 10 {
        assert(s.drop_last() =~= Seq::<char>::empty());
        assert(number_of(s.drop_last()) == 0);
    } else {
        lemma_decimal_reads_back(n / 10);
        assert(s.drop_last() =~= numbering::decimal(n / 10));
        assert(s.last() == numbering::digit_char(n % 10));
        assert(n / 10 * 10 + n % 10 == n);
    }
    assert(s.len() > 0);
    assert(number_of(s) == number_of(s.drop_last()) * 10 + (s.last() as u32 - '0' as u32) as nat);
}

pub(crate) proof fn lemma_digits_stop(s: Seq<char>, i: int, d: int)
    requires
        0 <= i <= d < s.len(),
        forall|k: int| i <= k < d ==> text::is_digit(#[trigger] s[k]),
        !text::is_digit(s[d]),
    ensures
        text::digits_end(s, i) == d,
    decreases d - i,
{
    if i < d {
        lemma_digits_stop(s, i + 1, d);
    }
}

/// The marker that continues an item is itself an item, with nothing behind it.
proof fn lemma_next_marker(s: Seq<char>)
    requires
        marker_of(s) is Some,
        next_number_fits(s),
    ensures
        ({
            let next = marker_of(s)->0.next;
            &&& marker_of(next) is Some
            &&& marker_of(next)->0.content == next.len()
            &&& next.len() > 0
            &&& next[0] != ' ' && next[0] != '\t'
            &&& forall|k: int| 0 <= k < next.len() ==> next[k] != '\n'
        }),
{
    let next = marker_of(s)->0.next;
    if !is_bullet(s) && is_ordered(s) {
        let d = text::digits_end(s, 0);
        let n = number_of(s.take(d)) + 1;
        let digits = numbering::decimal(n);
        lemma_decimal_reads_back(n);
        let e = digits.len() as int;
        assert forall|k: int| 0 <= k < e implies text::is_digit(#[trigger] next[k]) by {
            assert(next[k] == digits[k]);
        }
        assert(next[e] == s[d] && next[e + 1] == ' ');
        lemma_digits_stop(next, 0, e);
        assert(next.take(e) =~= digits);
        assert(text::is_digit(next[0]));
    }
}

/// A space or tab run that something else ends.
pub(crate) proof fn lemma_indent_stop(s: Seq<char>, i: int, k: int)
    requires
        0 <= i <= k <= s.len(),
        forall|j: int| i <= j < k ==> (#[trigger] s[j] == ' ' || s[j] == '\t'),
        k < s.len() ==> s[k] != ' ' && s[k] != '\t',
    ensures
        indent_end(s, i) == k,
    decreases k - i,
{
    if i < k {
        lemma_indent_stop(s, i + 1, k);
    }
}

proof fn lemma_indent_end(s: Seq<char>, i: int)
    requires
        0 <= i <= s.len(),
    ensures
        i <= indent_end(s, i) <= s.len(),
        forall|j: int| i <= j < indent_end(s, i) ==> (#[trigger] s[j] == ' ' || s[j] == '\t'),
    decreases s.len() - i,
{
    if i < s.len() && (s[i] == ' ' || s[i] == '\t') {
        lemma_indent_end(s, i + 1);
    }
}

/// A line that was put in behind `i` is the caret's line at its end, where the
/// caret was at the end of a line before.
proof fn lemma_fresh_line(s: Seq<char>, i: int, fresh: Seq<char>)
    requires
        0 <= i <= s.len(),
        text::line_end_from(s, i) == i,
        forall|j: int| 0 <= j < fresh.len() ==> fresh[j] != '\n',
    ensures
        ({
            let t = s.take(i) + (seq!['\n'] + fresh) + s.skip(i);
            let end = i + 1 + fresh.len();
            &&& caret(t, text::offset(t, end) as int) == end
            &&& text::line_start_of(t, end) == i + 1
            &&& text::line_end_from(t, end) == end
            &&& caret_line(t, text::offset(t, end) as int) == fresh
            &&& t.take(i + 1) + t.skip(end) == s.take(i) + seq!['\n'] + s.skip(i)
        }),
{
    let more = seq!['\n'] + fresh;
    let t = s.take(i) + more + s.skip(i);
    let end = i + 1 + fresh.len();
    lemma_caret_at(t, end);
    assert forall|j: int| i + 1 <= j < end implies t[j] != '\n' by {
        assert(t[j] == fresh[j - i - 1]);
    }
    assert(t[i] == '\n');
    assert(text::line_start_of(t, i + 1) == i + 1);
    lemma_line_start_none(t, i + 1, end);
    text::lemma_index_of(s, '\n', i);
    text::lemma_index_of(t, '\n', end);
    assert(i < s.len() ==> s[i] == '\n');
    assert(end < t.len() ==> t[end] == s[i]);
    assert(t.subrange(i + 1, end) =~= fresh);
    assert(t.take(i + 1) + t.skip(end) =~= s.take(i) + seq!['\n'] + s.skip(i));
}

/// Enter twice leaves a list: where Enter at the end of an item's line continues
/// it, Enter on the item that this begins removes that item and nothing else, so
/// an empty line is left.
pub proof fn law_enter_twice_leaves_the_list(s: Seq<char>, i: int)
    requires
        0 <= i <= s.len(),
        text::line_end_from(s, i) == i,
        next_number_fits(caret_item(s, text::offset(s, i) as int)),
        continuation(s, text::offset(s, i) as int) matches Some(Edit::Continue(_)),
    ensures
        ({
            let more = continuation(s, text::offset(s, i) as int)->0->Continue_0;
            let t = s.take(i) + more + s.skip(i);
            let end = i + more.len();
            &&& continuation(t, text::offset(t, end) as int) == Some(
                Edit::Exit {
                    start: text::offset(t, i + 1) as int,
                    end: text::offset(t, end) as int,
                },
            )
            &&& t.take(i + 1) + t.skip(end) == s.take(i) + seq!['\n'] + s.skip(i)
        }),
{
    let at = text::offset(s, i) as int;
    let line = caret_line(s, at);
    let k = indent_end(line, 0);
    lemma_indent_end(line, 0);
    lemma_next_marker(caret_item(s, at));
    let next = marker_of(caret_item(s, at))->0.next;
    let fresh = line.take(k) + next;
    assert(seq!['\n'] + line.take(k) + next =~= seq!['\n'] + fresh);
    assert forall|j: int| 0 <= j < k implies (#[trigger] fresh[j] == ' ' || fresh[j] == '\t') by {
        assert(fresh[j] == line[j]);
    }
    assert forall|j: int| 0 <= j < fresh.len() implies fresh[j] != '\n' by {
        if j >= k {
            assert(fresh[j] == next[j - k]);
        }
    }
    lemma_fresh_line(s, i, fresh);
    assert(fresh[k] == next[0]);
    lemma_indent_stop(fresh, 0, k);
    assert(fresh.skip(k) =~= next);
    assert(next.skip(next.len() as int) =~= Seq::<char>::empty());
}

/// Re-indenting keeps every line's text behind its leading spaces, and every
/// line that is no nested item whole.
pub proof fn law_reindent_touches_leading_spaces_alone(line: Seq<char>, old_unit: nat, new_unit: nat)
    requires
        old_unit > 0,
    ensures
        nesting(line) == 0 ==> reindented(line, old_unit, new_unit) == line,
        nesting(line) > 0 ==> reindented(line, old_unit, new_unit).skip(
            (nesting(line) / old_unit * new_unit) as int,
        ) == line.skip(nesting(line) as int),
{
    let ws = nesting(line);
    if ws > 0 {
        let w = ws / old_unit * new_unit;
        assert(reindented(line, old_unit, new_unit).skip(w as int) =~= line.skip(ws as int));
    }
}

} // verus!
