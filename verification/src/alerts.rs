//! Callouts: blockquotes that open with `[!NOTE]` and its like.
use crate::text;
use crate::text::{looks_at, part, skip_space, Text};
use vstd::prelude::*;

verus! {

/// The five alert kinds (`> [!NOTE]` …).
#[derive(Clone, Copy, PartialEq, Eq, Debug, Structural)]
pub enum AlertKind {
    Note,
    Tip,
    Important,
    Warning,
    Caution,
}

/// `(kind, marker text)` for each alert, in matching order.
pub const ALERT_MARKERS: [(AlertKind, &'static str); 5] = [
    (AlertKind::Note, "[!NOTE]"),
    (AlertKind::Tip, "[!TIP]"),
    (AlertKind::Important, "[!IMPORTANT]"),
    (AlertKind::Warning, "[!WARNING]"),
    (AlertKind::Caution, "[!CAUTION]"),
];

/// The title of an alert.
pub open spec fn title(kind: AlertKind) -> Seq<char> {
    match kind {
        AlertKind::Note => "Note"@,
        AlertKind::Tip => "Tip"@,
        AlertKind::Important => "Important"@,
        AlertKind::Warning => "Warning"@,
        AlertKind::Caution => "Caution"@,
    }
}

impl AlertKind {
    /// The title rendered in place of the marker ("Note", "Tip", …).
    pub fn label(self) -> (r: &'static str)
        ensures
            r@ == title(self),
    {
        match self {
            AlertKind::Note => "Note",
            AlertKind::Tip => "Tip",
            AlertKind::Important => "Important",
            AlertKind::Warning => "Warning",
            AlertKind::Caution => "Caution",
        }
    }
}

/// The marker of an alert.
pub open spec fn marker(kind: AlertKind) -> Seq<char> {
    match kind {
        AlertKind::Note => seq!['[', '!', 'N', 'O', 'T', 'E', ']'],
        AlertKind::Tip => seq!['[', '!', 'T', 'I', 'P', ']'],
        AlertKind::Important => seq!['[', '!', 'I', 'M', 'P', 'O', 'R', 'T', 'A', 'N', 'T', ']'],
        AlertKind::Warning => seq!['[', '!', 'W', 'A', 'R', 'N', 'I', 'N', 'G', ']'],
        AlertKind::Caution => seq!['[', '!', 'C', 'A', 'U', 'T', 'I', 'O', 'N', ']'],
    }
}

/// The alert whose marker stands in `s` at `i`.
pub open spec fn kind_at(s: Seq<char>, i: int) -> Option<AlertKind> {
    if text::stands_at(s, i, marker(AlertKind::Note)) {
        Some(AlertKind::Note)
    } else if text::stands_at(s, i, marker(AlertKind::Tip)) {
        Some(AlertKind::Tip)
    } else if text::stands_at(s, i, marker(AlertKind::Important)) {
        Some(AlertKind::Important)
    } else if text::stands_at(s, i, marker(AlertKind::Warning)) {
        Some(AlertKind::Warning)
    } else if text::stands_at(s, i, marker(AlertKind::Caution)) {
        Some(AlertKind::Caution)
    } else {
        None
    }
}

/// The fold state that the character at `i` gives: `-` is folded, `+` open.
pub open spec fn fold_state(s: Seq<char>, i: int) -> Option<bool> {
    if 0 <= i < s.len() && s[i] == '-' {
        Some(true)
    } else if 0 <= i < s.len() && s[i] == '+' {
        Some(false)
    } else {
        None
    }
}

/// An alert marker: its kind, the fold state, where the fold character stands
/// or would stand, and where the body begins.
pub struct Marker {
    pub kind: AlertKind,
    pub fold: Option<bool>,
    pub fold_at: int,
    pub body: int,
}

/// The marker at `i`: alone, or followed by a space (or by a line feed, where
/// `multiline`), which belongs to it.
pub open spec fn marker_at(s: Seq<char>, i: int, multiline: bool) -> Option<Marker> {
    match kind_at(s, i) {
        None => None,
        Some(kind) => {
            let fold_at = i + marker(kind).len();
            let fold = fold_state(s, fold_at);
            let e = if fold is Some {
                fold_at + 1
            } else {
                fold_at
            };
            if e == s.len() {
                Some(Marker { kind, fold, fold_at, body: e })
            } else if s[e] == ' ' || (multiline && s[e] == '\n') {
                Some(Marker { kind, fold, fold_at, body: e + 1 })
            } else {
                None
            }
        },
    }
}

/// A found marker: its kind, where the fold character stands or would stand,
/// where the body begins, and the fold state.
pub struct Found {
    pub kind: AlertKind,
    pub fold: Option<bool>,
    pub fold_at: usize,
    pub body: usize,
}

fn find_kind(s: &[char], i: usize) -> (r: Option<(AlertKind, usize)>)
    requires
        i <= s@.len(),
    ensures
        r is Some == kind_at(s@, i as int) is Some,
        r is Some ==> (r->0).0 == kind_at(s@, i as int)->0 && (r->0).1 == marker((r->0).0).len()
            && i + (r->0).1 <= s@.len(),
{
    proof {
        reveal_strlit("[!NOTE]");
        reveal_strlit("[!TIP]");
        reveal_strlit("[!IMPORTANT]");
        reveal_strlit("[!WARNING]");
        reveal_strlit("[!CAUTION]");
        assert("[!NOTE]"@ =~= marker(AlertKind::Note));
        assert("[!TIP]"@ =~= marker(AlertKind::Tip));
        assert("[!IMPORTANT]"@ =~= marker(AlertKind::Important));
        assert("[!WARNING]"@ =~= marker(AlertKind::Warning));
        assert("[!CAUTION]"@ =~= marker(AlertKind::Caution));
    }
    if looks_at(s, i, "[!NOTE]") {
        Some((AlertKind::Note, 7))
    } else if looks_at(s, i, "[!TIP]") {
        Some((AlertKind::Tip, 6))
    } else if looks_at(s, i, "[!IMPORTANT]") {
        Some((AlertKind::Important, 12))
    } else if looks_at(s, i, "[!WARNING]") {
        Some((AlertKind::Warning, 10))
    } else if looks_at(s, i, "[!CAUTION]") {
        Some((AlertKind::Caution, 10))
    } else {
        None
    }
}

fn find_marker(s: &[char], i: usize, multiline: bool) -> (r: Option<Found>)
    requires
        i <= s@.len(),
    ensures
        r is Some == marker_at(s@, i as int, multiline) is Some,
        r is Some ==> {
            let m = marker_at(s@, i as int, multiline)->0;
            &&& r->0.kind == m.kind
            &&& r->0.fold == m.fold
            &&& r->0.fold_at as int == m.fold_at
            &&& r->0.body as int == m.body
            &&& r->0.body <= s@.len()
            &&& r->0.fold is Some ==> r->0.fold_at < s@.len()
        },
{
    let n: usize = s.len();
    match find_kind(s, i) {
        None => None,
        Some((kind, len)) => {
            let fold_at: usize = i + len;
            let mut e: usize = fold_at;
            let mut fold: Option<bool> = None;
            if fold_at < n && s[fold_at] == '-' {
                fold = Some(true);
                e = fold_at + 1;
            } else if fold_at < n && s[fold_at] == '+' {
                fold = Some(false);
                e = fold_at + 1;
            }
            if e == n {
                Some(Found { kind, fold, fold_at, body: e })
            } else if s[e] == ' ' || (multiline && s[e] == '\n') {
                Some(Found { kind, fold, fold_at, body: e + 1 })
            } else {
                None
            }
        },
    }
}

/// Matches an alert marker at the start of a blockquote's text: uppercase, and
/// either alone on its first line or followed by a space and the body. A fold
/// character directly after the `]` makes the callout foldable: `[!NOTE]-` is
/// folded by default, `[!NOTE]+` open. Gives the kind, the bytes to strip
/// (marker, fold character, separator) and the fold state.
pub fn alert_marker(value: &str) -> (r: Option<(AlertKind, usize, Option<bool>)>)
    ensures
        r is Some == marker_at(value@, 0, true) is Some,
        r is Some ==> {
            let m = marker_at(value@, 0, true)->0;
            &&& (r->0).0 == m.kind
            &&& (r->0).1 == text::offset(value@, m.body)
            &&& (r->0).2 == m.fold
        },
{
    let t = Text::new(value);
    match find_marker(t.chars.as_slice(), 0, true) {
        Some(m) => {
            assert(t.offs@[m.body as int] == text::offset(value@, m.body as int));
            Some((m.kind, t.offs[m.body], m.fold))
        },
        None => None,
    }
}

/// The marker of a single line's body, leading whitespace tolerated.
pub open spec fn prefix_at(s: Seq<char>) -> Option<Marker> {
    marker_at(s, text::space_end(s, 0), false)
}

/// [`alert_marker`] for a single line's body (the text after a blockquote's
/// `>`): tolerates leading whitespace and gives the kind, the bytes consumed
/// within `body`, and the fold state.
pub fn alert_prefix(body: &str) -> (r: Option<(AlertKind, usize, Option<bool>)>)
    ensures
        r is Some == prefix_at(body@) is Some,
        r is Some ==> {
            let m = prefix_at(body@)->0;
            &&& (r->0).0 == m.kind
            &&& (r->0).1 == text::offset(body@, m.body)
            &&& (r->0).2 == m.fold
        },
{
    let t = Text::new(body);
    let s = t.chars.as_slice();
    let i: usize = skip_space(s, 0);
    match find_marker(s, i, false) {
        Some(m) => {
            assert(t.offs@[m.body as int] == text::offset(body@, m.body as int));
            Some((m.kind, t.offs[m.body], m.fold))
        },
        None => None,
    }
}

// --- Folding ---

/// The end of the blockquote arrows and spaces that start at `i`.
pub open spec fn quote_end(s: Seq<char>, i: int) -> int
    decreases s.len() - i,
{
    if 0 <= i < s.len() && (s[i] == '>' || s[i] == ' ') {
        quote_end(s, i + 1)
    } else {
        i
    }
}

/// The fold character of the alert marker on a full source line, and whether it
/// says folded.
pub open spec fn fold_char(line: Seq<char>) -> Option<(int, bool)> {
    let p = quote_end(line, 0);
    match prefix_at(line.skip(p)) {
        Some(m) => match m.fold {
            Some(folded) => Some((p + m.fold_at, folded)),
            None => None,
        },
        None => None,
    }
}

fn find_fold(line: &[char]) -> (r: Option<(usize, bool)>)
    ensures
        r is Some == fold_char(line@) is Some,
        r is Some ==> ((r->0).0 as int, (r->0).1) == fold_char(line@)->0 && (r->0).0 < line@.len(),
{
    let mut p: usize = 0;
    let n: usize = line.len();
    while p < n && (line[p] == '>' || line[p] == ' ')
        invariant
            p <= n == line@.len(),
            quote_end(line@, 0) == quote_end(line@, p as int),
        decreases n - p,
    {
        p += 1;
    }
    let body = part(line, p, n);
    assert(body@ =~= line@.skip(p as int));
    let i: usize = skip_space(body, 0);
    match find_marker(body, i, false) {
        Some(m) => match m.fold {
            Some(folded) => Some((p + m.fold_at, folded)),
            None => None,
        },
        None => None,
    }
}

/// The fold character of the alert marker on `line` (a full source line, `>`
/// prefix included): its byte offset within the line and the current state
/// (`true` is folded). `None` when the line is no foldable alert marker.
pub fn alert_fold_char(line: &str) -> (r: Option<(usize, bool)>)
    ensures
        r is Some == fold_char(line@) is Some,
        r is Some ==> (r->0).0 == text::offset(line@, (fold_char(line@)->0).0) && (r->0).1 == (
        fold_char(line@)->0).1,
{
    let t = Text::new(line);
    match find_fold(t.chars.as_slice()) {
        Some((at, folded)) => {
            assert(t.offs@[at as int] == text::offset(line@, at as int));
            Some((t.offs[at], folded))
        },
        None => None,
    }
}

/// The content with the fold state of the marker on the line of character `i`
/// flipped.
pub open spec fn folded_at(s: Seq<char>, i: int) -> Option<Seq<char>> {
    let a = text::line_start_of(s, i);
    match fold_char(s.subrange(a, text::line_end_from(s, i))) {
        Some((k, folded)) => Some(
            s.update(
                a + k,
                if folded {
                    '+'
                } else {
                    '-'
                },
            ),
        ),
        None => None,
    }
}

/// Flips the fold state (`-` ↔ `+`) of the foldable alert marker on the line
/// containing byte `offset`, giving the new content. `None` past the end, or
/// where the line holds no such marker.
pub fn toggle_alert_fold_at(content: &str, offset: usize) -> (r: Option<String>)
    requires
        offset <= text::blen(content@) ==> text::on_boundary(content@, offset as int),
    ensures
        r is Some == (offset <= text::blen(content@) && folded_at(
            content@,
            text::index_at(content@, offset as int),
        ) is Some),
        r is Some ==> r->0@ == folded_at(content@, text::index_at(content@, offset as int))->0,
{
    let t = Text::new(content);
    let s = t.chars.as_slice();
    let n: usize = s.len();
    proof {
        text::lemma_offset_end(content@);
    }
    assert(t.offs@[n as int] == text::offset(content@, n as int));
    if offset > t.offs[n] {
        return None;
    }
    let i: usize = match t.index_of(offset) {
        Some(i) => i,
        None => {
            return None;
        },
    };
    let a: usize = text::line_start_at(s, i);
    let b: usize = text::line_end_at(s, i);
    match find_fold(part(s, a, b)) {
        Some((k, folded)) => {
            let c: char = if folded {
                '+'
            } else {
                '-'
            };
            Some(text::with_char(s, a + k, c))
        },
        None => None,
    }
}

// --- Laws ---

proof fn lemma_quote_end(s: Seq<char>, i: int)
    requires
        0 <= i <= s.len(),
    ensures
        i <= quote_end(s, i) <= s.len(),
    decreases s.len() - i,
{
    if i < s.len() && (s[i] == '>' || s[i] == ' ') {
        lemma_quote_end(s, i + 1);
    }
}

proof fn lemma_quote_end_update(s: Seq<char>, i: int, k: int, c: char)
    requires
        0 <= i <= s.len(),
        quote_end(s, i) <= k < s.len(),
        !(s[k] == '>' || s[k] == ' '),
        !(c == '>' || c == ' '),
    ensures
        quote_end(s.update(k, c), i) == quote_end(s, i),
    decreases s.len() - i,
{
    lemma_quote_end(s, i);
    if i < s.len() && (s[i] == '>' || s[i] == ' ') {
        lemma_quote_end_update(s, i + 1, k, c);
    }
}

/// Flipping the fold character of a line flips what is read from it.
proof fn lemma_fold_flip(line: Seq<char>)
    requires
        fold_char(line) is Some,
    ensures
        ({
            let (k, folded) = fold_char(line)->0;
            let c = if folded {
                '+'
            } else {
                '-'
            };
            &&& 0 <= k < line.len()
            &&& line[k] == if folded {
                '-'
            } else {
                '+'
            }
            &&& fold_char(line.update(k, c)) == Some((k, !folded))
        }),
{
    let p = quote_end(line, 0);
    lemma_quote_end(line, 0);
    let body = line.skip(p);
    let q = text::space_end(body, 0);
    text::lemma_space_end(body, 0);
    let m = prefix_at(body)->0;
    let (k, folded) = fold_char(line)->0;
    let c = if folded {
        '+'
    } else {
        '-'
    };
    let line2 = line.update(k, c);
    lemma_quote_end_update(line, 0, k, c);
    let body2 = line2.skip(p);
    assert(body2 =~= body.update(m.fold_at, c));
    text::lemma_space_end_update(body, 0, m.fold_at, c);
    let len = marker(m.kind).len() as int;
    assert(m.fold_at == q + len);
    assert forall|kind: AlertKind| text::stands_at(body2, q, marker(kind)) == text::stands_at(
        body,
        q,
        marker(kind),
    ) by {
        lemma_marker_before(body, body2, q, m.kind, kind, m.fold_at);
    }
    assert(kind_at(body2, q) == kind_at(body, q));
}

/// A change behind the marker at `q` leaves which markers stand there.
proof fn lemma_marker_before(
    a: Seq<char>,
    b: Seq<char>,
    q: int,
    here: AlertKind,
    kind: AlertKind,
    k: int,
)
    requires
        a.len() == b.len(),
        0 <= q,
        text::stands_at(a, q, marker(here)),
        k == q + marker(here).len(),
        forall|i: int| 0 <= i < a.len() && i != k ==> a[i] == b[i],
    ensures
        text::stands_at(b, q, marker(kind)) == text::stands_at(a, q, marker(kind)),
{
    let n = marker(here).len() as int;
    assert(a.subrange(q, q + n) =~= b.subrange(q, q + n));
    if here != kind {
        let m = marker(kind);
        let w = marker(here);
        if text::stands_at(a, q, m) {
            assert(a.subrange(q, q + m.len())[2] == a[q + 2]);
            assert(a.subrange(q, q + n)[2] == a[q + 2]);
            assert(m[2] == w[2]);
        }
        if text::stands_at(b, q, m) {
            assert(b.subrange(q, q + m.len())[2] == b[q + 2]);
            assert(b.subrange(q, q + n)[2] == b[q + 2]);
            assert(m[2] == w[2]);
        }
    }
}

/// Toggling the fold at one place twice gives the content back.
pub proof fn law_fold_twice_is_identity(s: Seq<char>, i: int)
    requires
        0 <= i <= s.len(),
        folded_at(s, i) is Some,
    ensures
        folded_at(folded_at(s, i)->0, i) == Some(s),
{
    let a = text::line_start_of(s, i);
    let b = text::line_end_from(s, i);
    text::lemma_line_start(s, i);
    text::lemma_index_of(s, '\n', i);
    let line = s.subrange(a, b);
    lemma_fold_flip(line);
    let (k, folded) = fold_char(line)->0;
    let c = if folded {
        '+'
    } else {
        '-'
    };
    let s2 = s.update(a + k, c);
    text::lemma_line_start_update(s, i, a + k, c);
    text::lemma_line_end_update(s, i, a + k, c);
    assert(s2.subrange(a, b) =~= line.update(k, c));
    assert(s2.update(a + k, s[a + k]) =~= s);
}

/// A byte offset that lies on a boundary of the content names the same
/// character after the toggle.
pub proof fn law_fold_keeps_offsets(s: Seq<char>, i: int, j: int)
    requires
        0 <= i <= s.len(),
        0 <= j <= s.len(),
        folded_at(s, i) is Some,
    ensures
        folded_at(s, i)->0.len() == s.len(),
        text::offset(folded_at(s, i)->0, j) == text::offset(s, j),
{
    let a = text::line_start_of(s, i);
    let b = text::line_end_from(s, i);
    text::lemma_line_start(s, i);
    text::lemma_index_of(s, '\n', i);
    let line = s.subrange(a, b);
    lemma_fold_flip(line);
    let (k, folded) = fold_char(line)->0;
    let c = if folded {
        '+'
    } else {
        '-'
    };
    text::lemma_offset_update(s, a + k, c, j);
}

} // verus!
