//! What editing one line of a page does, told by what the line holds: ticking a
//! task, folding a callout, and continuing or moving a list item.
use crate::alerts::{fold_char, folded_at, kind_at, marker, marker_at, quote_end, title, AlertKind};
use crate::lists::{
    caret_item, continuation, indented, lemma_caret_at, lemma_decimal_reads_back, lemma_digits_stop,
    lemma_indent_stop, marker_of, reindented, spaces, Edit,
};
use crate::numbering::decimal;
use crate::tasks::{box_at, task_flipped};
use crate::text;
use crate::text::{is_space, line_end_from, line_start_of, offset};
use vstd::prelude::*;

verus! {

// --- Lines ---

/// Whether `line` stands between `before` and `behind` as a line of its own.
pub open spec fn is_line(before: Seq<char>, line: Seq<char>, behind: Seq<char>) -> bool {
    &&& before.len() == 0 || before.last() == '\n'
    &&& behind.len() == 0 || behind[0] == '\n'
    &&& forall|k: int| 0 <= k < line.len() ==> #[trigger] line[k] != '\n'
}

proof fn lemma_line(before: Seq<char>, line: Seq<char>, behind: Seq<char>, k: int)
    requires
        is_line(before, line, behind),
        0 <= k <= line.len(),
    ensures
        ({
            let s = before + line + behind;
            let a = before.len() as int;
            let b = a + line.len();
            &&& line_start_of(s, a + k) == a
            &&& line_end_from(s, a + k) == b
            &&& s.subrange(a, b) == line
            &&& a + k <= s.len()
        }),
{
    let s = before + line + behind;
    let a = before.len() as int;
    let b = a + line.len();
    let i = line_start_of(s, a + k);
    text::lemma_line_start(s, a + k);
    if i < a {
        assert(s[a - 1] == before.last());
    }
    if i > a {
        assert(s[i - 1] == line[i - 1 - a]);
    }
    text::lemma_index_of(s, '\n', a + k);
    let e = line_end_from(s, a + k);
    if e < b {
        assert(s[e] == line[e - a]);
    }
    if e > b {
        assert(s[b] == behind[0]);
    }
    assert(s.subrange(a, b) =~= line);
}

// --- Tasks ---

/// Toggling the task on a line turns its box from `[ ]` to `[x]`, and from
/// `[x]` or `[X]` to `[ ]`, and changes nothing else; a line whose first bracket
/// opens no such box is not toggled.
pub proof fn law_a_task_is_ticked(
    before: Seq<char>,
    lead: Seq<char>,
    c: char,
    rest: Seq<char>,
    behind: Seq<char>,
    k: int,
)
    requires
        is_line(before, lead + seq!['[', c, ']'] + rest, behind),
        forall|j: int| 0 <= j < lead.len() ==> #[trigger] lead[j] != '[',
        0 <= k <= lead.len() + 3 + rest.len(),
    ensures
        ({
            let s = before + (lead + seq!['[', c, ']'] + rest) + behind;
            let r = task_flipped(s, before.len() + k);
            &&& c == ' ' ==> r == Some(before + (lead + seq!['[', 'x', ']'] + rest) + behind)
            &&& c == 'x' || c == 'X' ==> r == Some(
                before + (lead + seq!['[', ' ', ']'] + rest) + behind,
            )
            &&& c != ' ' && c != 'x' && c != 'X' ==> r is None
        }),
{
    let line = lead + seq!['[', c, ']'] + rest;
    let s = before + line + behind;
    let a = before.len() as int;
    lemma_line(before, line, behind, k);
    text::lemma_index_of(line, '[', 0);
    let i = lead.len() as int;
    assert(line[i] == '[' && line[i + 1] == c && line[i + 2] == ']');
    match text::index_of(line, '[', 0) {
        Some(j) => {
            if j < i {
                assert(line[j] == lead[j]);
            }
            assert(j == i);
        },
        None => {},
    }
    assert(s[a + i + 1] == line[i + 1]);
    assert(s.update(a + i + 1, 'x') =~= before + (lead + seq!['[', 'x', ']'] + rest) + behind);
    assert(s.update(a + i + 1, ' ') =~= before + (lead + seq!['[', ' ', ']'] + rest) + behind);
}

/// A line without a bracket holds no task.
pub proof fn law_no_task_without_a_box(
    before: Seq<char>,
    line: Seq<char>,
    behind: Seq<char>,
    k: int,
)
    requires
        is_line(before, line, behind),
        forall|j: int| 0 <= j < line.len() ==> #[trigger] line[j] != '[',
        0 <= k <= line.len(),
    ensures
        task_flipped(before + line + behind, before.len() + k) is None,
{
    lemma_line(before, line, behind, k);
    text::lemma_index_of(line, '[', 0);
    assert(box_at(line) is None);
}

// --- Callouts ---

/// Each callout is opened by its name in capitals, and titled with that name.
pub proof fn law_callouts_by_name(rest: Seq<char>)
    ensures
        kind_at(seq!['[', '!', 'N', 'O', 'T', 'E', ']'] + rest, 0) == Some(AlertKind::Note),
        kind_at(seq!['[', '!', 'T', 'I', 'P', ']'] + rest, 0) == Some(AlertKind::Tip),
        kind_at(
            seq!['[', '!', 'I', 'M', 'P', 'O', 'R', 'T', 'A', 'N', 'T', ']'] + rest,
            0,
        ) == Some(AlertKind::Important),
        kind_at(seq!['[', '!', 'W', 'A', 'R', 'N', 'I', 'N', 'G', ']'] + rest, 0) == Some(
            AlertKind::Warning,
        ),
        kind_at(seq!['[', '!', 'C', 'A', 'U', 'T', 'I', 'O', 'N', ']'] + rest, 0) == Some(
            AlertKind::Caution,
        ),
        forall|kind: AlertKind|
            #![trigger marker(kind)]
            {
                let word = marker(kind).subrange(2, marker(kind).len() - 1);
                &&& word.len() == title(kind).len()
                &&& word[0] == title(kind)[0]
                &&& forall|k: int|
                    1 <= k < word.len() ==> title(kind)[k] as u32 == (#[trigger] word[k]) as u32
                        + 32
            },
{
    lemma_kind(AlertKind::Note, rest);
    lemma_kind(AlertKind::Tip, rest);
    lemma_kind(AlertKind::Important, rest);
    lemma_kind(AlertKind::Warning, rest);
    lemma_kind(AlertKind::Caution, rest);
    assert forall|kind: AlertKind|
        #![trigger marker(kind)]
        {
            let word = marker(kind).subrange(2, marker(kind).len() - 1);
            &&& word.len() == title(kind).len()
            &&& word[0] == title(kind)[0]
            &&& forall|k: int|
                1 <= k < word.len() ==> title(kind)[k] as u32 == (#[trigger] word[k]) as u32 + 32
        } by {
        lemma_word(kind);
    }
}

proof fn lemma_word(kind: AlertKind)
    ensures
        ({
            let word = marker(kind).subrange(2, marker(kind).len() - 1);
            &&& word.len() == title(kind).len()
            &&& word[0] == title(kind)[0]
            &&& forall|k: int|
                1 <= k < word.len() ==> title(kind)[k] as u32 == (#[trigger] word[k]) as u32 + 32
        }),
{
    reveal_strlit("Note");
    reveal_strlit("Tip");
    reveal_strlit("Important");
    reveal_strlit("Warning");
    reveal_strlit("Caution");
    let word = marker(kind).subrange(2, marker(kind).len() - 1);
    assert forall|k: int| 1 <= k < word.len() implies title(kind)[k] as u32 == (
    #[trigger] word[k]) as u32 + 32 by {
        assert(word[k] == marker(kind)[k + 2]);
    }
    assert(word[0] == marker(kind)[2]);
}

pub(crate) proof fn lemma_kind(kind: AlertKind, rest: Seq<char>)
    ensures
        kind_at(marker(kind) + rest, 0) == Some(kind),
{
    let s = marker(kind) + rest;
    lemma_stands(Seq::empty(), marker(kind), rest);
    assert(Seq::<char>::empty() + marker(kind) + rest =~= s);
    lemma_one_marker(s, 0, kind);
}

proof fn lemma_stands(a: Seq<char>, m: Seq<char>, b: Seq<char>)
    ensures
        text::stands_at(a + m + b, a.len() as int, m),
{
    assert((a + m + b).subrange(a.len() as int, (a.len() + m.len()) as int) =~= m);
}

proof fn lemma_one_marker(s: Seq<char>, i: int, kind: AlertKind)
    requires
        text::stands_at(s, i, marker(kind)),
    ensures
        kind_at(s, i) == Some(kind),
{
    let m = marker(kind);
    assert(s.subrange(i, i + m.len())[2] == s[i + 2]);
    assert forall|other: AlertKind| text::stands_at(s, i, marker(other)) implies other == kind by {
        let w = marker(other);
        assert(s.subrange(i, i + w.len())[2] == s[i + 2]);
        assert(w[2] == m[2]);
    }
}

/// Folding a callout turns the `-` behind its marker to `+` and the `+` to `-`,
/// and changes nothing else; a callout without such a sign is not folded.
pub proof fn law_a_fold_is_flipped(
    before: Seq<char>,
    quote: Seq<char>,
    kind: AlertKind,
    c: char,
    rest: Seq<char>,
    behind: Seq<char>,
    k: int,
)
    requires
        is_line(before, quote + marker(kind) + seq![c] + rest, behind),
        forall|j: int| 0 <= j < quote.len() ==> #[trigger] quote[j] == '>' || quote[j] == ' ',
        c == '-' || c == '+' || c == ' ',
        rest.len() == 0 || rest[0] == ' ',
        0 <= k <= quote.len() + marker(kind).len() + 1 + rest.len(),
    ensures
        ({
            let s = before + (quote + marker(kind) + seq![c] + rest) + behind;
            let r = folded_at(s, before.len() + k);
            &&& c == '-' ==> r == Some(before + (quote + marker(kind) + seq!['+'] + rest) + behind)
            &&& c == '+' ==> r == Some(before + (quote + marker(kind) + seq!['-'] + rest) + behind)
            &&& c == ' ' ==> r is None
        }),
{
    let m = marker(kind);
    let line = quote + m + seq![c] + rest;
    let s = before + line + behind;
    let a = before.len() as int;
    let at = quote.len() + m.len();
    lemma_line(before, line, behind, k);
    lemma_fold_char(quote, kind, m, c, rest);
    lemma_put(before, quote + m, c, rest, behind, '+');
    lemma_put(before, quote + m, c, rest, behind, '-');
}

proof fn lemma_put(
    before: Seq<char>,
    lead: Seq<char>,
    c: char,
    rest: Seq<char>,
    behind: Seq<char>,
    d: char,
)
    ensures
        (before + (lead + seq![c] + rest) + behind).update((before.len() + lead.len()) as int, d)
            == before + (lead + seq![d] + rest) + behind,
{
    assert((before + (lead + seq![c] + rest) + behind).update(
        (before.len() + lead.len()) as int,
        d,
    ) =~= before + (lead + seq![d] + rest) + behind);
}

pub(crate) proof fn lemma_fold_char(
    quote: Seq<char>,
    kind: AlertKind,
    m: Seq<char>,
    c: char,
    rest: Seq<char>,
)
    requires
        m == marker(kind),
        forall|j: int| 0 <= j < quote.len() ==> #[trigger] quote[j] == '>' || quote[j] == ' ',
        c == '-' || c == '+' || c == ' ',
        rest.len() == 0 || rest[0] == ' ',
    ensures
        fold_char(quote + m + seq![c] + rest) == if c == ' ' {
            None
        } else {
            Some(((quote.len() + m.len()) as int, c == '-'))
        },
{
    let line = quote + m + seq![c] + rest;
    let p = quote.len() as int;
    let n = m.len() as int;
    assert(m.len() > 0 && m[0] == '[');
    assert(line[p] == m[0]);
    lemma_quote_end_at(line, 0, p);
    let body = line.skip(p);
    assert(body =~= Seq::<char>::empty() + m + (seq![c] + rest));
    lemma_stands(Seq::empty(), m, seq![c] + rest);
    lemma_one_marker(body, 0, kind);
    assert(body[0] == '[');
    assert(!is_space(body[0]));
    assert(text::space_end(body, 0) == 0);
    assert(body[n] == c);
    if rest.len() > 0 {
        assert(body[n + 1] == rest[0]);
    }
    assert(marker_at(body, 0, false) is Some);
}

proof fn lemma_quote_end_at(s: Seq<char>, i: int, p: int)
    requires
        0 <= i <= p < s.len(),
        forall|j: int| i <= j < p ==> #[trigger] s[j] == '>' || s[j] == ' ',
        s[p] != '>',
        s[p] != ' ',
    ensures
        quote_end(s, i) == p,
    decreases p - i,
{
    if i < p {
        lemma_quote_end_at(s, i + 1, p);
    }
}

// --- List items ---

/// Whether `s` is spaces and tabs.
pub open spec fn is_lead(s: Seq<char>) -> bool {
    forall|k: int| 0 <= k < s.len() ==> #[trigger] s[k] == ' ' || s[k] == '\t'
}

/// Whether `s` holds more than whitespace.
pub open spec fn has_words(s: Seq<char>) -> bool {
    exists|k: int| 0 <= k < s.len() && !is_space(#[trigger] s[k])
}

/// Whether a task box and a space lead.
pub open spec fn opens_a_box(s: Seq<char>) -> bool {
    s.len() >= 4 && s[0] == '[' && s[1] as u32 <= 0x7f && s[2] == ']' && s[3] == ' '
}

proof fn lemma_words(s: Seq<char>)
    ensures
        has_words(s) <==> text::trim(s).len() > 0,
{
    text::lemma_space_end(s, 0);
    let a = text::space_end(s, 0);
    let t = s.skip(a);
    text::lemma_space_start(t, t.len() as int);
    if has_words(s) {
        let k = choose|k: int| 0 <= k < s.len() && !is_space(#[trigger] s[k]);
        assert(a <= k);
        assert(t[k - a] == s[k]);
    }
    if text::trim(s).len() > 0 {
        assert(!is_space(s[a]));
    }
}

/// An item's marker, told apart from its words.
proof fn lemma_marker(m: Seq<char>, next: Seq<char>, words: Seq<char>)
    requires
        leads_to(m, next, words),
    ensures
        marker_of(m + words) is Some,
        marker_of(m + words)->0.next == next,
        marker_of(m + words)->0.content == m.len(),
        m.len() > 0,
        m[0] != ' ',
        m[0] != '\t',
{
    let s = m + words;
    let l = m.len() as int;
    if words.len() >= 4 {
        assert(s[l] == words[0] && s[l + 1] == words[1]);
        assert(s[l + 2] == words[2] && s[l + 3] == words[3]);
    }
    if exists|n: nat, d: char| #[trigger] counts(m, next, n, d) {
        let (n, d) = choose|n: nat, d: char| #[trigger] counts(m, next, n, d);
        let digits = decimal(n);
        let e = digits.len() as int;
        lemma_decimal_reads_back(n);
        assert forall|k: int| 0 <= k < e implies text::is_digit(#[trigger] s[k]) by {
            assert(s[k] == digits[k]);
        }
        assert(s[e] == d && s[e + 1] == ' ');
        lemma_digits_stop(s, 0, e);
        assert(s.take(e) =~= digits);
        assert(m[0] == s[0]);
        assert(text::is_digit(s[0]));
    }
}

/// Whether `m` is a number, `d` and a space, and `next` the same with the number
/// that follows.
pub open spec fn counts(m: Seq<char>, next: Seq<char>, n: nat, d: char) -> bool {
    &&& n <= u64::MAX
    &&& d == '.' || d == ')'
    &&& m == decimal(n) + seq![d, ' ']
    &&& next == decimal(n + 1) + seq![d, ' ']
}

/// Whether an item marked `m`, with `words` behind it, is followed by one marked
/// `next`: a bullet by the same bullet, a task by an open task, a number by the
/// next number, a quote by a quote.
pub open spec fn leads_to(m: Seq<char>, next: Seq<char>, words: Seq<char>) -> bool {
    ||| m.len() == 2 && (m[0] == '-' || m[0] == '*' || m[0] == '+') && m[1] == ' ' && next == m
        && !opens_a_box(words)
    ||| m.len() == 6 && (m[0] == '-' || m[0] == '*' || m[0] == '+') && m[1] == ' ' && opens_a_box(
        m.skip(2),
    ) && next == m.update(3, ' ')
    ||| exists|n: nat, d: char| #[trigger] counts(m, next, n, d)
    ||| m == seq!['>', ' '] && next == m
}

/// Enter on an item that has words puts in a new line with the item's own indent
/// and the marker that follows its own; on an item without words it takes the
/// whole line away.
pub proof fn law_enter_continues_an_item(
    before: Seq<char>,
    lead: Seq<char>,
    m: Seq<char>,
    next: Seq<char>,
    words: Seq<char>,
    behind: Seq<char>,
    k: int,
)
    requires
        is_line(before, lead + m + words, behind),
        is_lead(lead),
        leads_to(m, next, words),
        0 <= k <= lead.len() + m.len() + words.len(),
    ensures
        ({
            let s = before + (lead + m + words) + behind;
            let a = before.len() as int;
            let r = continuation(s, offset(s, a + k) as int);
            &&& has_words(words) ==> r == Some(Edit::Continue(seq!['\n'] + lead + next))
            &&& !has_words(words) ==> r == Some(
                Edit::Exit {
                    start: offset(s, a) as int,
                    end: offset(s, a + (lead + m + words).len()) as int,
                },
            )
        }),
{
    let line = lead + m + words;
    let s = before + line + behind;
    let a = before.len() as int;
    lemma_line(before, line, behind, k);
    lemma_caret_at(s, a + k);
    lemma_marker(m, next, words);
    let n = lead.len() as int;
    assert(line[n] == m[0]);
    assert forall|j: int| 0 <= j < n implies #[trigger] line[j] == ' ' || line[j] == '\t' by {
        assert(line[j] == lead[j]);
    }
    lemma_indent_stop(line, 0, n);
    assert(line.skip(n) =~= m + words);
    assert(line.take(n) =~= lead);
    assert((m + words).skip(m.len() as int) =~= words);
    lemma_words(words);
    assert(caret_item(s, offset(s, a + k) as int) == m + words);
}

/// Tab on an item puts the indent at the start of its line and changes nothing
/// else.
pub proof fn law_tab_moves_an_item(
    before: Seq<char>,
    lead: Seq<char>,
    m: Seq<char>,
    next: Seq<char>,
    words: Seq<char>,
    behind: Seq<char>,
    k: int,
    indent: Seq<char>,
)
    requires
        is_line(before, lead + m + words, behind),
        is_lead(lead),
        leads_to(m, next, words),
        0 <= k <= lead.len() + m.len() + words.len(),
    ensures
        ({
            let s = before + (lead + m + words) + behind;
            indented(s, offset(s, before.len() + k) as int, indent) == Some(
                before + (indent + (lead + m + words)) + behind,
            )
        }),
{
    let line = lead + m + words;
    let s = before + line + behind;
    let a = before.len() as int;
    law_enter_continues_an_item(before, lead, m, next, words, behind, k);
    lemma_line(before, line, behind, k);
    lemma_caret_at(s, a + k);
    assert(s.take(a) + indent + s.skip(a) =~= before + (indent + line) + behind);
}

/// A line of plain words is no item: Enter and Tab leave it alone.
pub proof fn law_words_are_no_item(
    before: Seq<char>,
    lead: Seq<char>,
    words: Seq<char>,
    behind: Seq<char>,
    k: int,
    indent: Seq<char>,
)
    requires
        is_line(before, lead + words, behind),
        is_lead(lead),
        words.len() > 0,
        text::is_letter(words[0]),
        0 <= k <= lead.len() + words.len(),
    ensures
        ({
            let s = before + (lead + words) + behind;
            let at = offset(s, before.len() + k) as int;
            &&& continuation(s, at) is None
            &&& indented(s, at, indent) is None
        }),
{
    let line = lead + words;
    let s = before + line + behind;
    let a = before.len() as int;
    lemma_line(before, line, behind, k);
    lemma_caret_at(s, a + k);
    let n = lead.len() as int;
    assert(line[n] == words[0]);
    assert forall|j: int| 0 <= j < n implies #[trigger] line[j] == ' ' || line[j] == '\t' by {
        assert(line[j] == lead[j]);
    }
    lemma_indent_stop(line, 0, n);
    assert(line.skip(n) =~= words);
    assert(text::digits_end(words, 0) == 0);
    assert(caret_item(s, offset(s, a + k) as int) == words);
}

/// Re-indenting moves an item that is nested some levels deep to as many levels
/// of the new width, and keeps what it holds.
pub proof fn law_a_nested_item_is_reindented(item: Seq<char>, levels: nat, old_unit: nat, new_unit: nat)
    requires
        item.len() > 0,
        item[0] != ' ',
        marker_of(item) is Some,
        old_unit > 0,
        levels > 0,
    ensures
        reindented(spaces(levels * old_unit) + item, old_unit, new_unit) == spaces(
            levels * new_unit,
        ) + item,
{
    let n = levels * old_unit;
    let lead = spaces(n);
    let line = lead + item;
    assert(n > 0) by (nonlinear_arith)
        requires
            n == levels * old_unit,
            levels > 0,
            old_unit > 0,
    ;
    assert(line[n as int] == item[0]);
    lemma_space_run(line, 0, n as int);
    assert(line.skip(n as int) =~= item);
    assert(n / old_unit == levels) by (nonlinear_arith)
        requires
            n == levels * old_unit,
            old_unit > 0,
    ;
}

proof fn lemma_space_run(s: Seq<char>, i: int, n: int)
    requires
        0 <= i <= n < s.len(),
        forall|k: int| i <= k < n ==> #[trigger] s[k] == ' ',
        s[n] != ' ',
    ensures
        text::run_of(s, ' ', i) == n - i,
    decreases n - i,
{
    if i < n {
        lemma_space_run(s, i + 1, n);
    }
}

} // verus!
