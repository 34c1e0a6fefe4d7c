//! Whether a page can be parsed without a visible stall.
use crate::text;
use crate::text::{part, skip_space, split_lines, Text};
use vstd::prelude::*;

verus! {

/// Source bigger than this never parses on the render thread.
pub const INLINE_PARSE_MAX: usize = 131072;

/// Blockquote nesting deeper than this defers.
pub const MAX_QUOTE_DEPTH: usize = 8;

/// More `[` in the page than this defers.
pub const MAX_BRACKETS: usize = 4000;

/// More rows in a single table than this defers.
pub const MAX_TABLE_ROWS: usize = 200;

/// More `*` and `_` in the page than this defers.
pub const MAX_EMPHASIS: usize = 8000;

/// Whether a line is a table row.
pub open spec fn is_row(line: Seq<char>) -> bool {
    let t = text::trim_start(line);
    t.len() > 0 && t[0] == '|'
}

/// How many table rows end with line `n - 1`, without another line between.
pub open spec fn rows_upto(lines: Seq<Seq<char>>, n: int) -> nat
    decreases n,
{
    if n <= 0 || !is_row(lines[n - 1]) {
        0
    } else {
        rows_upto(lines, n - 1) + 1
    }
}

/// How many `>` lead `s` from `i` on, blanks and tabs between them skipped.
pub open spec fn quotes_from(s: Seq<char>, i: int) -> nat
    decreases s.len() - i,
{
    if i < 0 || i >= s.len() {
        0
    } else if s[i] == '>' {
        quotes_from(s, i + 1) + 1
    } else if s[i] == ' ' || s[i] == '\t' {
        quotes_from(s, i + 1)
    } else {
        0
    }
}

/// The blockquote depth of a line.
pub open spec fn quote_depth(line: Seq<char>) -> nat {
    quotes_from(text::trim_start(line), 0)
}

/// How often `c` stands in `s`.
pub open spec fn count(s: Seq<char>, c: char) -> nat
    decreases s.len(),
{
    if s.len() == 0 {
        0
    } else if s.last() == c {
        count(s.drop_last(), c) + 1
    } else {
        count(s.drop_last(), c)
    }
}

/// Whether a page is cheap to parse: it is small, no table of it has too many
/// rows, no quote is too deep, and it holds few enough brackets and emphasis
/// marks. Size alone does not predict the cost of a parse.
pub open spec fn is_cheap(s: Seq<char>) -> bool {
    let lines = text::lines_of(s);
    &&& text::blen(s) <= INLINE_PARSE_MAX
    &&& forall|n: int| 0 <= n <= lines.len() ==> #[trigger] rows_upto(lines, n) <= MAX_TABLE_ROWS
    &&& forall|n: int|
        0 <= n < lines.len() ==> quote_depth(#[trigger] lines[n]) <= MAX_QUOTE_DEPTH
    &&& count(s, '[') <= MAX_BRACKETS
    &&& count(s, '*') + count(s, '_') <= MAX_EMPHASIS
}

fn count_depth(t: &[char]) -> (r: usize)
    ensures
        r as nat == quotes_from(t@, 0),
{
    let mut depth: usize = 0;
    let mut i: usize = 0;
    while i < t.len() && (t[i] == '>' || t[i] == ' ' || t[i] == '\t')
        invariant
            i <= t@.len(),
            depth <= i,
            quotes_from(t@, 0) == depth + quotes_from(t@, i as int),
        decreases t.len() - i,
    {
        if t[i] == '>' {
            depth += 1;
        }
        i += 1;
    }
    depth
}

fn count_marks(s: &[char]) -> (r: (usize, usize))
    ensures
        r.0 as nat == count(s@, '['),
        r.1 as nat == count(s@, '*') + count(s@, '_'),
{
    let mut brackets: usize = 0;
    let mut emphasis: usize = 0;
    let mut i: usize = 0;
    assert(s@.take(0) =~= Seq::<char>::empty());
    while i < s.len()
        invariant
            i <= s@.len(),
            brackets <= i,
            emphasis <= i,
            brackets as nat == count(s@.take(i as int), '['),
            emphasis as nat == count(s@.take(i as int), '*') + count(s@.take(i as int), '_'),
        decreases s.len() - i,
    {
        assert(s@.take(i + 1).drop_last() =~= s@.take(i as int));
        assert(s@.take(i + 1).last() == s@[i as int]);
        if s[i] == '[' {
            brackets += 1;
        } else if s[i] == '*' || s[i] == '_' {
            emphasis += 1;
        }
        i += 1;
    }
    assert(s@.take(s@.len() as int) =~= s@);
    (brackets, emphasis)
}

/// Linear pre-scan: can `source` be parsed on the render thread without a
/// stall that the user sees?
pub fn is_cheap_to_parse(source: &str) -> (r: bool)
    ensures
        r == is_cheap(source@),
{
    let t = Text::new(source);
    let s = t.chars.as_slice();
    let n: usize = s.len();
    proof {
        text::lemma_offset_end(source@);
    }
    assert(t.offs@[n as int] == text::offset(source@, n as int));
    if t.offs[n] > INLINE_PARSE_MAX {
        return false;
    }
    let (brackets, emphasis) = count_marks(s);
    if brackets > MAX_BRACKETS || emphasis > MAX_EMPHASIS {
        return false;
    }
    let rows = split_lines(s);
    let ghost lines = text::lines_of(source@);
    let mut run: usize = 0;
    let mut k: usize = 0;
    while k < rows.len()
        invariant
            s@ == source@,
            lines == text::lines_of(source@),
            rows@.len() == lines.len(),
            forall|k: int|
                #![trigger rows@[k]]
                #![trigger lines[k]]
                0 <= k < rows@.len() ==> rows@[k].0 <= rows@[k].1 <= s@.len() && s@.subrange(
                    rows@[k].0 as int,
                    rows@[k].1 as int,
                ) == lines[k],
            k <= rows@.len(),
            run as nat == rows_upto(lines, k as int),
            run <= MAX_TABLE_ROWS,
            forall|m: int| 0 <= m <= k ==> #[trigger] rows_upto(lines, m) <= MAX_TABLE_ROWS,
            forall|m: int| 0 <= m < k ==> quote_depth(#[trigger] lines[m]) <= MAX_QUOTE_DEPTH,
        decreases rows.len() - k,
    {
        assert(rows@[k as int].0 <= rows@[k as int].1);
        let line = part(s, rows[k].0, rows[k].1);
        let a: usize = skip_space(line, 0);
        let m: usize = line.len();
        let body = part(line, a, m);
        assert(body@ =~= text::trim_start(line@));
        if body.len() > 0 && body[0] == '|' {
            run += 1;
            assert(rows_upto(lines, k + 1) == run);
            if run > MAX_TABLE_ROWS {
                return false;
            }
        } else {
            run = 0;
            assert(rows_upto(lines, k + 1) == 0);
        }
        if count_depth(body) > MAX_QUOTE_DEPTH {
            assert(quote_depth(lines[k as int]) > MAX_QUOTE_DEPTH);
            return false;
        }
        k += 1;
    }
    true
}

} // verus!
