//! What makes a page too costly to parse in a frame.
use crate::cheap::{
    count, is_cheap, is_row, quote_depth, quotes_from, rows_upto, INLINE_PARSE_MAX, MAX_BRACKETS,
    MAX_EMPHASIS, MAX_QUOTE_DEPTH, MAX_TABLE_ROWS,
};
use crate::math_laws::lacks;
use crate::text;
use crate::text::{blen, lines_from, lines_of, trim_start};
use vstd::prelude::*;

verus! {

/// Counting a character goes through a text one by one.
pub proof fn law_characters_are_counted(s: Seq<char>, c: char, d: char)
    ensures
        count(Seq::empty(), c) == 0,
        count(s.push(d), c) == count(s, c) + if d == c {
            1nat
        } else {
            0
        },
{
    assert(s.push(d).drop_last() =~= s);
}

/// A line is as deep a quote as it begins with arrows.
pub proof fn law_arrows_are_counted(n: nat, words: Seq<char>)
    requires
        words.len() == 0 || (words[0] != '>' && words[0] != ' ' && words[0] != '\t'),
    ensures
        quotes_from(crate::numbering::repeated('>', n) + words, 0) == n,
        n > 0 ==> quote_depth(crate::numbering::repeated('>', n) + words) == n,
{
    let s = crate::numbering::repeated('>', n) + words;
    lemma_arrows(s, n as int, 0);
    if n > 0 {
        assert(s[0] == '>');
        assert(text::space_end(s, 0) == 0);
        assert(s.skip(0) =~= s);
    }
}

proof fn lemma_arrows(s: Seq<char>, n: int, i: int)
    requires
        0 <= i <= n <= s.len(),
        forall|k: int| i <= k < n ==> #[trigger] s[k] == '>',
        n == s.len() || (s[n] != '>' && s[n] != ' ' && s[n] != '\t'),
    ensures
        quotes_from(s, i) == n - i,
    decreases n - i,
{
    if i < n {
        lemma_arrows(s, n, i + 1);
    }
}

/// A page that is too long, has too many brackets or emphasis marks, too deep a
/// quote, or too long a table, is not cheap.
pub proof fn law_costly_pages(s: Seq<char>, n: int)
    requires
        0 <= n < lines_of(s).len(),
    ensures
        blen(s) > INLINE_PARSE_MAX ==> !is_cheap(s),
        count(s, '[') > MAX_BRACKETS ==> !is_cheap(s),
        count(s, '*') + count(s, '_') > MAX_EMPHASIS ==> !is_cheap(s),
        quote_depth(lines_of(s)[n]) > MAX_QUOTE_DEPTH ==> !is_cheap(s),
        n >= MAX_TABLE_ROWS && (forall|k: int|
            n - MAX_TABLE_ROWS <= k <= n ==> is_row(#[trigger] lines_of(s)[k])) ==> !is_cheap(s),
{
    let lines = lines_of(s);
    if n >= MAX_TABLE_ROWS && (forall|k: int|
        n - MAX_TABLE_ROWS <= k <= n ==> is_row(#[trigger] lines[k])) {
        lemma_rows(lines, n - MAX_TABLE_ROWS, n + 1);
        assert(rows_upto(lines, n + 1) > MAX_TABLE_ROWS);
    }
}

proof fn lemma_rows(lines: Seq<Seq<char>>, i: int, n: int)
    requires
        0 <= i <= n <= lines.len(),
        forall|k: int| i <= k < n ==> is_row(#[trigger] lines[k]),
    ensures
        rows_upto(lines, n) >= n - i,
    decreases n - i,
{
    if i < n {
        assert(is_row(lines[n - 1]));
        lemma_rows(lines, i, n - 1);
    }
}

proof fn lemma_none(s: Seq<char>, c: char)
    requires
        lacks(s, c),
    ensures
        count(s, c) == 0,
    decreases s.len(),
{
    if s.len() > 0 {
        let t = s.drop_last();
        assert forall|k: int| 0 <= k < t.len() implies #[trigger] t[k] != c by {
            assert(t[k] == s[k]);
        }
        assert(s.last() == s[s.len() - 1]);
        lemma_none(t, c);
    }
}

proof fn lemma_no_arrows(s: Seq<char>, i: int)
    requires
        lacks(s, '>'),
        0 <= i,
    ensures
        quotes_from(s, i) == 0,
    decreases s.len() - i,
{
    if i < s.len() {
        assert(s[i] != '>');
        lemma_no_arrows(s, i + 1);
    }
}

proof fn lemma_lines_lack(s: Seq<char>, c: char, i: int, n: int)
    requires
        lacks(s, c),
        0 <= i,
        0 <= n < lines_from(s, i).len(),
    ensures
        lacks(lines_from(s, i)[n], c),
    decreases s.len() - i,
{
    text::lemma_index_of(s, '\n', i);
    match text::index_of(s, '\n', i) {
        Some(e) => {
            let line = s.subrange(i, e);
            if n == 0 {
                assert forall|k: int| 0 <= k < line.len() implies #[trigger] line[k] != c by {
                    assert(line[k] == s[i + k]);
                }
            } else {
                lemma_lines_lack(s, c, e + 1, n - 1);
                assert(lines_from(s, i)[n] == lines_from(s, e + 1)[n - 1]);
            }
        },
        None => {
            let line = s.skip(i);
            assert forall|k: int| 0 <= k < line.len() implies #[trigger] line[k] != c by {
                assert(line[k] == s[i + k]);
            }
        },
    }
}

proof fn lemma_plain_line(line: Seq<char>)
    requires
        lacks(line, '|'),
        lacks(line, '>'),
    ensures
        !is_row(line),
        quote_depth(line) == 0,
{
    let t = trim_start(line);
    text::lemma_space_end(line, 0);
    let a = text::space_end(line, 0);
    assert forall|k: int| 0 <= k < t.len() implies #[trigger] t[k] != '>' && t[k] != '|' by {
        assert(t[k] == line[a + k]);
    }
    lemma_no_arrows(t, 0);
}

/// A page of plain words that is not too long is cheap.
pub proof fn law_plain_pages_are_cheap(s: Seq<char>)
    requires
        blen(s) <= INLINE_PARSE_MAX,
        lacks(s, '['),
        lacks(s, '*'),
        lacks(s, '_'),
        lacks(s, '|'),
        lacks(s, '>'),
    ensures
        is_cheap(s),
{
    let lines = lines_of(s);
    lemma_none(s, '[');
    lemma_none(s, '*');
    lemma_none(s, '_');
    assert forall|n: int| 0 <= n < lines.len() implies !is_row(#[trigger] lines[n]) && quote_depth(
        lines[n],
    ) == 0 by {
        lemma_lines_lack(s, '|', 0, n);
        lemma_lines_lack(s, '>', 0, n);
        lemma_plain_line(lines[n]);
    }
    assert forall|n: int| 0 <= n <= lines.len() implies #[trigger] rows_upto(lines, n)
        <= MAX_TABLE_ROWS by {
        if n > 0 {
            assert(!is_row(lines[n - 1]));
        }
    }
}

} // verus!
