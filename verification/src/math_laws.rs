//! Display math put on lines of its own, told by what a line holds.
use crate::math::{
    align_above, align_named, closer, dollars, embedded, fence_words, normal_from, normal_of,
    normalized, ticks, MathMarkerAlign,
};
use crate::text;
use crate::text::{
    begins, holds_str, is_space, join_lines, lemma_index_of_str, lemma_trim_between, lines_of,
    stands_at, trim, trim_end, trim_start,
};
use vstd::prelude::*;

verus! {

/// Whether `c` stands nowhere in `s`.
pub open spec fn lacks(s: Seq<char>, c: char) -> bool {
    forall|k: int| 0 <= k < s.len() ==> #[trigger] s[k] != c
}

/// Whether `s` is whitespace.
pub open spec fn is_gap(s: Seq<char>) -> bool {
    forall|k: int| 0 <= k < s.len() ==> is_space(#[trigger] s[k])
}

/// Whether `s` has words, and no whitespace at either end.
pub open spec fn is_tight(s: Seq<char>) -> bool {
    s.len() > 0 && !is_space(s[0]) && !is_space(s.last())
}

/// Whether `s` is words that hold no math and open no table or code.
pub open spec fn is_prose(s: Seq<char>) -> bool {
    is_tight(s) && lacks(s, '$') && s[0] != '|' && s[0] != '`'
}

proof fn lemma_pair_of_signs(s: Seq<char>, k: int)
    ensures
        stands_at(s, k, dollars()) <==> 0 <= k && k + 2 <= s.len() && s[k] == '$' && s[k + 1]
            == '$',
{
    if 0 <= k && k + 2 <= s.len() {
        let t = s.subrange(k, k + 2);
        assert(t[0] == s[k] && t[1] == s[k + 1]);
        if s[k] == '$' && s[k + 1] == '$' {
            assert(t =~= dollars());
        }
    }
}

proof fn lemma_no_signs(s: Seq<char>)
    requires
        lacks(s, '$'),
    ensures
        !holds_str(s, dollars()),
        s.len() > 0 ==> !text::ends(s, dollars()),
        !begins(s, dollars()),
        s != dollars(),
{
    lemma_index_of_str(s, dollars(), 0);
    match text::index_of_str(s, dollars(), 0) {
        Some(k) => {
            lemma_pair_of_signs(s, k);
        },
        None => {},
    }
    lemma_pair_of_signs(s, s.len() - 2);
    lemma_pair_of_signs(s, 0);
    if s == dollars() {
        assert(s[0] == '$');
    }
}

proof fn lemma_no_ticks(s: Seq<char>)
    requires
        s.len() == 0 || s[0] != '`',
    ensures
        !begins(s, ticks()),
{
    if begins(s, ticks()) {
        assert(s.subrange(0, 3)[0] == s[0]);
        assert(ticks()[0] == '`');
    }
}

proof fn lemma_is_trimmed(s: Seq<char>)
    requires
        is_tight(s),
    ensures
        trim(s) == s,
        trim_start(s) == s,
        trim_end(s) == s,
{
    lemma_trim_between(s, 0, s.len() as int);
    assert(s.subrange(0, s.len() as int) =~= s);
    assert(s.skip(0) =~= s);
    assert(s.take(s.len() as int) =~= s);
}

/// A line that is math between words: the words and the gap before it, the
/// math, the gap and the words behind it.
pub open spec fn math_line(
    words: Seq<char>,
    gap: Seq<char>,
    body: Seq<char>,
    gap2: Seq<char>,
    rest: Seq<char>,
) -> Seq<char> {
    words + gap + seq!['$', '$'] + body + seq!['$', '$'] + gap2 + rest
}

pub(crate) proof fn lemma_embedded(
    words: Seq<char>,
    gap: Seq<char>,
    body: Seq<char>,
    gap2: Seq<char>,
    rest: Seq<char>,
)
    requires
        is_prose(words),
        is_gap(gap),
        is_tight(body),
        lacks(body, '$'),
        is_gap(gap2),
        lacks(rest, '$'),
    ensures
        ({
            let line = math_line(words, gap, body, gap2, rest);
            let s = (words.len() + gap.len()) as int;
            let e = s + 4 + body.len();
            &&& embedded(line) == Some((s, e))
            &&& line.take(s) == words + gap
            &&& line.subrange(s, e) == seq!['$', '$'] + body + seq!['$', '$']
            &&& line.skip(e) == gap2 + rest
            &&& !begins(trim(line), ticks())
        }),
{
    let line = math_line(words, gap, body, gap2, rest);
    let w = words + gap;
    let r = gap2 + rest;
    let signs = seq!['$', '$'];
    let s = w.len() as int;
    let b = s + 2 + body.len();
    lemma_gap_lacks(words, gap);
    lemma_gap_lacks(rest, gap2);
    assert(line =~= w + (signs + (body + signs + r)));
    assert(line =~= (w + signs + body) + signs + r);
    lemma_first_pair(w, body + signs + r);
    lemma_last_pair(w + signs + body, r);
    assert(line.take(s) =~= w);
    assert(line.subrange(s, b + 2) =~= signs + body + signs);
    assert(line.skip(b + 2) =~= r);
    assert(line.subrange(s + 2, b) =~= body);
    lemma_no_signs(body);
    lemma_head(line, words);
    lemma_gap_around(words, gap, Seq::empty(), Seq::empty());
    lemma_trim_len(words, gap);
}

proof fn lemma_trim_len(words: Seq<char>, gap: Seq<char>)
    requires
        is_tight(words),
        is_gap(gap),
    ensures
        trim(words + gap).len() > 0,
{
    let w = words + gap;
    assert forall|k: int| words.len() <= k < w.len() implies is_space(#[trigger] w[k]) by {
        assert(w[k] == gap[k - words.len()]);
    }
    assert(w[words.len() - 1] == words.last());
    assert(w[0] == words[0]);
    lemma_trim_between(w, 0, words.len() as int);
}

/// What a line that begins with prose does not begin with.
proof fn lemma_head(line: Seq<char>, words: Seq<char>)
    requires
        is_prose(words),
        line.len() > 0,
        line[0] == words[0],
    ensures
        !begins(trim(line), ticks()),
        !begins(trim_start(line), seq!['|']),
{
    let t = trim_start(line);
    assert(text::space_end(line, 0) == 0);
    assert(t =~= line);
    if begins(t, seq!['|']) {
        assert(t.subrange(0, 1)[0] == t[0]);
    }
    text::lemma_space_start(t, t.len() as int);
    if trim(line).len() > 0 {
        assert(trim(line)[0] == line[0]);
    }
    lemma_no_ticks(trim(line));
}

proof fn lemma_gap_lacks(words: Seq<char>, gap: Seq<char>)
    requires
        lacks(words, '$'),
        is_gap(gap),
    ensures
        lacks(words + gap, '$'),
        lacks(gap + words, '$'),
{
    let w = words + gap;
    let v = gap + words;
    assert forall|k: int| 0 <= k < w.len() implies #[trigger] w[k] != '$' by {
        if k < words.len() {
            assert(w[k] == words[k]);
        } else {
            assert(w[k] == gap[k - words.len()]);
        }
    }
    assert forall|k: int| 0 <= k < v.len() implies #[trigger] v[k] != '$' by {
        if k < gap.len() {
            assert(v[k] == gap[k]);
        } else {
            assert(v[k] == words[k - gap.len()]);
        }
    }
}

proof fn lemma_first_from(line: Seq<char>, i: int, n: int)
    requires
        0 <= i <= n,
        n + 2 <= line.len(),
        forall|k: int| i <= k < n ==> #[trigger] line[k] != '$',
        line[n] == '$',
        line[n + 1] == '$',
    ensures
        text::index_of_str(line, dollars(), i) == Some(n),
    decreases n - i,
{
    lemma_pair_of_signs(line, i);
    if i < n {
        assert(line[i] != '$');
        lemma_first_from(line, i + 1, n);
    }
}

proof fn lemma_last_from(line: Seq<char>, i: int, n: int)
    requires
        0 <= n <= i <= line.len(),
        n + 2 <= line.len(),
        forall|k: int| n + 2 <= k < line.len() ==> #[trigger] line[k] != '$',
        line[n] == '$',
        line[n + 1] == '$',
    ensures
        text::last_index_of_str(line, dollars(), i) == Some(n),
    decreases i - n,
{
    lemma_pair_of_signs(line, i);
    if i > n {
        if i + 1 < line.len() {
            assert(line[i + 1] != '$');
        }
        lemma_last_from(line, i - 1, n);
    }
}

proof fn lemma_first_pair(w: Seq<char>, t: Seq<char>)
    requires
        lacks(w, '$'),
    ensures
        text::index_of_str(w + (seq!['$', '$'] + t), dollars(), 0) == Some(w.len() as int),
{
    let line = w + (seq!['$', '$'] + t);
    let n = w.len() as int;
    assert forall|k: int| 0 <= k < n implies #[trigger] line[k] != '$' by {
        assert(line[k] == w[k]);
    }
    lemma_first_from(line, 0, n);
}

proof fn lemma_last_pair(h: Seq<char>, r: Seq<char>)
    requires
        lacks(r, '$'),
    ensures
        text::last_index_of_str(
            h + seq!['$', '$'] + r,
            dollars(),
            (h + seq!['$', '$'] + r).len() as int,
        ) == Some(h.len() as int),
{
    let line = h + seq!['$', '$'] + r;
    let n = h.len() as int;
    assert forall|k: int| n + 2 <= k < line.len() implies #[trigger] line[k] != '$' by {
        assert(line[k] == r[k - n - 2]);
    }
    lemma_last_from(line, line.len() as int, n);
}

proof fn lemma_gap_around(words: Seq<char>, gap: Seq<char>, gap2: Seq<char>, rest: Seq<char>)
    requires
        is_tight(words),
        is_gap(gap),
        is_gap(gap2),
        rest.len() == 0 || is_tight(rest),
    ensures
        trim_end(words + gap) == words,
        trim_start(gap2 + rest) == rest,
{
    let w = words + gap;
    assert forall|k: int| words.len() <= k < w.len() implies is_space(#[trigger] w[k]) by {
        assert(w[k] == gap[k - words.len()]);
    }
    assert(w[words.len() - 1] == words.last());
    assert(w[0] == words[0]);
    lemma_trim_between(w, 0, words.len() as int);
    assert(w.take(words.len() as int) =~= words);
    let r = gap2 + rest;
    let n = gap2.len() as int;
    assert forall|k: int| 0 <= k < n implies is_space(#[trigger] r[k]) by {
        assert(r[k] == gap2[k]);
    }
    if rest.len() > 0 {
        assert(r[n] == rest[0]);
    }
    text::lemma_space_end_at(r, 0, n);
    assert(r.skip(n) =~= rest);
}

/// Lines that hold neither `$` nor a backtick stay as they are.
proof fn lemma_plain_lines(lines: Seq<Seq<char>>, i: int, k: int)
    requires
        0 <= i <= k <= lines.len(),
        forall|j: int| i <= j < k ==> lacks(#[trigger] lines[j], '$') && lacks(lines[j], '`'),
    ensures
        normal_from(lines, i, false).lines == lines.subrange(i, k) + normal_from(
            lines,
            k,
            false,
        ).lines,
        normal_from(lines, i, false).changed == normal_from(lines, k, false).changed,
    decreases k - i,
{
    if i < k {
        lemma_plain_lines(lines, i + 1, k);
        let line = lines[i];
        lemma_trim_keeps(line);
        lemma_no_ticks(trim(line));
        lemma_no_signs(line);
        lemma_no_signs(trim(line));
        lemma_index_of_str(line, dollars(), 0);
        assert(embedded(line) is None);
        assert(fence_words(line) != Some(true)) by {
            if trim(line).len() == 0 {
                lemma_pair_of_signs(trim(line), -2);
            }
        }
        assert(lines.subrange(i, k) =~= seq![line] + lines.subrange(i + 1, k));
    } else {
        assert(lines.subrange(i, k) =~= Seq::<Seq<char>>::empty());
        assert(Seq::<Seq<char>>::empty() + normal_from(lines, k, false).lines =~= normal_from(
            lines,
            k,
            false,
        ).lines);
    }
}

proof fn lemma_trim_keeps(s: Seq<char>)
    ensures
        forall|c: char| lacks(s, c) ==> lacks(trim(s), c),
{
    text::lemma_space_end(s, 0);
    let a = text::space_end(s, 0);
    let t = s.skip(a);
    text::lemma_space_start(t, t.len() as int);
    assert forall|c: char| lacks(s, c) implies lacks(trim(s), c) by {
        assert forall|k: int| 0 <= k < trim(s).len() implies #[trigger] trim(s)[k] != c by {
            assert(trim(s)[k] == s[a + k]);
        }
    }
}

/// Math between words goes onto a line of its own: the words before it stay
/// above, the words behind it below, and the plain lines above as they are.
pub proof fn law_math_between_words_gets_a_line(
    source: Seq<char>,
    i: int,
    words: Seq<char>,
    gap: Seq<char>,
    body: Seq<char>,
    gap2: Seq<char>,
    rest: Seq<char>,
)
    requires
        is_prose(words),
        is_gap(gap),
        is_tight(body),
        lacks(body, '$'),
        is_gap(gap2),
        rest.len() == 0 || is_tight(rest),
        lacks(rest, '$'),
        0 <= i < lines_of(source).len(),
        forall|j: int|
            0 <= j < i ==> lacks(#[trigger] lines_of(source)[j], '$') && lacks(
                lines_of(source)[j],
                '`',
            ),
        lines_of(source)[i] == math_line(words, gap, body, gap2, rest),
    ensures
        ({
            let lines = lines_of(source);
            let below = if rest.len() > 0 {
                seq![rest]
            } else {
                seq![]
            };
            &&& normal_of(source).changed
            &&& normalized(source) == join_lines(normal_of(source).lines)
            &&& normal_of(source).lines == lines.take(i) + (seq![
                words,
                seq!['$', '$'] + body + seq!['$', '$'],
            ] + below + normal_from(lines, i + 1, false).lines)
        }),
{
    let lines = lines_of(source);
    let line = lines[i];
    lemma_embedded(words, gap, body, gap2, rest);
    lemma_gap_around(words, gap, gap2, rest);
    lemma_plain_lines(lines, 0, i);
    assert(lines.subrange(0, i) =~= lines.take(i));
    let below = if rest.len() > 0 {
        seq![rest]
    } else {
        seq![]
    };
    let pair = seq!['$', '$'] + body + seq!['$', '$'];
    assert(normal_from(lines, i, false).lines =~= seq![words, pair] + below + normal_from(
        lines,
        i + 1,
        false,
    ).lines);
}

pub(crate) proof fn lemma_opener(words: Seq<char>, gap: Seq<char>)
    requires
        is_prose(words),
        is_gap(gap),
    ensures
        ({
            let line = words + gap + seq!['$', '$'];
            &&& embedded(line) is None
            &&& fence_words(line) == Some(true)
            &&& !begins(trim(line), ticks())
            &&& crate::math::opener_words(line) == words
        }),
{
    let line = words + gap + seq!['$', '$'];
    let w = words + gap;
    let none = Seq::<char>::empty();
    let n = w.len() as int;
    assert(line[0] == words[0]);
    assert(line.last() == '$');
    lemma_is_trimmed(line);
    lemma_head(line, words);
    assert(line.take(n) =~= w);
    lemma_gap_lacks(words, gap);
    lemma_no_signs(w);
    assert(line =~= w + (seq!['$', '$'] + none));
    assert(line =~= w + seq!['$', '$'] + none);
    lemma_first_pair(w, none);
    lemma_last_pair(w, none);
    lemma_pair_of_signs(line, n);
    assert(line.len() > dollars().len());
    lemma_gap_around(words, gap, none, none);
}

pub(crate) proof fn lemma_closer_line(rest: Seq<char>)
    requires
        rest.len() == 0 || is_tight(rest),
        lacks(rest, '$'),
    ensures
        ({
            let line = seq!['$', '$'] + rest;
            &&& trim(line).len() > 0
            &&& !begins(trim(line), ticks())
            &&& trim(line) == dollars() || fence_words(line) == Some(false)
            &&& crate::math::closer_words(line) == rest
        }),
{
    let line = seq!['$', '$'] + rest;
    assert(line[0] == '$');
    if rest.len() > 0 {
        assert(line.last() == rest.last());
    }
    assert(is_tight(line));
    lemma_is_trimmed(line);
    lemma_no_ticks(line);
    assert(line.skip(2) =~= rest);
    lemma_no_signs(rest);
    lemma_pair_of_signs(line, 0);
    if rest.len() > 0 {
        lemma_is_trimmed(rest);
        lemma_pair_of_signs(line, line.len() - 2);
        assert(line != dollars());
    } else {
        assert(line =~= dollars());
        assert(text::space_end(rest, 0) == 0);
        assert(rest.skip(0) =~= rest);
    }
}

proof fn lemma_closes_at(lines: Seq<Seq<char>>, i: int, j: int)
    requires
        0 <= i <= j < lines.len(),
        forall|k: int|
            i <= k < j ==> lacks(#[trigger] lines[k], '$') && lacks(lines[k], '`') && trim(
                lines[k],
            ).len() > 0,
        trim(lines[j]).len() > 0,
        !begins(trim(lines[j]), ticks()),
        trim(lines[j]) == dollars() || fence_words(lines[j]) == Some(false),
    ensures
        closer(lines, i) == Some(j),
    decreases j - i,
{
    if i < j {
        let line = lines[i];
        lemma_trim_keeps(line);
        lemma_no_ticks(trim(line));
        lemma_no_signs(trim(line));
        lemma_closes_at(lines, i + 1, j);
    }
}

/// Math that opens behind words and closes before others goes onto lines of its
/// own: the signs stand alone, the lines between stay, and the words stay above
/// and below.
pub proof fn law_math_over_lines_gets_its_lines(
    source: Seq<char>,
    i: int,
    j: int,
    words: Seq<char>,
    gap: Seq<char>,
    rest: Seq<char>,
)
    requires
        is_prose(words),
        is_gap(gap),
        rest.len() == 0 || is_tight(rest),
        lacks(rest, '$'),
        0 <= i < j < lines_of(source).len(),
        forall|k: int|
            0 <= k < j && k != i ==> lacks(#[trigger] lines_of(source)[k], '$') && lacks(
                lines_of(source)[k],
                '`',
            ),
        forall|k: int| i < k < j ==> trim(#[trigger] lines_of(source)[k]).len() > 0,
        lines_of(source)[i] == words + gap + seq!['$', '$'],
        lines_of(source)[j] == seq!['$', '$'] + rest,
    ensures
        ({
            let lines = lines_of(source);
            let below = if rest.len() > 0 {
                seq![rest]
            } else {
                seq![]
            };
            &&& normal_of(source).changed
            &&& normalized(source) == join_lines(normal_of(source).lines)
            &&& normal_of(source).lines == lines.take(i) + (seq![words, seq!['$', '$']]
                + lines.subrange(i + 1, j) + seq![seq!['$', '$']] + below + normal_from(
                lines,
                j + 1,
                false,
            ).lines)
        }),
{
    let lines = lines_of(source);
    lemma_opener(words, gap);
    lemma_closer_line(rest);
    lemma_closes_at(lines, i + 1, j);
    lemma_plain_lines(lines, 0, i);
    assert(lines.subrange(0, i) =~= lines.take(i));
    assert(seq!['$', '$'] =~= dollars());
}

proof fn lemma_between(g: Seq<char>, s: Seq<char>, h: Seq<char>)
    requires
        is_gap(g),
        is_tight(s),
        is_gap(h),
    ensures
        trim(g + s + h) == s,
{
    let t = g + s + h;
    let i = g.len() as int;
    let j = i + s.len();
    assert forall|k: int| 0 <= k < i implies is_space(#[trigger] t[k]) by {
        assert(t[k] == g[k]);
    }
    assert forall|k: int| j <= k < t.len() implies is_space(#[trigger] t[k]) by {
        assert(t[k] == h[k - j]);
    }
    assert(t[i] == s[0] && t[j - 1] == s.last());
    lemma_trim_between(t, i, j);
    assert(t.subrange(i, j) =~= s);
}

proof fn lemma_align(g1: Seq<char>, g2: Seq<char>, word: Seq<char>, g3: Seq<char>)
    requires
        is_gap(g1),
        is_gap(g2),
        is_gap(g3),
        is_tight(word),
    ensures
        ({
            let line = "<!--"@ + (g1 + ("math:"@ + (g2 + word)) + g3) + "-->"@;
            align_named(line) == if word == "left"@ {
                Some(MathMarkerAlign::Left)
            } else if word == "right"@ {
                Some(MathMarkerAlign::Right)
            } else {
                None
            }
        }),
{
    reveal_strlit("<!--");
    reveal_strlit("-->");
    reveal_strlit("math:");
    let none = Seq::<char>::empty();
    let c = g2 + word;
    let m = "math:"@ + c;
    let b = g1 + m + g3;
    let line = "<!--"@ + b + "-->"@;
    lemma_is_trimmed(line);
    lemma_between(g2, word, none);
    assert(g2 + word + none =~= c);
    assert(m.last() == word.last());
    assert(m[0] == 'm');
    lemma_between(g1, m, g3);
    let a = b + "-->"@;
    assert(line.subrange(0, 4) =~= "<!--"@);
    assert(line.skip(4) =~= a);
    let n = b.len() as int;
    assert(a.subrange(n, n + 3) =~= "-->"@);
    assert(a.take(n) =~= b);
    assert(m.subrange(0, 5) =~= "math:"@);
    assert(m.skip(5) =~= c);
}

/// A comment that names `left` or `right` on the line above math aligns it so,
/// whatever gaps it is written with; other words align nothing.
pub proof fn law_a_comment_above_aligns_math(
    before: Seq<char>,
    g1: Seq<char>,
    g2: Seq<char>,
    word: Seq<char>,
    g3: Seq<char>,
    behind: Seq<char>,
)
    requires
        before.len() == 0 || before.last() == '\n',
        is_gap(g1) && lacks(g1, '\n'),
        is_gap(g2) && lacks(g2, '\n'),
        is_gap(g3) && lacks(g3, '\n'),
        is_tight(word) && lacks(word, '\n'),
    ensures
        ({
            let line = "<!--"@ + (g1 + ("math:"@ + (g2 + word)) + g3) + "-->"@;
            let r = align_above(
                before + line + seq!['\n'] + behind,
                (before.len() + line.len() + 1) as int,
            );
            &&& word == seq!['l', 'e', 'f', 't'] ==> r == Some(MathMarkerAlign::Left)
            &&& word == seq!['r', 'i', 'g', 'h', 't'] ==> r == Some(MathMarkerAlign::Right)
            &&& word != seq!['l', 'e', 'f', 't'] && word != seq!['r', 'i', 'g', 'h', 't']
                ==> r is None
        }),
{
    let line = "<!--"@ + (g1 + ("math:"@ + (g2 + word)) + g3) + "-->"@;
    lemma_comment_is_a_line(g1, g2, word, g3);
    lemma_above(before, line, behind);
    lemma_align(g1, g2, word, g3);
    lemma_side_words();
}

proof fn lemma_side_words()
    ensures
        "left"@ == seq!['l', 'e', 'f', 't'],
        "right"@ == seq!['r', 'i', 'g', 'h', 't'],
{
    reveal_strlit("left");
    reveal_strlit("right");
    assert("left"@ =~= seq!['l', 'e', 'f', 't']);
    assert("right"@ =~= seq!['r', 'i', 'g', 'h', 't']);
}

proof fn lemma_comment_is_a_line(g1: Seq<char>, g2: Seq<char>, word: Seq<char>, g3: Seq<char>)
    requires
        lacks(g1, '\n'),
        lacks(g2, '\n'),
        lacks(g3, '\n'),
        lacks(word, '\n'),
    ensures
        lacks("<!--"@ + (g1 + ("math:"@ + (g2 + word)) + g3) + "-->"@, '\n'),
{
    reveal_strlit("<!--");
    reveal_strlit("-->");
    reveal_strlit("math:");
    let a = g2 + word;
    let b = "math:"@ + a;
    let c = g1 + b;
    let d = c + g3;
    lemma_lacks_both(g2, word, '\n');
    lemma_lacks_both("math:"@, a, '\n');
    lemma_lacks_both(g1, b, '\n');
    lemma_lacks_both(c, g3, '\n');
    lemma_lacks_both("<!--"@, d, '\n');
    lemma_lacks_both("<!--"@ + d, "-->"@, '\n');
}

proof fn lemma_above(before: Seq<char>, line: Seq<char>, behind: Seq<char>)
    requires
        before.len() == 0 || before.last() == '\n',
        lacks(line, '\n'),
    ensures
        align_above(
            before + line + seq!['\n'] + behind,
            (before.len() + line.len() + 1) as int,
        ) == align_named(line),
{
    let s = before + line + seq!['\n'] + behind;
    let a = before.len() as int;
    let b = a + line.len();
    assert(s[b] == '\n');
    let i = text::line_start_of(s, b);
    text::lemma_line_start(s, b);
    if i < a {
        assert(s[a - 1] == before.last());
    }
    if i > a {
        assert(s[i - 1] == line[i - 1 - a]);
    }
    assert(s.subrange(a, b) =~= line);
}

proof fn lemma_lacks_both(a: Seq<char>, b: Seq<char>, c: char)
    ensures
        lacks(a, c) && lacks(b, c) ==> lacks(a + b, c),
{
    let t = a + b;
    if lacks(a, c) && lacks(b, c) {
        assert forall|k: int| 0 <= k < t.len() implies #[trigger] t[k] != c by {
            if k < a.len() {
                assert(t[k] == a[k]);
            } else {
                assert(t[k] == b[k - a.len()]);
            }
        }
    }
}

} // verus!
