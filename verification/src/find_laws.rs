//! What is found in a text, told by how it is written: words, matches, links,
//! headings and block ids.
use crate::anchors::{
    block_id_of, caret_mark, fence_open, heading_level, heading_line, is_fence, is_heading, line_at,
    starts_line,
};
use crate::caret::{
    is_word, lemma_at_byte, lemma_at_unit, uoffset, utf16_of, utf8_of, word_end, word_start,
};
use crate::links::{
    all_id, bare_url_end, http, https, lemma_step, links_from, links_of, step, tag_run, url_back,
    url_stop, url_stop_char, wiki_target, Link, Target,
};
use crate::math_laws::{is_tight, lacks};
use crate::overlay::{checkpoint, source_at};
use crate::search::{matches_at, matches_from, matches_of};
use crate::text;
use crate::text::{index_of_str, is_space, lower, offset, run_of, stands_at, trim_end};
use vstd::prelude::*;

verus! {

// --- Words ---

/// A word is whole: it reaches as far to either side of the caret as word
/// characters go. Letters, digits and `_` make words, spaces part them.
pub proof fn law_a_word_is_whole(s: Seq<char>, i: int)
    requires
        0 <= i <= s.len(),
    ensures
        ({
            let a = word_start(s, i);
            let b = word_end(s, i);
            &&& 0 <= a <= i <= b <= s.len()
            &&& forall|k: int| a <= k < b ==> is_word(#[trigger] s[k])
            &&& a > 0 ==> !is_word(s[a - 1])
            &&& b < s.len() ==> !is_word(s[b])
        }),
        forall|c: char|
            text::is_letter(c) || text::is_digit(c) || c == '_' ==> #[trigger] is_word(c),
        !is_word(' ') && !is_word('-') && !is_word('.'),
{
    lemma_start(s, i);
    lemma_end(s, i);
}

proof fn lemma_start(s: Seq<char>, i: int)
    requires
        0 <= i <= s.len(),
    ensures
        ({
            let a = word_start(s, i);
            &&& 0 <= a <= i
            &&& forall|k: int| a <= k < i ==> is_word(#[trigger] s[k])
            &&& a > 0 ==> !is_word(s[a - 1])
        }),
    decreases i,
{
    if i > 0 && is_word(s[i - 1]) {
        lemma_start(s, i - 1);
    }
}

proof fn lemma_end(s: Seq<char>, i: int)
    requires
        0 <= i <= s.len(),
    ensures
        ({
            let b = word_end(s, i);
            &&& i <= b <= s.len()
            &&& forall|k: int| i <= k < b ==> is_word(#[trigger] s[k])
            &&& b < s.len() ==> !is_word(s[b])
        }),
    decreases s.len() - i,
{
    if i < s.len() && is_word(s[i]) {
        lemma_end(s, i + 1);
    }
}

/// In UTF-16 a character beyond the first plane takes two units and any other
/// one; the bridges lead from the start of a character to its start.
pub proof fn law_utf16_counts_units(s: Seq<char>, i: int)
    requires
        0 <= i < s.len(),
    ensures
        uoffset(s, 0) == 0,
        uoffset(s, i + 1) == uoffset(s, i) + if s[i] as u32 > 0xffff {
            2int
        } else {
            1
        },
        utf16_of(s, offset(s, i) as int) == uoffset(s, i),
        utf8_of(s, uoffset(s, i) as int) == offset(s, i),
{
    lemma_at_byte(s, i, 0);
    lemma_at_unit(s, i, 0);
    assert(s.take(i + 1).drop_last() =~= s.take(i));
    assert(s.take(0) =~= Seq::<char>::empty());
}

// --- Matches ---

/// Whether `c` and `d` are the same character, or one ASCII letter in two cases.
pub open spec fn same_letter(c: char, d: char) -> bool {
    ||| c == d
    ||| text::is_letter(c) && text::is_letter(d) && (c as u32 == d as u32 + 32 || d as u32 == c
        as u32 + 32)
}

/// A search finds the query in whatever case its letters stand, and nothing
/// else.
pub proof fn law_a_search_ignores_case(s: Seq<char>, q: Seq<char>, i: int)
    ensures
        matches_at(s, q, i) <==> 0 <= i && i + q.len() <= s.len() && forall|k: int|
            0 <= k < q.len() ==> same_letter(#[trigger] q[k], s[i + k]),
{
    assert forall|c: char, d: char| lower(c) == lower(d) <==> #[trigger] same_letter(c, d) by {
        lemma_lower(c, d);
    }
    if matches_at(s, q, i) {
        assert forall|k: int| 0 <= k < q.len() implies same_letter(#[trigger] q[k], s[i + k]) by {
            assert(lower(s[i + k]) == lower(q[k]));
        }
    }
    if 0 <= i && i + q.len() <= s.len() && forall|k: int|
        0 <= k < q.len() ==> same_letter(#[trigger] q[k], s[i + k]) {
        assert forall|k: int| 0 <= k < q.len() implies lower(s[i + k]) == lower(
            #[trigger] q[k],
        ) by {
            assert(same_letter(q[k], s[i + k]));
        }
    }
}

proof fn lemma_lower(c: char, d: char)
    ensures
        lower(c) == lower(d) <==> same_letter(c, d),
{
}

/// A search finds a query that stands in the text, from where it first stands.
pub proof fn law_the_first_match_is_found(a: Seq<char>, q: Seq<char>, b: Seq<char>)
    requires
        q.len() > 0,
        forall|i: int| 0 <= i < a.len() ==> !#[trigger] matches_at(a + q + b, q, i),
    ensures
        matches_of(a + q + b, q).len() > 0,
        matches_of(a + q + b, q)[0] == a.len(),
{
    let s = a + q + b;
    let n = a.len() as int;
    assert(matches_at(s, q, n)) by {
        assert forall|k: int| 0 <= k < q.len() implies lower(s[n + k]) == lower(
            #[trigger] q[k],
        ) by {
            assert(s[n + k] == q[k]);
        }
    }
    lemma_first_match(s, q, 0, n);
}

proof fn lemma_first_match(s: Seq<char>, q: Seq<char>, i: int, n: int)
    requires
        0 <= i <= n,
        q.len() > 0,
        matches_at(s, q, n),
        forall|k: int| i <= k < n ==> !#[trigger] matches_at(s, q, k),
    ensures
        matches_from(s, q, i).len() > 0,
        matches_from(s, q, i)[0] == n,
    decreases n - i,
{
    if i < n {
        assert(!matches_at(s, q, i));
        lemma_first_match(s, q, i + 1, n);
    }
}

// --- The way back to the source ---

/// A place in shown text leads back to the source by the last checkpoint at or
/// before it, and as far behind that as the place is; before the first
/// checkpoint it leads nowhere.
pub proof fn law_a_place_leads_back(map: Seq<(usize, usize)>, k: int, at: int)
    requires
        forall|j: int, m: int|
            #![trigger map[j], map[m]]
            0 <= j <= m < map.len() ==> map[j].0 <= map[m].0,
        0 <= k < map.len(),
    ensures
        map[k].0 <= at && (k + 1 == map.len() || at < map[k + 1].0) ==> source_at(map, at) == Some(
            map[k].1 + (at - map[k].0),
        ),
        at < map[0].0 ==> source_at(map, at) is None,
{
    if map[k].0 <= at && (k + 1 == map.len() || at < map[k + 1].0) {
        lemma_checkpoint(map, at, map.len() as int, k);
    }
    if at < map[0].0 {
        lemma_no_checkpoint(map, at, map.len() as int);
    }
}

proof fn lemma_checkpoint(map: Seq<(usize, usize)>, at: int, n: int, k: int)
    requires
        forall|j: int, m: int|
            #![trigger map[j], map[m]]
            0 <= j <= m < map.len() ==> map[j].0 <= map[m].0,
        0 <= k < n <= map.len(),
        map[k].0 <= at,
        k + 1 == map.len() || at < map[k + 1].0,
    ensures
        checkpoint(map, at, n) == Some(k),
    decreases n,
{
    if n - 1 > k {
        assert(map[k + 1].0 <= map[n - 1].0);
        lemma_checkpoint(map, at, n - 1, k);
    }
}

proof fn lemma_no_checkpoint(map: Seq<(usize, usize)>, at: int, n: int)
    requires
        forall|j: int, m: int|
            #![trigger map[j], map[m]]
            0 <= j <= m < map.len() ==> map[j].0 <= map[m].0,
        0 <= n <= map.len(),
        map.len() > 0 ==> at < map[0].0,
    ensures
        checkpoint(map, at, n) is None,
    decreases n,
{
    if n > 0 {
        assert(map[0].0 <= map[n - 1].0);
        lemma_no_checkpoint(map, at, n - 1);
    }
}

// --- Links ---

/// Whether `v` holds nothing that opens a link or code.
pub open spec fn is_quiet(v: Seq<char>) -> bool {
    forall|k: int|
        0 <= k < v.len() ==> #[trigger] v[k] != '`' && v[k] != '[' && v[k] != '(' && v[k] != '#'
            && v[k] != ':'
}

proof fn lemma_quiet_step(s: Seq<char>, i: int)
    requires
        0 <= i < s.len(),
        s[i] != '`',
        s[i] != '[',
        s[i] != '(',
        s[i] != '#',
        !stands_at(s, i, http()),
        !stands_at(s, i, https()),
    ensures
        step(s, i).next == i + 1,
        step(s, i).hit is None,
        links_from(s, i) == links_from(s, i + 1),
{
    assert(run_of(s, '`', i) == 0);
}

/// An address stands nowhere across a character that none holds.
proof fn lemma_no_address(s: Seq<char>, i: int, j: int)
    requires
        0 <= i < j <= s.len(),
        forall|k: int| i <= k < j ==> #[trigger] s[k] != ':',
        j == s.len() || s[j] == '[' || s[j] == '(' || s[j] == '#' || j >= i + 6,
    ensures
        !stands_at(s, i, http()),
        !stands_at(s, i, https()),
{
    if stands_at(s, i, http()) {
        lemma_address_letters(s, i, http());
        assert(s[i + 4] == ':');
        if j < i + 6 && j < s.len() {
            assert(s[j] == http()[j - i]);
        }
    }
    if stands_at(s, i, https()) {
        lemma_address_letters(s, i, https());
        assert(s[i + 5] == ':');
        if j < i + 6 && j < s.len() {
            assert(s[j] == https()[j - i]);
        }
    }
}

proof fn lemma_address_letters(s: Seq<char>, i: int, p: Seq<char>)
    requires
        stands_at(s, i, p),
    ensures
        forall|k: int| 0 <= k < p.len() ==> #[trigger] p[k] == s[i + k],
        i + p.len() <= s.len(),
{
    assert forall|k: int| 0 <= k < p.len() implies #[trigger] p[k] == s[i + k] by {
        assert(s.subrange(i, i + p.len())[k] == s[i + k]);
    }
}

proof fn lemma_quiet(s: Seq<char>, i: int, j: int)
    requires
        0 <= i <= j <= s.len(),
        forall|k: int|
            i <= k < j ==> #[trigger] s[k] != '`' && s[k] != '[' && s[k] != '(' && s[k] != '#'
                && s[k] != ':',
        j == s.len() || s[j] == '[' || s[j] == '(' || s[j] == '#',
    ensures
        links_from(s, i) == links_from(s, j),
    decreases j - i,
{
    if i < j {
        lemma_no_address(s, i, j);
        lemma_quiet_step(s, i);
        lemma_quiet(s, i + 1, j);
    }
}

/// A text with one link in it.
proof fn lemma_one_link(s: Seq<char>, before: Seq<char>, behind: Seq<char>, target: Target)
    requires
        is_quiet(before),
        is_quiet(behind),
        before.len() < s.len(),
        s.take(before.len() as int) == before,
        s[before.len() as int] == '[' || s[before.len() as int] == '(' || s[before.len() as int]
            == '#',
        step(s, before.len() as int).hit == Some(target),
        s.skip(step(s, before.len() as int).next) == behind,
    ensures
        links_of(s) == seq![
            Link {
                start: before.len() as int,
                end: step(s, before.len() as int).next,
                target,
            },
        ],
{
    let i = before.len() as int;
    let st = step(s, i);
    lemma_step(s, i);
    assert forall|k: int| 0 <= k < i implies #[trigger] s[k] != '`' && s[k] != '[' && s[k] != '('
        && s[k] != '#' && s[k] != ':' by {
        assert(s.take(i)[k] == s[k]);
        assert(before[k] == s[k]);
    }
    lemma_quiet(s, 0, i);
    assert forall|k: int| st.next <= k < s.len() implies #[trigger] s[k] != '`' && s[k] != '['
        && s[k] != '(' && s[k] != '#' && s[k] != ':' by {
        assert(s.skip(st.next)[k - st.next] == s[k]);
        assert(behind[k - st.next] == s[k]);
    }
    lemma_quiet(s, st.next, s.len() as int);
    assert(links_from(s, s.len() as int) =~= Seq::<Link>::empty());
    assert(links_of(s) =~= seq![Link { start: i, end: st.next, target }]);
}

proof fn lemma_two_at(v: Seq<char>, i: int, c: char)
    ensures
        stands_at(v, i, seq![c, c]) <==> 0 <= i && i + 2 <= v.len() && v[i] == c && v[i + 1] == c,
{
    if 0 <= i && i + 2 <= v.len() {
        let t = v.subrange(i, i + 2);
        assert(t[0] == v[i] && t[1] == v[i + 1]);
        if v[i] == c && v[i + 1] == c {
            assert(t =~= seq![c, c]);
        }
    }
}

proof fn lemma_first_two(v: Seq<char>, c: char, i: int, n: int)
    requires
        0 <= i <= n,
        n + 2 <= v.len(),
        forall|k: int| i <= k < n ==> #[trigger] v[k] != c,
        v[n] == c,
        v[n + 1] == c,
    ensures
        index_of_str(v, seq![c, c], i) == Some(n),
    decreases n - i,
{
    lemma_two_at(v, i, c);
    if i < n {
        assert(v[i] != c);
        lemma_first_two(v, c, i + 1, n);
    }
}

/// `[[name]]` in a text is a link to the page of that name, and covers the
/// brackets.
pub proof fn law_a_wiki_link_is_found(before: Seq<char>, name: Seq<char>, behind: Seq<char>)
    requires
        is_quiet(before),
        is_quiet(behind),
        is_tight(name),
        lacks(name, ']'),
        lacks(name, '|'),
    ensures
        links_of(before + seq!['[', '['] + name + seq![']', ']'] + behind) == seq![
            Link {
                start: before.len() as int,
                end: (before.len() + name.len() + 4) as int,
                target: Target::Page(name),
            },
        ],
{
    let s = before + seq!['[', '['] + name + seq![']', ']'] + behind;
    let i = before.len() as int;
    let c = i + 2 + name.len();
    assert(s.take(i) =~= before);
    assert(s[i] == '[' && s[i + 1] == '[' && s[c] == ']' && s[c + 1] == ']');
    assert forall|k: int| i + 2 <= k < c implies #[trigger] s[k] != ']' by {
        assert(s[k] == name[k - i - 2]);
    }
    lemma_first_two(s, ']', i + 2, c);
    assert(s.subrange(i + 2, c) =~= name);
    text::lemma_index_of(name, '|', 0);
    text::lemma_trim_between(name, 0, name.len() as int);
    assert(name.subrange(0, name.len() as int) =~= name);
    assert(wiki_target(name) == name);
    assert(s.skip(c + 2) =~= behind);
    assert(run_of(s, '`', i) == 0);
    lemma_one_link(s, before, behind, Target::Page(name));
}

/// `((id))` in a text is a reference to the block of that id.
pub proof fn law_a_block_reference_is_found(before: Seq<char>, id: Seq<char>, behind: Seq<char>)
    requires
        is_quiet(before),
        is_quiet(behind),
        id.len() > 0,
        forall|k: int| 0 <= k < id.len() ==> text::is_alnum(#[trigger] id[k]),
    ensures
        links_of(before + seq!['(', '('] + id + seq![')', ')'] + behind) == seq![
            Link {
                start: before.len() as int,
                end: (before.len() + id.len() + 4) as int,
                target: Target::BlockRef(id),
            },
        ],
{
    let s = before + seq!['(', '('] + id + seq![')', ')'] + behind;
    let i = before.len() as int;
    let c = i + 2 + id.len();
    assert(s.take(i) =~= before);
    assert(s[i] == '(' && s[i + 1] == '(' && s[c] == ')' && s[c + 1] == ')');
    assert forall|k: int| i + 2 <= k < c implies #[trigger] s[k] != ')' by {
        assert(s[k] == id[k - i - 2]);
        assert(text::is_alnum(id[k - i - 2]));
    }
    lemma_first_two(s, ')', i + 2, c);
    assert(s.subrange(i + 2, c) =~= id);
    assert(all_id(id));
    assert(s.skip(c + 2) =~= behind);
    assert(run_of(s, '`', i) == 0);
    lemma_one_link(s, before, behind, Target::BlockRef(id));
}

/// `#name` at the start of a word is a link to the page of that name.
pub proof fn law_a_tag_is_found(before: Seq<char>, name: Seq<char>, behind: Seq<char>)
    requires
        is_quiet(before),
        before.len() == 0 || before.last() == ' ',
        is_quiet(behind),
        behind.len() == 0 || behind[0] == ' ' || behind[0] == '.',
        name.len() > 0,
        forall|k: int| 0 <= k < name.len() ==> text::is_alnum(#[trigger] name[k]),
    ensures
        links_of(before + seq!['#'] + name + behind) == seq![
            Link {
                start: before.len() as int,
                end: (before.len() + name.len() + 1) as int,
                target: Target::Page(name),
            },
        ],
{
    let s = before + seq!['#'] + name + behind;
    let i = before.len() as int;
    let c = i + 1 + name.len();
    assert(s.take(i) =~= before);
    assert(s[i] == '#');
    if i > 0 {
        assert(s[i - 1] == before.last());
    }
    assert forall|k: int| i + 1 <= k < c implies text::is_alnum(#[trigger] s[k]) by {
        assert(s[k] == name[k - i - 1]);
    }
    if c < s.len() {
        assert(s[c] == behind[0]);
    }
    lemma_tag_ends(s, i + 1, c);
    assert(s.subrange(i + 1, c) =~= name);
    assert(s.skip(c) =~= behind);
    assert(run_of(s, '`', i) == 0);
    lemma_one_link(s, before, behind, Target::Page(name));
}

proof fn lemma_tag_ends(v: Seq<char>, i: int, c: int)
    requires
        0 <= i <= c <= v.len(),
        forall|k: int| i <= k < c ==> text::is_alnum(#[trigger] v[k]),
        c < v.len() ==> v[c] == ' ' || v[c] == '.',
    ensures
        tag_run(v, i) == c,
    decreases c - i,
{
    if i < c {
        assert(text::is_alnum(v[i]));
        lemma_tag_ends(v, i + 1, c);
    }
}

/// `[words](url)` in a text is a link to that URL.
pub proof fn law_an_inline_link_is_found(
    before: Seq<char>,
    words: Seq<char>,
    url: Seq<char>,
    behind: Seq<char>,
)
    requires
        is_quiet(before),
        before.len() == 0 || before.last() != '!',
        is_quiet(behind),
        words.len() > 0,
        words[0] != '[',
        words[0] != '^',
        lacks(words, ']'),
        is_tight(url),
        lacks(url, ')'),
    ensures
        links_of(before + seq!['['] + words + seq![']', '('] + url + seq![')'] + behind) == seq![
            Link {
                start: before.len() as int,
                end: (before.len() + words.len() + url.len() + 4) as int,
                target: Target::Url(url),
            },
        ],
{
    let s = before + seq!['['] + words + seq![']', '('] + url + seq![')'] + behind;
    let i = before.len() as int;
    let rb = i + 1 + words.len();
    let rp = rb + 2 + url.len();
    assert(s.take(i) =~= before);
    assert(s[i] == '[' && s[i + 1] == words[0]);
    assert(s[rb] == ']' && s[rb + 1] == '(' && s[rp] == ')');
    if i > 0 {
        assert(s[i - 1] == before.last());
    }
    text::lemma_index_of(s, ']', i + 1);
    match text::index_of(s, ']', i + 1) {
        Some(k) => {
            if k < rb {
                assert(s[k] == words[k - i - 1]);
            }
        },
        None => {},
    }
    text::lemma_index_of(s, ')', rb + 2);
    match text::index_of(s, ')', rb + 2) {
        Some(k) => {
            if k < rp {
                assert(s[k] == url[k - rb - 2]);
            }
        },
        None => {},
    }
    assert(s.subrange(rb + 2, rp) =~= url);
    text::lemma_trim_between(url, 0, url.len() as int);
    assert(url.subrange(0, url.len() as int) =~= url);
    assert(s.skip(rp + 1) =~= behind);
    assert(run_of(s, '`', i) == 0);
    lemma_one_link(s, before, behind, Target::Url(url));
}

// --- Headings and blocks ---

/// A heading is found: where a line outside fenced code is the heading that is
/// asked for, that line or an earlier one is found.
pub proof fn law_a_heading_is_found(s: Seq<char>, want: Seq<char>, m: int)
    requires
        starts_line(s, m),
        !fence_open(s, 0, m, false),
        !is_fence(line_at(s, m)),
        is_heading(line_at(s, m), want),
    ensures
        heading_line(s, want, 0, false) is Some,
        heading_line(s, want, 0, false)->0 <= m,
{
    lemma_found_by(s, want, 0, m, false);
}

proof fn lemma_found_by(s: Seq<char>, want: Seq<char>, i: int, m: int, fenced: bool)
    requires
        0 <= i <= m,
        starts_line(s, m),
        !fence_open(s, i, m, fenced),
        !is_fence(line_at(s, m)),
        is_heading(line_at(s, m), want),
    ensures
        heading_line(s, want, i, fenced) is Some,
        heading_line(s, want, i, fenced)->0 <= m,
    decreases m - i,
{
    if i < m {
        text::lemma_index_of(s, '\n', i);
        let e = text::line_end_from(s, i);
        assert(e + 1 <= m);
        let flag = if is_fence(line_at(s, i)) {
            !fenced
        } else {
            fenced
        };
        if is_fence(line_at(s, i)) || fenced || !is_heading(line_at(s, i), want) {
            lemma_found_by(s, want, e + 1, m, flag);
        }
    }
}

/// A line of hashes, a space and words is a heading of as many levels as it has
/// hashes, and is found by its words in lower case.
pub proof fn law_a_heading_is_read(h: nat, words: Seq<char>)
    requires
        1 <= h <= 6,
        is_tight(words),
    ensures
        ({
            let line = crate::numbering::repeated('#', h) + seq![' '] + words;
            &&& heading_level(line) == h
            &&& is_heading(line, text::lowercase(words))
            &&& forall|want: Seq<char>| #[trigger]
                is_heading(line, want) ==> want == text::lowercase(words)
        }),
{
    let line = crate::numbering::repeated('#', h) + seq![' '] + words;
    let n = h as int;
    assert forall|k: int| 0 <= k < n implies #[trigger] line[k] == '#' by {}
    assert(line[n] == ' ');
    lemma_run(line, 0, n);
    assert(line[0] == '#');
    assert(text::space_end(line, 0) == 0);
    assert(line.skip(0) =~= line);
    assert(line.skip(n + 1) =~= words);
    text::lemma_trim_between(words, 0, words.len() as int);
    assert(words.subrange(0, words.len() as int) =~= words);
}

proof fn lemma_run(s: Seq<char>, i: int, n: int)
    requires
        0 <= i <= n < s.len(),
        forall|k: int| i <= k < n ==> #[trigger] s[k] == '#',
        s[n] != '#',
    ensures
        run_of(s, '#', i) == n - i,
    decreases n - i,
{
    if i < n {
        lemma_run(s, i + 1, n);
    }
}

/// A line that ends with ` ^id` carries the block id `id`.
pub proof fn law_a_block_id_is_read(words: Seq<char>, id: Seq<char>)
    requires
        id.len() > 0,
        forall|k: int| 0 <= k < id.len() ==> text::is_alnum(#[trigger] id[k]),
    ensures
        block_id_of(words + seq![' ', '^'] + id) == Some((words.len() as int, id)),
{
    let line = words + seq![' ', '^'] + id;
    let n = words.len() as int;
    assert(line.last() == id.last());
    assert(text::is_alnum(id[id.len() - 1]));
    assert(!is_space(line.last()));
    text::lemma_space_start_at(line, line.len() as int, line.len() as int);
    assert(trim_end(line) =~= line);
    lemma_mark_at(line, n, line.len() as int, id);
    assert(line.skip(n + 2) =~= id);
}

proof fn lemma_mark_at(line: Seq<char>, n: int, to: int, id: Seq<char>)
    requires
        0 <= n <= to <= line.len(),
        n + 2 + id.len() == line.len(),
        line[n] == ' ',
        line[n + 1] == '^',
        forall|k: int| 0 <= k < id.len() ==> text::is_alnum(#[trigger] id[k]) && line[n + 2 + k] == id[k],
    ensures
        text::last_index_of_str(line, caret_mark(), to) == Some(n),
    decreases to - n,
{
    if to == n {
        assert(line.subrange(n, n + 2) =~= caret_mark());
    } else {
        if stands_at(line, to, caret_mark()) {
            let t = line.subrange(to, to + 2);
            assert(t[0] == line[to] && t[1] == line[to + 1]);
            assert(caret_mark()[1] == '^');
            let k = to + 1 - n - 2;
            if k >= 0 {
                assert(text::is_alnum(id[k]));
                assert(line[n + 2 + k] == id[k]);
            }
        }
        lemma_mark_at(line, n, to - 1, id);
    }
}

// --- Addresses ---

proof fn lemma_quiet_to_space(s: Seq<char>, i: int, j: int)
    requires
        0 <= i <= j <= s.len(),
        forall|k: int|
            i <= k < j ==> #[trigger] s[k] != '`' && s[k] != '[' && s[k] != '(' && s[k] != '#'
                && s[k] != ':',
        i == j || s[j - 1] == ' ',
    ensures
        links_from(s, i) == links_from(s, j),
    decreases j - i,
{
    if i < j {
        lemma_no_address_before(s, i, j);
        lemma_quiet_step(s, i);
        lemma_quiet_to_space(s, i + 1, j);
    }
}

proof fn lemma_no_address_before(s: Seq<char>, i: int, j: int)
    requires
        0 <= i < j <= s.len(),
        forall|k: int| i <= k < j ==> #[trigger] s[k] != ':',
        s[j - 1] == ' ',
    ensures
        !stands_at(s, i, http()),
        !stands_at(s, i, https()),
{
    if stands_at(s, i, http()) {
        lemma_address_letters(s, i, http());
        assert(http()[4] == s[i + 4]);
        if i + 4 >= j {
            assert(http()[j - 1 - i] == s[j - 1]);
        }
    }
    if stands_at(s, i, https()) {
        lemma_address_letters(s, i, https());
        assert(https()[5] == s[i + 5]);
        if i + 5 >= j {
            assert(https()[j - 1 - i] == s[j - 1]);
        }
    }
}

proof fn lemma_stop(s: Seq<char>, i: int, j: int)
    requires
        0 <= i <= j <= s.len(),
        forall|k: int| i <= k < j ==> !url_stop_char(#[trigger] s[k]),
        j == s.len() || url_stop_char(s[j]),
    ensures
        url_stop(s, i) == j,
    decreases j - i,
{
    if i < j {
        assert(!url_stop_char(s[i]));
        lemma_stop(s, i + 1, j);
    }
}

/// A web address in a text is a link to itself, up to the next space.
pub proof fn law_an_address_is_found(before: Seq<char>, body: Seq<char>, behind: Seq<char>)
    requires
        is_quiet(before),
        before.len() == 0 || before.last() == ' ',
        body.len() > 0,
        forall|k: int|
            0 <= k < body.len() ==> text::is_alnum(#[trigger] body[k]) || body[k] == '/' || body[k]
                == '.' || body[k] == '-',
        text::is_alnum(body.last()),
        is_quiet(behind),
        behind.len() == 0 || behind[0] == ' ',
    ensures
        ({
            let url = seq!['h', 't', 't', 'p', 's', ':', '/', '/'] + body;
            links_of(before + url + behind) == seq![
                Link {
                    start: before.len() as int,
                    end: (before.len() + url.len()) as int,
                    target: Target::Url(url),
                },
            ]
        }),
{
    let url = https() + body;
    let s = before + url + behind;
    let i = before.len() as int;
    let j = i + url.len();
    lemma_address_ends(before, body, behind);
    assert(s.subrange(i, j) =~= url);
    assert(s[i] == 'h');
    assert(run_of(s, '`', i) == 0);
    let st = step(s, i);
    assert(st.next == j && st.hit == Some(Target::Url(url)));
    assert forall|k: int| 0 <= k < i implies #[trigger] s[k] != '`' && s[k] != '[' && s[k] != '('
        && s[k] != '#' && s[k] != ':' by {
        assert(s[k] == before[k]);
    }
    if i > 0 {
        assert(s[i - 1] == before.last());
    }
    lemma_quiet_to_space(s, 0, i);
    assert forall|k: int| j <= k < s.len() implies #[trigger] s[k] != '`' && s[k] != '[' && s[k]
        != '(' && s[k] != '#' && s[k] != ':' by {
        assert(s[k] == behind[k - j]);
    }
    lemma_quiet(s, j, s.len() as int);
    assert(links_from(s, s.len() as int) =~= Seq::<Link>::empty());
    assert(links_of(s) =~= seq![Link { start: i, end: j, target: Target::Url(url) }]);
}

proof fn lemma_address_ends(before: Seq<char>, body: Seq<char>, behind: Seq<char>)
    requires
        before.len() == 0 || before.last() == ' ',
        body.len() > 0,
        forall|k: int|
            0 <= k < body.len() ==> text::is_alnum(#[trigger] body[k]) || body[k] == '/' || body[k]
                == '.' || body[k] == '-',
        text::is_alnum(body.last()),
        behind.len() == 0 || behind[0] == ' ',
    ensures
        bare_url_end(before + (https() + body) + behind, before.len() as int) == Some(
            (before.len() + 8 + body.len()) as int,
        ),
{
    let url = https() + body;
    let s = before + url + behind;
    let i = before.len() as int;
    let j = i + url.len();
    assert(s.subrange(i, i + 8) =~= https());
    lemma_no_stop(body);
    assert forall|k: int| i <= k < j implies !url_stop_char(#[trigger] s[k]) by {
        assert(s[k] == url[k - i]);
    }
    if j < s.len() {
        assert(s[j] == behind[0]);
    }
    lemma_stop(s, i, j);
    assert(s[j - 1] == body.last());
    assert(url_back(s, i, j) == j);
    if i > 0 {
        assert(s[i - 1] == before.last());
    }
    text::lemma_offset_mono(s, i, j);
}

proof fn lemma_no_stop(body: Seq<char>)
    requires
        forall|k: int|
            0 <= k < body.len() ==> text::is_alnum(#[trigger] body[k]) || body[k] == '/' || body[k]
                == '.' || body[k] == '-',
    ensures
        forall|k: int|
            0 <= k < 8 + body.len() ==> !url_stop_char(#[trigger] (https() + body)[k]),
{
    let url = https() + body;
    assert forall|k: int| 0 <= k < 8 + body.len() implies !url_stop_char(#[trigger] url[k]) by {
        if k < 8 {
            assert(url[k] == https()[k]);
        } else {
            assert(url[k] == body[k - 8]);
            let c = body[k - 8];
            assert(text::is_alnum(c) || c == '/' || c == '.' || c == '-');
        }
    }
}

} // verus!
