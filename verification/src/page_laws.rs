//! What the small notations of a page mean, told by how they are written: a
//! property, an embed, an image's width, a callout, a link.
use crate::alerts::{marker, marker_at, title, AlertKind};
use crate::anchors::embed_of;
use crate::clicks::{followed, link_over, parts_from, pill_followed, Follow};
use crate::doc::{callout_of, fold_key, slice_at};
use crate::images::{holds_images, srcs_in, srcs_upto, width_attr};
use crate::inline::LinkTarget;
use crate::links::{safe_url, Target};
use crate::math_laws::{is_gap, is_tight, lacks};
use crate::properties::{
    colons, is_key, key_char, pill_label, prefixed, property_of, Segment,
};
use crate::snippets::snippet_list;
use crate::text;
use crate::text::{index_of_str, is_space, stands_at, trim, trim_start};
use crate::tree::{Kind, Span, Tree};
use vstd::prelude::*;

verus! {

proof fn lemma_between(g: Seq<char>, s: Seq<char>, h: Seq<char>)
    requires
        is_gap(g),
        is_tight(s),
        is_gap(h),
    ensures
        trim(g + s + h) == s,
        trim_start(g + s + h) == s + h,
        text::space_end(g + s + h, 0) == g.len(),
{
    let t = g + s + h;
    let i = g.len() as int;
    let j = i + s.len();
    assert forall|k: int| 0 <= k < i implies is_space(#[trigger] t[k]) by {
        assert(t[k] == g[k]);
    }
    assert forall|k: int| j <= k < t.len() implies is_space(#[trigger] t[k]) by {
        assert(t[k] == h[k - j]);
    }
    assert(t[i] == s[0] && t[j - 1] == s.last());
    text::lemma_trim_between(t, i, j);
    text::lemma_space_end_at(t, 0, i);
    assert(t.subrange(i, j) =~= s);
    assert(t.skip(i) =~= s + h);
}

proof fn lemma_two_at(v: Seq<char>, i: int, c: char)
    ensures
        stands_at(v, i, seq![c, c]) <==> 0 <= i && i + 2 <= v.len() && v[i] == c && v[i + 1] == c,
{
    if 0 <= i && i + 2 <= v.len() {
        let t = v.subrange(i, i + 2);
        assert(t[0] == v[i] && t[1] == v[i + 1]);
        if v[i] == c && v[i + 1] == c {
            assert(t =~= seq![c, c]);
        }
    }
}

proof fn lemma_first_two(v: Seq<char>, c: char, i: int, n: int)
    requires
        0 <= i <= n,
        n + 2 <= v.len(),
        forall|k: int| i <= k < n ==> #[trigger] v[k] != c,
        v[n] == c,
        v[n + 1] == c,
    ensures
        index_of_str(v, seq![c, c], i) == Some(n),
    decreases n - i,
{
    lemma_two_at(v, i, c);
    if i < n {
        assert(v[i] != c);
        lemma_first_two(v, c, i + 1, n);
    }
}

proof fn lemma_none_two(v: Seq<char>, c: char, i: int)
    requires
        0 <= i,
        lacks(v, c),
    ensures
        index_of_str(v, seq![c, c], i) is None,
    decreases v.len() - i + 1,
{
    lemma_two_at(v, i, c);
    if i <= v.len() {
        lemma_none_two(v, c, i + 1);
    }
}

// --- Properties ---

pub(crate) proof fn lemma_property(key: Seq<char>, g: Seq<char>, value: Seq<char>, tail: Seq<char>)
    requires
        is_key(key),
        is_gap(g),
        is_tight(value),
        is_gap(tail),
    ensures
        ({
            let rest = key + seq![':', ':'] + g + value + tail;
            &&& index_of_str(rest, colons(), 0) == Some(key.len() as int)
            &&& rest.take(key.len() as int) == key
            &&& trim(rest.skip((key.len() + 2) as int)) == value
            &&& !is_space(rest[0])
        }),
{
    let rest = key + seq![':', ':'] + g + value + tail;
    let n = key.len() as int;
    assert forall|k: int| 0 <= k < n implies #[trigger] rest[k] != ':' by {
        assert(rest[k] == key[k]);
        assert(key_char(key[k]));
    }
    assert(rest[n] == ':' && rest[n + 1] == ':');
    lemma_first_two(rest, ':', 0, n);
    assert(rest.take(n) =~= key);
    assert(rest.skip(n + 2) =~= g + value + tail);
    lemma_between(g, value, tail);
    assert(rest[0] == key[0]);
}

/// A property line, `key:: value`, gives its key and its value without the gaps
/// round them, and as a list item the marker as its prefix too.
pub proof fn law_a_property_is_read(
    lead: Seq<char>,
    key: Seq<char>,
    g: Seq<char>,
    value: Seq<char>,
    tail: Seq<char>,
)
    requires
        is_gap(lead),
        is_key(key),
        is_gap(g),
        is_tight(value),
        is_gap(tail),
    ensures
        ({
            let own = key + seq![':', ':'] + g + value + tail;
            &&& property_of(lead + own) == Some((key, value))
            &&& prefixed(lead + own) == Some((lead, key, value))
            &&& prefixed(lead + (seq!['-', ' '] + own)) == Some((lead + seq!['-', ' '], key, value))
        }),
{
    let own = key + seq![':', ':'] + g + value + tail;
    lemma_property(key, g, value, tail);
    let line = lead + own;
    let w = lead.len() as int;
    assert forall|k: int| 0 <= k < w implies is_space(#[trigger] line[k]) by {
        assert(line[k] == lead[k]);
    }
    assert(line[w] == own[0]);
    text::lemma_space_end_at(line, 0, w);
    assert(line.skip(w) =~= own);
    assert(line.take(w) =~= lead);
    let item = lead + (seq!['-', ' '] + own);
    assert forall|k: int| 0 <= k < w implies is_space(#[trigger] item[k]) by {
        assert(item[k] == lead[k]);
    }
    assert(item[w] == '-' && item[w + 1] == ' ');
    text::lemma_space_end_at(item, 0, w);
    let rest = item.skip(w);
    assert(rest =~= seq!['-', ' '] + own);
    assert(trim_start(item) == rest);
    assert(rest[0] == '-' && rest[1] == ' ');
    assert(text::space_end(rest, 0) == 0);
    assert(rest.skip(0) =~= rest);
    lemma_no_key(rest);
    assert(property_of(item) is None) by {
        text::lemma_index_of_str(rest, colons(), 0);
    }
    assert(crate::properties::list_body(rest) == Some(2int));
    assert(item.skip(w + 2) =~= own);
    assert(text::space_end(own, 0) == 0);
    assert(own.skip(0) =~= own);
    assert(property_of(own) == Some((key, value)));
    assert(item.take(w + 2) =~= lead + seq!['-', ' ']);
}

/// What begins with a bullet is no key.
proof fn lemma_no_key(rest: Seq<char>)
    requires
        rest.len() > 0,
        rest[0] == '-',
        trim_start(rest) == rest,
    ensures
        property_of(rest) is None,
        forall|i: int| 0 <= i <= rest.len() ==> !is_key(#[trigger] rest.take(i)),
{
    assert forall|i: int| 0 <= i <= rest.len() implies !is_key(#[trigger] rest.take(i)) by {
        if i > 0 {
            assert(rest.take(i)[0] == rest[0]);
        }
    }
    text::lemma_index_of_str(rest, colons(), 0);
}

/// What a panel shows of a value: its links in order, and the words between
/// them without the gaps round them.
pub proof fn law_a_value_is_shown_in_parts(t: Seq<char>, pill: Segment, u: Seq<char>)
    requires
        pill is Pill,
    ensures
        parts_from(seq![Segment::Text(t), pill, Segment::Text(u)], 0) == (if trim(t).len() > 0 {
            seq![Segment::Text(trim(t))]
        } else {
            seq![]
        }) + seq![pill] + (if trim(u).len() > 0 {
            seq![Segment::Text(trim(u))]
        } else {
            seq![]
        }),
{
    reveal_with_fuel(parts_from, 4);
    let all = seq![Segment::Text(t), pill, Segment::Text(u)];
    let last = if trim(u).len() > 0 {
        seq![Segment::Text(trim(u))]
    } else {
        seq![]
    };
    assert(parts_from(all, 3) =~= Seq::<Segment>::empty());
    assert(parts_from(all, 2) =~= last);
    assert(parts_from(all, 1) =~= seq![pill] + last);
    let first = if trim(t).len() > 0 {
        seq![Segment::Text(trim(t))]
    } else {
        seq![]
    };
    assert(parts_from(all, 0) =~= first + seq![pill] + last);
}

// --- Embeds and images ---

/// A line that is `![[name]]` embeds the page of that name.
pub proof fn law_an_embed_is_read(lead: Seq<char>, name: Seq<char>, tail: Seq<char>)
    requires
        is_gap(lead),
        is_tight(name),
        lacks(name, ']'),
        is_gap(tail),
    ensures
        embed_of(lead + (seq!['!', '[', '['] + name + seq![']', ']']) + tail) == Some(name),
        embed_of(lead + name + tail) is Some ==> name[0] == '!',
{
    let t = seq!['!', '[', '['] + name + seq![']', ']'];
    lemma_between(lead, t, tail);
    lemma_between(lead, name, tail);
    assert(t.subrange(0, 3) =~= seq!['!', '[', '[']);
    let n = t.len() as int;
    lemma_two_at(t, n - 2, ']');
    assert(t.subrange(3, n - 2) =~= name);
    let none = Seq::<char>::empty();
    lemma_between(none, name, none);
    assert(none + name + none =~= name);
    lemma_none_two(name, ']', 0);
    if embed_of(lead + name + tail) is Some {
        assert(name.subrange(0, 3)[0] == name[0]);
        assert(seq!['!', '[', '['][0] == '!');
    }
}

/// A width behind an image, `{width=200}` or `{width=200px}`, is read as its
/// number, up to and with the brace.
pub proof fn law_a_width_is_read(number: Seq<char>, rest: Seq<char>)
    requires
        is_tight(number),
        lacks(number, '}'),
        number.last() != 'x',
    ensures
        width_attr("{width="@ + number + seq!['}'] + rest) == Some(
            (number, (number.len() + 8) as int),
        ),
        width_attr("{width="@ + number + seq!['p', 'x', '}'] + rest) == Some(
            (number, (number.len() + 10) as int),
        ),
{
    reveal_strlit("{width=");
    reveal_strlit("px");
    let none = Seq::<char>::empty();
    lemma_between(none, number, none);
    assert(none + number + none =~= number);
    let n = number.len() as int;
    let s = "{width="@ + number + seq!['}'] + rest;
    assert(s.subrange(0, 7) =~= "{width="@);
    lemma_brace(s, 7, 7 + n, number);
    assert(s.subrange(7, 7 + n) =~= number);
    if text::ends(number, "px"@) {
        assert(number.subrange(n - 2, n)[1] == number.last());
        assert("px"@[1] == 'x');
    }
    let u = "{width="@ + number + seq!['p', 'x', '}'] + rest;
    let inner = number + seq!['p', 'x'];
    assert(u.subrange(0, 7) =~= "{width="@);
    assert forall|k: int| 0 <= k < inner.len() implies #[trigger] inner[k] != '}' by {
        if k < n {
            assert(inner[k] == number[k]);
        }
    }
    lemma_brace(u, 7, 9 + n, inner);
    assert(u.subrange(7, 9 + n) =~= inner);
    assert(inner.subrange(n, n + 2) =~= "px"@);
    assert(inner.take(n) =~= number);
}

proof fn lemma_brace(s: Seq<char>, i: int, c: int, inner: Seq<char>)
    requires
        0 <= i <= c < s.len(),
        s[c] == '}',
        inner.len() == c - i,
        lacks(inner, '}'),
        forall|k: int| i <= k < c ==> #[trigger] s[k] == inner[k - i],
    ensures
        text::index_of(s, '}', i) == Some(c),
{
    text::lemma_index_of(s, '}', i);
    match text::index_of(s, '}', i) {
        Some(k) => {
            if k < c {
                assert(s[k] == inner[k - i]);
            }
        },
        None => {},
    }
}

proof fn lemma_srcs_upto(nodes: Seq<Tree>, k: int, i: int, url: Seq<char>)
    requires
        0 <= i < k <= nodes.len(),
        srcs_in(nodes[i]).contains(url),
    ensures
        srcs_upto(nodes, k).contains(url),
    decreases k,
{
    let before = srcs_upto(nodes, k - 1);
    let own = srcs_in(nodes[k - 1]);
    if i == k - 1 {
        let j = choose|j: int| 0 <= j < own.len() && own[j] == url;
        assert((before + own)[before.len() + j] == url);
    } else {
        lemma_srcs_upto(nodes, k - 1, i, url);
        let j = choose|j: int| 0 <= j < before.len() && before[j] == url;
        assert((before + own)[j] == url);
    }
}

/// Every image of a page is listed: an image lists its source, and all that can
/// hold images list those of the nodes inside them.
pub proof fn law_every_image_is_listed(n: Tree, i: int, url: Seq<char>)
    ensures
        n.kind matches Kind::Image { url: own, .. } ==> srcs_in(n) == seq![own],
        holds_images(n.kind) && 0 <= i < n.children.len() && srcs_in(n.children[i]).contains(url)
            ==> srcs_in(n).contains(url),
        n.kind is Paragraph || n.kind is Heading || n.kind is Blockquote || n.kind is List
            || n.kind is ListItem || n.kind is Emphasis || n.kind is Strong || n.kind is Delete
            || n.kind is Link || n.kind is LinkReference || n.kind is Table || n.kind is TableRow
            || n.kind is TableCell <==> holds_images(n.kind),
{
    if holds_images(n.kind) && 0 <= i < n.children.len() && srcs_in(n.children[i]).contains(url) {
        lemma_srcs_upto(n.children, n.children.len() as int, i, url);
    }
}

// --- Callouts ---

/// A quote that begins with a callout's marker and words is that callout, folded
/// by `-` and open by `+`, and holds the words without the marker, and all that
/// follows them.
pub proof fn law_a_callout_holds_its_words(
    nodes: Seq<Tree>,
    kind: AlertKind,
    fold: Seq<char>,
    words: Seq<char>,
)
    requires
        nodes.len() > 0,
        nodes[0].kind is Paragraph,
        nodes[0].children.len() > 0,
        fold == Seq::<char>::empty() || fold == seq!['-'] || fold == seq!['+'],
        words.len() > 0,
        nodes[0].children[0].kind == Kind::Text(marker(kind) + fold + seq![' '] + words),
    ensures
        ({
            let c = callout_of(nodes)->0;
            &&& callout_of(nodes) is Some
            &&& c.kind == kind
            &&& fold.len() == 0 ==> c.fold is None
            &&& fold == seq!['-'] ==> c.fold == Some(true)
            &&& fold == seq!['+'] ==> c.fold == Some(false)
            &&& c.children.len() == nodes.len()
            &&& c.children.skip(1) == nodes.skip(1)
            &&& c.children[0].kind is Paragraph
            &&& c.children[0].children.len() == nodes[0].children.len()
            &&& c.children[0].children[0].kind == Kind::Text(words)
            &&& c.children[0].children.skip(1) == nodes[0].children.skip(1)
        }),
{
    let m = marker(kind);
    let s = m + fold + seq![' '] + words;
    let n = m.len() as int;
    crate::source_laws::lemma_kind(kind, fold + seq![' '] + words);
    assert(s =~= m + (fold + seq![' '] + words));
    if fold.len() > 0 {
        assert(s[n] == fold[0]);
        assert(s[n + 1] == ' ');
    } else {
        assert(s[n] == ' ');
    }
    let b = n + fold.len() + 1;
    assert(s.skip(b) =~= words);
    let mk = crate::alerts::marker_at(s, 0, true)->0;
    assert(mk.body == b);
    let c = callout_of(nodes)->0;
    assert(c.children.skip(1) =~= nodes.skip(1));
    assert(c.children[0].children.skip(1) =~= nodes[0].children.skip(1));
}

// --- Links ---

/// A link to a page opens it where someone handles pages, a block reference its
/// block, a safe URL itself, and nothing else opens.
pub proof fn law_links_open_what_they_name(name: Seq<char>, handled: bool)
    ensures
        followed(Some(LinkTarget::Wiki(name)), true) == Follow::Page(name),
        followed(Some(LinkTarget::Wiki(name)), false) is Nothing,
        safe_url(name) ==> followed(Some(LinkTarget::Url(name)), handled) == Follow::Url(name),
        !safe_url(name) ==> followed(Some(LinkTarget::Url(name)), handled) is Nothing,
        followed(None, handled) is Nothing,
        pill_followed(Target::Page(name), true) == Follow::Page(name),
        pill_followed(Target::BlockRef(name), true) == Follow::Page(seq!['#', '^'] + name),
        pill_followed(Target::Page(name), false) is Nothing,
        pill_followed(Target::BlockRef(name), false) is Nothing,
        safe_url(name) ==> pill_followed(Target::Url(name), handled) == Follow::Url(name),
        !safe_url(name) ==> pill_followed(Target::Url(name), handled) is Nothing,
{
}

/// The link under a byte is the first that covers it, where any does.
pub proof fn law_the_first_link_is_under(
    links: Seq<(int, int, LinkTarget<Seq<char>>)>,
    at: int,
    i: int,
)
    requires
        0 <= i,
    ensures
        match link_over(links, at, i) {
            Some(k) => i <= k < links.len() && links[k].0 <= at < links[k].1 && forall|j: int|
                i <= j < k ==> !((#[trigger] links[j]).0 <= at < links[j].1),
            None => forall|j: int| i <= j < links.len() ==> !((#[trigger] links[j]).0 <= at
                < links[j].1),
        },
    decreases links.len() - i,
{
    if i < links.len() && !(links[i].0 <= at < links[i].1) {
        law_the_first_link_is_under(links, at, i + 1);
    }
}

// --- Snippets ---

/// The snippets for callouts write the marker of the callout that they are
/// called after, as a quote, and leave the caret behind it.
pub proof fn law_callout_snippets(kind: AlertKind)
    ensures
        ({
            let k = match kind {
                AlertKind::Note => 7int,
                AlertKind::Tip => 8int,
                AlertKind::Important => 9int,
                AlertKind::Warning => 10int,
                AlertKind::Caution => 11int,
            };
            let (label, words, caret) = snippet_list()[k];
            &&& label == title(kind) + seq![' ', 'a', 'l', 'e', 'r', 't']
            &&& words == seq!['>', ' '] + marker(kind) + seq![' ']
            &&& caret == words.len()
        }),
{
    reveal_strlit("Note");
    reveal_strlit("Tip");
    reveal_strlit("Important");
    reveal_strlit("Warning");
    reveal_strlit("Caution");
    reveal_strlit("Note alert");
    reveal_strlit("Tip alert");
    reveal_strlit("Important alert");
    reveal_strlit("Warning alert");
    reveal_strlit("Caution alert");
    reveal_strlit("> [!NOTE] ");
    reveal_strlit("> [!TIP] ");
    reveal_strlit("> [!IMPORTANT] ");
    reveal_strlit("> [!WARNING] ");
    reveal_strlit("> [!CAUTION] ");
    let k = match kind {
        AlertKind::Note => 7int,
        AlertKind::Tip => 8int,
        AlertKind::Important => 9int,
        AlertKind::Warning => 10int,
        AlertKind::Caution => 11int,
    };
    let (label, words, caret) = snippet_list()[k];
    assert(label =~= title(kind) + seq![' ', 'a', 'l', 'e', 'r', 't']);
    assert(words =~= seq!['>', ' '] + marker(kind) + seq![' ']);
}

// --- Pills ---

/// What a link in a value is shown as: a link to a page by its label or the
/// page's name, a tag by its name, an inline link by its words, and anything
/// else as it is written.
pub proof fn law_pills_show_their_label(
    name: Seq<char>,
    label: Seq<char>,
    words: Seq<char>,
    rest: Seq<char>,
)
    requires
        is_tight(name) && lacks(name, '|'),
        is_tight(label),
        words.len() > 0 && words[0] != '[' && lacks(words, ']'),
    ensures
        pill_label(seq!['[', '['] + name + seq![']', ']']) == name,
        pill_label(seq!['[', '['] + (name + seq!['|'] + label) + seq![']', ']']) == label,
        pill_label(seq!['#'] + name) == name,
        pill_label(seq!['['] + words + seq![']'] + rest) == words,
        rest.len() > 0 && rest[0] != '#' && rest[0] != '[' ==> pill_label(rest) == rest,
{
    let none = Seq::<char>::empty();
    lemma_between(none, name, none);
    assert(none + name + none =~= name);
    lemma_between(none, label, none);
    assert(none + label + none =~= label);
    let a = seq!['[', '['] + name + seq![']', ']'];
    assert(a.subrange(2, a.len() - 2) =~= name);
    text::lemma_index_of(name, '|', 0);
    let inner = name + seq!['|'] + label;
    let n = name.len() as int;
    let b = seq!['[', '['] + inner + seq![']', ']'];
    assert(b.subrange(2, b.len() - 2) =~= inner);
    text::lemma_index_of(inner, '|', 0);
    assert(inner[n] == '|');
    match text::index_of(inner, '|', 0) {
        Some(k) => {
            if k < n {
                assert(inner[k] == name[k]);
            }
        },
        None => {},
    }
    assert(inner.skip(n + 1) =~= label);
    let c = seq!['#'] + name;
    assert(c.skip(1) =~= name);
    assert(c[0] == '#');
    let d = seq!['['] + words + seq![']'] + rest;
    let m = words.len() as int;
    assert(d[0] == '[' && d[1] == words[0] && d[m + 1] == ']');
    text::lemma_index_of(d, ']', 1);
    match text::index_of(d, ']', 1) {
        Some(k) => {
            if k < m + 1 {
                assert(d[k] == words[k - 1]);
            }
        },
        None => {},
    }
    assert(d.subrange(1, m + 1) =~= words);
}

// --- Markers and keys ---

/// A callout's marker may stand alone or before a line feed; before anything else
/// but a space or a fold sign it is no marker.
pub proof fn law_a_marker_ends_its_line(kind: AlertKind, c: char, rest: Seq<char>)
    ensures
        marker_at(marker(kind), 0, true) matches Some(m) && m.kind == kind && m.fold is None
            && m.body == marker(kind).len(),
        marker_at(marker(kind) + seq![c] + rest, 0, true) matches Some(m) ==> m.kind == kind,
        c == '\n' || c == ' ' ==> (marker_at(marker(kind) + seq![c] + rest, 0, true) matches Some(
            m,
        ) && m.fold is None && m.body == marker(kind).len() + 1),
        c == '\n' ==> marker_at(marker(kind) + seq![c] + rest, 0, false) is None,
        c != '\n' && c != ' ' && c != '-' && c != '+' ==> marker_at(
            marker(kind) + seq![c] + rest,
            0,
            true,
        ) is None,
{
    let m = marker(kind);
    let none = Seq::<char>::empty();
    crate::source_laws::lemma_kind(kind, none);
    assert(m + none =~= m);
    let s = m + seq![c] + rest;
    crate::source_laws::lemma_kind(kind, seq![c] + rest);
    assert(s =~= m + (seq![c] + rest));
    assert(s[m.len() as int] == c);
}

/// A heading is folded by its first line without the gaps round it.
pub proof fn law_a_fold_key_is_the_first_line(
    s: Seq<char>,
    at: Span,
    i: int,
    j: int,
    line: Seq<char>,
    rest: Seq<char>,
)
    requires
        slice_at(s, at.start as int, at.end as int) == Some((i, j)),
        lacks(line, '\n'),
        s.subrange(i, j) == line || s.subrange(i, j) == line + seq!['\n'] + rest,
    ensures
        fold_key(s, Some(at)) == Some(trim(line)),
{
    let h = s.subrange(i, j);
    let n = line.len() as int;
    text::lemma_index_of(h, '\n', 0);
    if h == line {
        assert(h.take(n) =~= line);
        match text::index_of(h, '\n', 0) {
            Some(k) => {
                assert(line[k] != '\n');
            },
            None => {},
        }
    } else {
        assert(h[n] == '\n');
        match text::index_of(h, '\n', 0) {
            Some(k) => {
                if k < n {
                    assert(h[k] == line[k]);
                }
            },
            None => {},
        }
        assert(h.take(n) =~= line);
    }
}

} // verus!
