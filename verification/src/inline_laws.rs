//! What inline nodes show: text as it stands, in the style and with the links
//! that the nodes round it give.
use crate::anchors::{block_anchor, heading_anchor};
use crate::inline::{
    in_ink, lemma_piece, moved, piece_at, source_of, spacer_from, style_after, url_from,
    with_gap, with_link, with_mark, with_node, with_nodes, with_page_link, with_plain, with_run,
    with_text_from, Ink, Known, LinkTarget, Piece, Setting, Shown, Style,
};
use crate::links::{tag_run, wiki_display, wiki_target};
use crate::numbering::{decimal, superscript_char};
use crate::text;
use crate::text::{blen, index_of_str, is_space, lemma_blen_concat, offset, stands_at};
use crate::tree::{Kind, Tree};
use vstd::prelude::*;

verus! {

/// Whether `v` holds nothing that opens a link, a reference, an anchor or a tag.
pub open spec fn is_plain(v: Seq<char>) -> bool {
    forall|k: int|
        0 <= k < v.len() ==> #[trigger] v[k] != '[' && v[k] != '(' && v[k] != '^' && v[k] != '#'
}

proof fn lemma_two_at(v: Seq<char>, i: int, c: char)
    ensures
        stands_at(v, i, seq![c, c]) <==> 0 <= i && i + 2 <= v.len() && v[i] == c && v[i + 1] == c,
{
    if 0 <= i && i + 2 <= v.len() {
        let t = v.subrange(i, i + 2);
        assert(t[0] == v[i] && t[1] == v[i + 1]);
        if v[i] == c && v[i + 1] == c {
            assert(t =~= seq![c, c]);
        }
    }
}

proof fn lemma_no_piece(v: Seq<char>, i: int, host: Known)
    requires
        0 <= i < v.len(),
        v[i] != '[',
        v[i] != '(',
        v[i] != '#',
        i + 1 < v.len() ==> v[i + 1] != '^',
    ensures
        piece_at(v, i, host) is None,
{
    lemma_two_at(v, i, '[');
    lemma_two_at(v, i, '(');
}

proof fn lemma_no_pieces(
    o: Shown,
    v: Seq<char>,
    base: int,
    i: int,
    to: int,
    plain: int,
    style: Style,
    host: Known,
)
    requires
        0 <= i <= to <= v.len(),
        forall|k: int|
            i <= k < to ==> #[trigger] v[k] != '[' && v[k] != '(' && v[k] != '#' && v[k] != '^',
        to < v.len() ==> v[to] != '^',
    ensures
        with_text_from(o, v, base, i, plain, style, host) == with_text_from(
            o,
            v,
            base,
            to,
            plain,
            style,
            host,
        ),
    decreases to - i,
{
    if i < to {
        if i + 1 < v.len() && i + 1 < to {
            assert(v[i + 1] != '^');
        }
        lemma_no_piece(v, i, host);
        lemma_no_pieces(o, v, base, i + 1, to, plain, style, host);
    }
}

/// Plain text is shown as it stands, in the style it is in, with no link, and
/// leads back to where it stands in the source.
pub proof fn law_plain_text_is_shown(
    o: Shown,
    n: Tree,
    v: Seq<char>,
    style: Style,
    e: Setting,
)
    requires
        n.kind == Kind::Text(v),
        is_plain(v),
        v.len() > 0,
    ensures
        ({
            let r = with_node(o, n, style, e);
            let a = blen(o.text) as int;
            &&& r.text == o.text + v
            &&& r.runs == o.runs.push((a, a + blen(v), style))
            &&& r.links == o.links
            &&& r.gaps == o.gaps
            &&& r.map == o.map.push((a, source_of(n.at)))
        }),
{
    lemma_no_pieces(o, v, source_of(n.at), 0, v.len() as int, 0, style, e.host);
    assert(v.subrange(0, v.len() as int) =~= v);
    lemma_blen_concat(o.text, v);
    assert(offset(v, 0) == 0);
}

/// Bold, italic and struck-out text is shown as it stands, with that mark added
/// to the style it is in.
pub proof fn law_marked_text_is_shown(
    o: Shown,
    n: Tree,
    t: Tree,
    v: Seq<char>,
    style: Style,
    e: Setting,
)
    requires
        n.children == seq![t],
        t.kind == Kind::Text(v),
        is_plain(v),
        v.len() > 0,
        n.kind is Strong || n.kind is Emphasis || n.kind is Delete,
    ensures
        ({
            let r = with_node(o, n, style, e);
            let a = blen(o.text) as int;
            let look = Style {
                bold: style.bold || n.kind is Strong,
                italic: style.italic || n.kind is Emphasis,
                strike: style.strike || n.kind is Delete,
                ..style
            };
            &&& r.text == o.text + v
            &&& r.runs == o.runs.push((a, a + blen(v), look))
            &&& r.links == o.links
        }),
{
    let look = Style {
        bold: style.bold || n.kind is Strong,
        italic: style.italic || n.kind is Emphasis,
        strike: style.strike || n.kind is Delete,
        ..style
    };
    law_plain_text_is_shown(o, t, v, look, e);
    lemma_one(o, n, t, look, e);
}

proof fn lemma_one(o: Shown, n: Tree, t: Tree, style: Style, e: Setting)
    requires
        n.children == seq![t],
    ensures
        with_nodes(o, n.children, 0, style, e) == with_node(o, t, style, e),
{
    let nodes = n.children;
    assert(nodes.len() == 1 && nodes[0] == t);
    reveal_with_fuel(with_nodes, 2);
}

/// A link's text is shown in the link colour and leads to the link's URL, for a
/// reference the URL of the first definition that bears its name. A reference
/// that nothing defines is shown as plain text.
pub proof fn law_a_link_leads_to_its_url(
    o: Shown,
    n: Tree,
    t: Tree,
    v: Seq<char>,
    url: Seq<char>,
    style: Style,
    e: Setting,
)
    requires
        n.children == seq![t],
        t.kind == Kind::Text(v),
        is_plain(v),
        v.len() > 0,
        n.kind == Kind::Link(url) || exists|id: Seq<char>, k: int|
            #[trigger] is_reference(n, e, id, k) && e.defs[k].1 == url,
    ensures
        ({
            let r = with_node(o, n, style, e);
            let a = blen(o.text) as int;
            &&& r.text == o.text + v
            &&& r.runs == o.runs.push((a, a + blen(v), Style { color: Some(Ink::Link), ..style }))
            &&& r.links == o.links.push((a, a + blen(v), LinkTarget::Url(url)))
        }),
{
    let look = in_ink(style, Ink::Link);
    law_plain_text_is_shown(o, t, v, look, e);
    lemma_one(o, n, t, look, e);
    lemma_blen_concat(o.text, v);
    assert(blen(v) > 0);
    if n.kind != Kind::Link(url) {
        let (id, k) = choose|id: Seq<char>, k: int|
            #[trigger] is_reference(n, e, id, k) && e.defs[k].1 == url;
        lemma_first_def(e.defs, id, 0, k);
    }
}

/// Whether `n` refers to `id`, and the definition at `k` is the first of it.
pub open spec fn is_reference(n: Tree, e: Setting, id: Seq<char>, k: int) -> bool {
    &&& n.kind == Kind::LinkReference(id)
    &&& 0 <= k < e.defs.len()
    &&& e.defs[k].0 == id
    &&& forall|j: int| 0 <= j < k ==> (#[trigger] e.defs[j]).0 != id
}

proof fn lemma_first_def(defs: Seq<(Seq<char>, Seq<char>)>, id: Seq<char>, i: int, k: int)
    requires
        0 <= i <= k < defs.len(),
        defs[k].0 == id,
        forall|j: int| i <= j < k ==> (#[trigger] defs[j]).0 != id,
    ensures
        url_from(defs, id, i) == Some(defs[k].1),
    decreases k - i,
{
    if i < k {
        lemma_first_def(defs, id, i + 1, k);
    }
}

/// What the leaves of a paragraph show: code in its own colours, a formula or
/// picture that is not ready by its source or its name, a footnote by its label,
/// a break by a line feed.
pub proof fn law_leaves_are_shown(o: Shown, n: Tree, style: Style, e: Setting)
    ensures
        ({
            let r = with_node(o, n, style, e);
            let a = blen(o.text) as int;
            &&& n.kind matches Kind::InlineCode(s) ==> s.len() > 0 ==> r.text == o.text + s
                && r.runs == o.runs.push(
                (
                    a,
                    blen(o.text + s) as int,
                    Style {
                        color: Some(Ink::Code),
                        background: Some(Ink::CodeBackground),
                        ..style
                    },
                ),
            ) && r.links == o.links
            &&& n.kind matches Kind::InlineMath(s) ==> spacer_from(e.host.spacers, s, false, 0)
                is None ==> r.text == o.text + (seq!['$'] + s + seq!['$']) && r.gaps == o.gaps
            &&& n.kind matches Kind::InlineMath(s) ==> spacer_from(e.host.spacers, s, false, 0)
                is Some ==> r.gaps.len() == o.gaps.len() + 1 && r.gaps.last().0 == a
                && r.gaps.last().2 == s && !r.gaps.last().3 && r.runs == o.runs
            &&& n.kind matches Kind::Image { url, alt } ==> spacer_from(
                e.host.spacers,
                url,
                true,
                0,
            ) is Some ==> r.gaps.len() == o.gaps.len() + 1 && r.gaps.last().0 == a
                && r.gaps.last().2 == url && r.gaps.last().3 && r.runs == o.runs
            &&& n.kind matches Kind::Image { url, alt } ==> spacer_from(
                e.host.spacers,
                url,
                true,
                0,
            ) is None && alt.len() > 0 ==> r.text == o.text + (seq!['🖼', ' '] + alt) && r.links
                == o.links.push((a, blen(r.text) as int, LinkTarget::Url(url)))
            &&& n.kind matches Kind::FootnoteReference { label, id } ==> r.text == o.text + (seq![
                '[',
            ] + (if label is Some {
                label->0
            } else {
                id
            }) + seq![']'])
            &&& n.kind is Break ==> r.text == o.text + seq!['\n']
        }),
{
    reveal_strlit("🖼 ");
    assert("🖼 "@ =~= seq!['🖼', ' ']);
}

// --- Styles reach what is inside ---

/// Whether `r` continues `o`, and what it adds has the marks that `style` has.
pub open spec fn grows(o: Shown, r: Shown, style: Style) -> bool {
    &&& o.text.is_prefix_of(r.text)
    &&& o.runs.is_prefix_of(r.runs)
    &&& o.links.is_prefix_of(r.links)
    &&& forall|k: int|
        o.runs.len() <= k < r.runs.len() ==> {
            let look = (#[trigger] r.runs[k]).2;
            &&& style.bold ==> look.bold
            &&& style.italic ==> look.italic
            &&& style.strike ==> look.strike
        }
}

/// Whether `y` has the marks of `x`.
spec fn has_marks(x: Style, y: Style) -> bool {
    &&& x.bold ==> y.bold
    &&& x.italic ==> y.italic
    &&& x.strike ==> y.strike
}

proof fn lemma_grows(o: Shown, m: Shown, r: Shown, x: Style, y: Style)
    requires
        grows(o, m, x),
        grows(m, r, y),
        has_marks(x, y),
    ensures
        grows(o, r, x),
{
    assert forall|k: int| o.runs.len() <= k < r.runs.len() implies has_marks(
        x,
        (#[trigger] r.runs[k]).2,
    ) by {
        if k < m.runs.len() {
            assert(m.runs[k] == r.runs[k]);
        }
    }
    assert(o.text.is_prefix_of(r.text)) by {
        assert(o.text =~= r.text.take(o.text.len() as int)) by {
            assert forall|k: int| 0 <= k < o.text.len() implies o.text[k] == r.text[k] by {
                assert(o.text[k] == m.text.subrange(0, o.text.len() as int)[k]);
                assert(m.text[k] == r.text.subrange(0, m.text.len() as int)[k]);
            }
        }
    }
    assert(o.runs.is_prefix_of(r.runs)) by {
        assert forall|k: int| 0 <= k < o.runs.len() implies o.runs[k] == r.runs[k] by {
            assert(o.runs[k] == m.runs.subrange(0, o.runs.len() as int)[k]);
            assert(m.runs[k] == r.runs.subrange(0, m.runs.len() as int)[k]);
        }
        assert(o.runs =~= r.runs.subrange(0, o.runs.len() as int));
    }
    assert(o.links.is_prefix_of(r.links)) by {
        assert forall|k: int| 0 <= k < o.links.len() implies o.links[k] == r.links[k] by {
            assert(o.links[k] == m.links.subrange(0, o.links.len() as int)[k]);
            assert(m.links[k] == r.links.subrange(0, m.links.len() as int)[k]);
        }
        assert(o.links =~= r.links.subrange(0, o.links.len() as int));
    }
}

proof fn lemma_grows_by(
    o: Shown,
    s: Seq<char>,
    style: Style,
    src: int,
    target: LinkTarget<Seq<char>>,
    before: nat,
)
    ensures
        grows(o, with_run(o, s, style), style),
        grows(o, with_mark(o, src), style),
        grows(o, with_link(o, before, target), style),
        grows(o, o, style),
{
    assert(o.text =~= o.text.subrange(0, o.text.len() as int));
    assert(o.runs =~= o.runs.subrange(0, o.runs.len() as int));
    assert(o.links =~= o.links.subrange(0, o.links.len() as int));
    let r = with_run(o, s, style);
    assert(o.text =~= r.text.subrange(0, o.text.len() as int));
    assert(o.runs =~= r.runs.subrange(0, o.runs.len() as int));
    let l = with_link(o, before, target);
    assert(o.links =~= l.links.subrange(0, o.links.len() as int));
}

proof fn lemma_grows_run(o: Shown, s: Seq<char>, style: Style, x: Style)
    requires
        has_marks(x, style),
    ensures
        grows(o, with_run(o, s, style), x),
{
    lemma_grows_by(o, s, style, 0, LinkTarget::Url(s), 0);
}

proof fn lemma_grows_text(
    o: Shown,
    v: Seq<char>,
    base: int,
    i: int,
    plain: int,
    style: Style,
    host: Known,
)
    ensures
        grows(o, with_text_from(o, v, base, i, plain, style, host), style),
    decreases v.len() - i,
{
    if i < 0 || i >= v.len() {
        lemma_grows_plain(o, v, base, plain, v.len() as int, style);
    } else {
        lemma_piece(v, i, host);
        match piece_at(v, i, host) {
            Some(p) => {
                let a = with_plain(o, v, base, plain, i, style);
                lemma_grows_plain(o, v, base, plain, i, style);
                let b = match p.link {
                    Some((shown, target, ink)) => with_page_link(
                        with_mark(a, moved(base, offset(v, p.mark) as int)),
                        shown,
                        target,
                        ink,
                        style,
                    ),
                    None => a,
                };
                assert(grows(a, b, style)) by {
                    match p.link {
                        Some((shown, target, ink)) => {
                            let src = moved(base, offset(v, p.mark) as int);
                            let m = with_mark(a, src);
                            let look = in_ink(style, ink);
                            let c = with_run(m, shown, look);
                            lemma_grows_by(a, shown, style, src, LinkTarget::Wiki(target), 0);
                            lemma_grows_run(m, shown, look, style);
                            lemma_grows_by(
                                c,
                                shown,
                                style,
                                src,
                                LinkTarget::Wiki(target),
                                blen(m.text),
                            );
                            lemma_grows(a, m, c, style, style);
                            lemma_grows(a, c, b, style, style);
                        },
                        None => {
                            lemma_grows_by(a, v, style, 0, LinkTarget::Wiki(v), 0);
                        },
                    }
                }
                lemma_grows(o, a, b, style, style);
                lemma_grows_text(b, v, base, p.next, p.next, style, host);
                lemma_grows(
                    o,
                    b,
                    with_text_from(b, v, base, p.next, p.next, style, host),
                    style,
                    style,
                );
            },
            None => {
                lemma_grows_text(o, v, base, i + 1, plain, style, host);
            },
        }
    }
}

proof fn lemma_grows_plain(o: Shown, v: Seq<char>, base: int, a: int, b: int, style: Style)
    ensures
        grows(o, with_plain(o, v, base, a, b, style), style),
{
    let src = moved(base, offset(v, a) as int);
    let m = with_mark(o, src);
    lemma_grows_by(o, v, style, src, LinkTarget::Url(v), 0);
    lemma_grows_run(m, v.subrange(a, b), style, style);
    lemma_grows(o, m, with_plain(o, v, base, a, b, style), style, style);
}

proof fn lemma_grows_gap(o: Shown, s: Seq<char>, image: bool, w: nat, style: Style)
    ensures
        grows(o, with_gap(o, s, image, w), style),
{
    let r = with_gap(o, s, image, w);
    assert(o.text =~= r.text.subrange(0, o.text.len() as int));
    assert(o.runs =~= o.runs.subrange(0, o.runs.len() as int));
    assert(o.links =~= o.links.subrange(0, o.links.len() as int));
}

proof fn lemma_grows_node(o: Shown, n: Tree, style: Style, e: Setting)
    ensures
        grows(o, with_node(o, n, style, e), style),
    decreases n, 0int,
{
    let none = Seq::<char>::empty();
    let start = blen(o.text);
    let src = source_of(n.at);
    let look = in_ink(style, Ink::Link);
    lemma_grows_by(o, none, style, src, LinkTarget::Url(none), 0);
    match n.kind {
        Kind::Text(s) => {
            lemma_grows_text(o, s, src, 0, 0, style, e.host);
        },
        Kind::Strong => {
            let y = Style { bold: true, ..style };
            law_styles_reach_inside(o, n.children, 0, y, e);
            lemma_grows(o, o, with_node(o, n, style, e), style, y);
        },
        Kind::Emphasis => {
            let y = Style { italic: true, ..style };
            law_styles_reach_inside(o, n.children, 0, y, e);
            lemma_grows(o, o, with_node(o, n, style, e), style, y);
        },
        Kind::Delete => {
            let y = Style { strike: true, ..style };
            law_styles_reach_inside(o, n.children, 0, y, e);
            lemma_grows(o, o, with_node(o, n, style, e), style, y);
        },
        Kind::InlineCode(s) => {
            let y = Style {
                color: Some(Ink::Code),
                background: Some(Ink::CodeBackground),
                ..style
            };
            let m = with_mark(o, moved(src, 1));
            lemma_grows_by(o, none, style, moved(src, 1), LinkTarget::Url(none), 0);
            lemma_grows_run(m, s, y, style);
            lemma_grows(o, m, with_node(o, n, style, e), style, style);
        },
        Kind::InlineMath(s) => {
            let m = with_mark(o, src);
            match spacer_from(e.host.spacers, s, false, 0) {
                Some(w) => lemma_grows_gap(m, s, false, w, style),
                None => lemma_grows_run(m, seq!['$'] + s + seq!['$'], style, style),
            }
            lemma_grows(o, m, with_node(o, n, style, e), style, style);
        },
        Kind::Link(url) => {
            let b = with_nodes(o, n.children, 0, look, e);
            law_styles_reach_inside(o, n.children, 0, look, e);
            lemma_grows(o, o, b, style, look);
            lemma_grows_by(b, none, style, src, LinkTarget::Url(url), start);
            lemma_grows(o, b, with_node(o, n, style, e), style, style);
        },
        Kind::Break => {
            lemma_grows_run(o, seq!['\n'], style, style);
        },
        Kind::Image { url, alt } => {
            let m = with_mark(o, src);
            match spacer_from(e.host.spacers, url, true, 0) {
                Some(w) => lemma_grows_gap(m, url, true, w, style),
                None => {
                    let label = crate::inline::image_label(alt);
                    let b = with_run(m, label, look);
                    lemma_grows_run(m, label, look, style);
                    lemma_grows_by(b, none, style, src, LinkTarget::Url(url), start);
                    lemma_grows(m, b, with_node(o, n, style, e), style, style);
                },
            }
            lemma_grows(o, m, with_node(o, n, style, e), style, style);
        },
        Kind::FootnoteReference { label, id } => {
            lemma_grows_run(
                o,
                seq!['['] + crate::inline::label_or_id(label, id) + seq![']'],
                look,
                style,
            );
        },
        Kind::LinkReference(id) => match url_from(e.defs, id, 0) {
            Some(url) => {
                let b = with_nodes(o, n.children, 0, look, e);
                law_styles_reach_inside(o, n.children, 0, look, e);
                lemma_grows(o, o, b, style, look);
                lemma_grows_by(b, none, style, src, LinkTarget::Url(url), start);
                lemma_grows(o, b, with_node(o, n, style, e), style, style);
            },
            None => {
                law_styles_reach_inside(o, n.children, 0, style, e);
            },
        },
        Kind::ImageReference { id, alt } => {
            let label = crate::inline::image_label(alt);
            let b = with_run(o, label, look);
            lemma_grows_run(o, label, look, style);
            if let Some(url) = url_from(e.defs, id, 0) {
                lemma_grows_by(b, none, style, src, LinkTarget::Url(url), start);
                lemma_grows(o, b, with_node(o, n, style, e), style, style);
            }
        },
        Kind::Html(s) => {
            lemma_grows_run(o, s, style, style);
        },
        Kind::Paragraph => {
            law_styles_reach_inside(o, n.children, 0, style, e);
        },
        _ => {},
    }
}

/// Whatever nodes stand inside bold, italic or struck-out content, all that they
/// show is bold, italic or struck out; what was shown before stays.
pub proof fn law_styles_reach_inside(
    o: Shown,
    nodes: Seq<Tree>,
    i: int,
    style: Style,
    e: Setting,
)
    ensures
        grows(o, with_nodes(o, nodes, i, style, e), style),
    decreases nodes, nodes.len() - i,
{
    let none = Seq::<char>::empty();
    lemma_grows_by(o, none, style, 0, LinkTarget::Url(none), 0);
    if 0 <= i < nodes.len() {
        let m = with_node(o, nodes[i], style, e);
        let y = style_after(nodes[i], style);
        lemma_grows_node(o, nodes[i], style, e);
        law_styles_reach_inside(m, nodes, i + 1, y, e);
        lemma_grows(o, m, with_nodes(o, nodes, i, style, e), style, y);
    }
}

// --- Links in text ---

/// Whether `s` has no whitespace at either end, and is not empty.
pub open spec fn is_tight(s: Seq<char>) -> bool {
    s.len() > 0 && !is_space(s[0]) && !is_space(s.last())
}

/// Whether `s` can name a page inside a link: plain, without a bar or a bracket.
pub open spec fn is_name(s: Seq<char>) -> bool {
    &&& is_plain(s)
    &&& is_tight(s)
    &&& forall|k: int| 0 <= k < s.len() ==> #[trigger] s[k] != '|' && s[k] != ']'
}

proof fn lemma_closes(v: Seq<char>, c: char, i: int, n: int)
    requires
        0 <= i <= n,
        n + 2 <= v.len(),
        forall|k: int| i <= k < n ==> #[trigger] v[k] != c,
        v[n] == c,
        v[n + 1] == c,
    ensures
        index_of_str(v, seq![c, c], i) == Some(n),
    decreases n - i,
{
    lemma_two_at(v, i, c);
    if i < n {
        assert(v[i] != c);
        lemma_closes(v, c, i + 1, n);
    }
}

proof fn lemma_tight(s: Seq<char>)
    requires
        is_tight(s),
    ensures
        text::trim(s) == s,
{
    text::lemma_trim_between(s, 0, s.len() as int);
    assert(s.subrange(0, s.len() as int) =~= s);
}

/// A plain name carries no anchor.
proof fn lemma_no_anchor(s: Seq<char>)
    requires
        is_plain(s),
    ensures
        block_anchor(s) is None,
        heading_anchor(s) is None,
{
    text::lemma_index_of(s, '#', 0);
    text::lemma_index_of_str(s, seq!['#', '^'], 0);
    match index_of_str(s, seq!['#', '^'], 0) {
        Some(k) => {
            assert(s.subrange(k, k + 2)[0] == s[k]);
            assert(seq!['#', '^'][0] == '#');
        },
        None => {},
    }
}

/// The name, and the label where the link has one.
proof fn lemma_named(name: Seq<char>, label: Option<Seq<char>>, host: Known)
    requires
        is_name(name),
        label is Some ==> is_name(label->0),
    ensures
        ({
            let inner = inner_of(name, label);
            &&& wiki_target(inner) == name
            &&& crate::inline::wiki_shown(inner, host) == shown_of(name, label)
        }),
{
    let inner = inner_of(name, label);
    let n = name.len() as int;
    text::lemma_index_of(inner, '|', 0);
    lemma_tight(name);
    lemma_no_anchor(name);
    if label is Some {
        assert(inner[n] == '|');
        match text::index_of(inner, '|', 0) {
            Some(k) => {
                if k < n {
                    assert(inner[k] == name[k]);
                }
            },
            None => {},
        }
        assert(inner.take(n) =~= name);
        assert(inner.skip(n + 1) =~= label->0);
        lemma_tight(label->0);
        assert(wiki_display(inner) == label->0);
    }
}

/// What stands between the brackets of a link to `name`.
pub open spec fn inner_of(name: Seq<char>, label: Option<Seq<char>>) -> Seq<char> {
    match label {
        Some(l) => name + seq!['|'] + l,
        None => name,
    }
}

/// What a link to `name` shows.
pub open spec fn shown_of(name: Seq<char>, label: Option<Seq<char>>) -> Seq<char> {
    match label {
        Some(l) => l,
        None => name,
    }
}

/// Text with one link in it.
proof fn lemma_one_piece(
    o: Shown,
    v: Seq<char>,
    base: int,
    before: Seq<char>,
    p: Piece,
    behind: Seq<char>,
    style: Style,
    host: Known,
)
    requires
        is_plain(before),
        is_plain(behind),
        before.len() < v.len(),
        v.take(before.len() as int) == before,
        v[before.len() as int] != '^',
        piece_at(v, before.len() as int, host) == Some(p),
        p.link is Some,
        before.len() < p.next <= v.len(),
        v.skip(p.next) == behind,
    ensures
        ({
            let r = with_text_from(o, v, base, 0, 0, style, host);
            let (shown, target, ink) = p.link->0;
            let a = blen(o.text + before) as int;
            let b = blen(o.text + before + shown) as int;
            &&& r.text == o.text + before + shown + behind
            &&& r.links == o.links.push((a, b, LinkTarget::Wiki(target)))
            &&& shown.len() > 0 ==> r.runs.contains((a, b, in_ink(style, ink)))
        }),
{
    let (shown, target, ink) = p.link->0;
    let i = before.len() as int;
    let c = p.next;
    assert forall|k: int| 0 <= k < i implies #[trigger] v[k] != '[' && v[k] != '(' && v[k] != '#'
        && v[k] != '^' by {
        assert(v.take(i)[k] == v[k]);
        assert(before[k] == v[k]);
    }
    lemma_no_pieces(o, v, base, 0, i, 0, style, host);
    let a = with_plain(o, v, base, 0, i, style);
    let m = with_mark(a, moved(base, offset(v, p.mark) as int));
    let q = with_page_link(m, shown, target, ink, style);
    assert(v.subrange(0, i) =~= before);
    assert(a.text =~= o.text + before);
    assert(q.text =~= o.text + before + shown);
    assert forall|k: int| c <= k < v.len() implies #[trigger] v[k] != '[' && v[k] != '('
        && v[k] != '#' && v[k] != '^' by {
        assert(v.skip(c)[k - c] == v[k]);
        assert(behind[k - c] == v[k]);
    }
    lemma_no_pieces(q, v, base, c, v.len() as int, c, style, host);
    assert(v.subrange(c, v.len() as int) =~= behind);
    let r = with_text_from(o, v, base, 0, 0, style, host);
    assert(with_text_from(o, v, base, i, 0, style, host) == with_text_from(
        q,
        v,
        base,
        c,
        c,
        style,
        host,
    ));
    assert(r == with_plain(q, v, base, c, v.len() as int, style));
    assert(r.text =~= o.text + before + shown + behind);
    if shown.len() > 0 {
        let last = q.runs.len() - 1;
        assert(q.runs[last] == r.runs[last]);
    }
}

/// A link to a page shows its label, or the page's name where it has none, in
/// the link colour, and leads to the page; the text round it is shown as it
/// stands.
pub proof fn law_a_wiki_link_leads_to_its_page(
    o: Shown,
    n: Tree,
    before: Seq<char>,
    name: Seq<char>,
    label: Option<Seq<char>>,
    behind: Seq<char>,
    style: Style,
    e: Setting,
)
    requires
        is_plain(before),
        is_plain(behind),
        is_name(name),
        label is Some ==> is_name(label->0),
        n.kind == Kind::Text(
            before + seq!['[', '['] + inner_of(name, label) + seq![']', ']'] + behind,
        ),
    ensures
        ({
            let r = with_node(o, n, style, e);
            let shown = shown_of(name, label);
            let a = blen(o.text + before) as int;
            let b = blen(o.text + before + shown) as int;
            &&& r.text == o.text + before + shown + behind
            &&& r.links == o.links.push((a, b, LinkTarget::Wiki(name)))
            &&& r.runs.contains((a, b, Style { color: Some(Ink::Link), ..style }))
        }),
{
    let inner = inner_of(name, label);
    let shown = shown_of(name, label);
    let v = before + seq!['[', '['] + inner + seq![']', ']'] + behind;
    let base = source_of(n.at);
    let i = before.len() as int;
    let c = i + 2 + inner.len();
    assert(v[i] == '[' && v[i + 1] == '[');
    assert(v[c] == ']' && v[c + 1] == ']');
    lemma_two_at(v, i, '[');
    lemma_inner(name, label);
    assert forall|k: int| i + 2 <= k < c implies #[trigger] v[k] != ']' by {
        assert(v[k] == inner[k - i - 2]);
    }
    lemma_closes(v, ']', i + 2, c);
    assert(v.subrange(i + 2, c) =~= inner);
    lemma_named(name, label, e.host);
    assert(v.take(i) =~= before);
    assert(v.skip(c + 2) =~= behind);
    let p = piece_at(v, i, e.host)->0;
    lemma_one_piece(o, v, base, before, p, behind, style, e.host);
}

proof fn lemma_inner(name: Seq<char>, label: Option<Seq<char>>)
    requires
        is_name(name),
        label is Some ==> is_name(label->0),
    ensures
        forall|j: int| 0 <= j < inner_of(name, label).len() ==> #[trigger] inner_of(name, label)[j]
            != ']',
{
    let inner = inner_of(name, label);
    assert forall|j: int| 0 <= j < inner.len() implies #[trigger] inner[j] != ']' by {
        if j < name.len() {
            assert(inner[j] == name[j]);
        } else if j > name.len() {
            assert(inner[j] == label->0[j - name.len() - 1]);
        }
    }
}

/// A tag is shown as it stands, in the tag colour, and leads to the page that it
/// names; the text round it is shown as it stands.
pub proof fn law_a_tag_leads_to_its_page(
    o: Shown,
    n: Tree,
    before: Seq<char>,
    name: Seq<char>,
    behind: Seq<char>,
    style: Style,
    e: Setting,
)
    requires
        is_plain(before),
        before.len() == 0 || before.last() == ' ',
        is_plain(behind),
        behind.len() == 0 || behind[0] == ' ' || behind[0] == '.',
        name.len() > 0,
        forall|k: int| 0 <= k < name.len() ==> text::is_alnum(#[trigger] name[k]),
        n.kind == Kind::Text(before + seq!['#'] + name + behind),
    ensures
        ({
            let r = with_node(o, n, style, e);
            let shown = seq!['#'] + name;
            let a = blen(o.text + before) as int;
            let b = blen(o.text + before + shown) as int;
            &&& r.text == o.text + before + shown + behind
            &&& r.links == o.links.push((a, b, LinkTarget::Wiki(name)))
            &&& r.runs.contains((a, b, Style { color: Some(Ink::Tag), ..style }))
        }),
{
    let shown = seq!['#'] + name;
    let v = before + seq!['#'] + name + behind;
    let base = source_of(n.at);
    let i = before.len() as int;
    let c = i + 1 + name.len();
    assert(v[i] == '#');
    lemma_two_at(v, i, '[');
    lemma_two_at(v, i, '(');
    if i > 0 {
        assert(v[i - 1] == before.last());
    }
    assert forall|k: int| i + 1 <= k < c implies text::is_alnum(#[trigger] v[k]) by {
        assert(v[k] == name[k - i - 1]);
    }
    if c < v.len() {
        assert(v[c] == behind[0]);
    }
    lemma_tag_ends(v, i + 1, c);
    assert(v.subrange(i, c) =~= shown);
    assert(v.subrange(i + 1, c) =~= name);
    assert(v.take(i) =~= before);
    assert(v.skip(c) =~= behind);
    let p = piece_at(v, i, e.host)->0;
    lemma_one_piece(o, v, base, before, p, behind, style, e.host);
}

proof fn lemma_tag_ends(v: Seq<char>, i: int, c: int)
    requires
        0 <= i <= c <= v.len(),
        forall|k: int| i <= k < c ==> text::is_alnum(#[trigger] v[k]),
        c < v.len() ==> v[c] == ' ' || v[c] == '.',
    ensures
        tag_run(v, i) == c,
    decreases c - i,
{
    if i < c {
        assert(text::is_alnum(v[i]));
        lemma_tag_ends(v, i + 1, c);
    }
}

// --- Tags that switch a style ---

/// `<u>` underlines what follows it up to `</u>`, and `<mark>` highlights what
/// follows it up to `</mark>`; the tags themselves are not shown.
pub proof fn law_tags_switch_styles(
    o: Shown,
    nodes: Seq<Tree>,
    v: Seq<char>,
    w: Seq<char>,
    style: Style,
    e: Setting,
)
    requires
        nodes.len() == 4,
        nodes[0].kind == Kind::Html("<u>"@) && nodes[2].kind == Kind::Html("</u>"@)
            || nodes[0].kind == Kind::Html("<mark>"@) && nodes[2].kind == Kind::Html("</mark>"@),
        nodes[1].kind == Kind::Text(v),
        nodes[3].kind == Kind::Text(w),
        is_plain(v) && v.len() > 0,
        is_plain(w) && w.len() > 0,
    ensures
        ({
            let r = with_nodes(o, nodes, 0, style, e);
            let a = blen(o.text) as int;
            let b = a + blen(v);
            let line = nodes[0].kind == Kind::Html("<u>"@);
            let on = if line {
                Style { underline: true, ..style }
            } else {
                Style { background: Some(Ink::Mark), ..style }
            };
            let off = if line {
                Style { underline: false, ..style }
            } else {
                Style { background: None, ..style }
            };
            &&& r.text == o.text + v + w
            &&& r.runs == o.runs.push((a, b, on)).push((b, b + blen(w), off))
        }),
{
    reveal_with_fuel(with_nodes, 5);
    lemma_tag_words();
    let line = nodes[0].kind == Kind::Html("<u>"@);
    let on = if line {
        Style { underline: true, ..style }
    } else {
        Style { background: Some(Ink::Mark), ..style }
    };
    let off = if line {
        Style { underline: false, ..style }
    } else {
        Style { background: None, ..style }
    };
    assert(style_after(nodes[0], style) == on);
    assert(with_node(o, nodes[0], style, e) == o);
    law_plain_text_is_shown(o, nodes[1], v, on, e);
    let m = with_node(o, nodes[1], on, e);
    assert(style_after(nodes[1], on) == on);
    assert(style_after(nodes[2], on) == off);
    assert(with_node(m, nodes[2], on, e) == m);
    law_plain_text_is_shown(m, nodes[3], w, off, e);
    lemma_blen_concat(o.text, v);
    assert(with_nodes(o, nodes, 0, style, e) == with_node(m, nodes[3], off, e));
}

proof fn lemma_tag_words()
    ensures
        text::ascii_lower(text::trim("<u>"@)) == "<u>"@,
        text::ascii_lower(text::trim("</u>"@)) == "</u>"@,
        text::ascii_lower(text::trim("<mark>"@)) == "<mark>"@,
        text::ascii_lower(text::trim("</mark>"@)) == "</mark>"@,
        !text::begins("<u>"@, "<mark "@),
        !text::begins("</u>"@, "<mark "@),
        !text::begins("</mark>"@, "<mark "@),
        "<u>"@ != "<mark>"@,
        "<u>"@ != "</mark>"@,
        "</u>"@ != "<mark>"@,
        "</u>"@ != "</mark>"@,
        "</u>"@ != "<u>"@,
        "</mark>"@ != "<mark>"@,
{
    reveal_strlit("<u>");
    reveal_strlit("</u>");
    reveal_strlit("<mark>");
    reveal_strlit("</mark>");
    reveal_strlit("<mark ");
    lemma_tight("<u>"@);
    lemma_tight("</u>"@);
    lemma_tight("<mark>"@);
    lemma_tight("</mark>"@);
    assert(text::ascii_lower("<u>"@) =~= "<u>"@);
    assert(text::ascii_lower("</u>"@) =~= "</u>"@);
    assert(text::ascii_lower("<mark>"@) =~= "<mark>"@);
    assert(text::ascii_lower("</mark>"@) =~= "</mark>"@);
    assert("<u>"@.len() == 3 && "</u>"@.len() == 4 && "<mark>"@.len() == 6);
    assert("</mark>"@.subrange(0, 6)[1] == '/');
    assert("<mark "@[1] == 'm');
}

// --- References ---

/// A block reference shows the label of its block and leads to the block; the
/// text round it is shown as it stands.
pub proof fn law_a_block_reference_shows_its_label(
    o: Shown,
    n: Tree,
    before: Seq<char>,
    id: Seq<char>,
    label: Seq<char>,
    behind: Seq<char>,
    style: Style,
    e: Setting,
)
    requires
        is_plain(before),
        is_plain(behind),
        id.len() > 0,
        forall|k: int| 0 <= k < id.len() ==> text::is_alnum(#[trigger] id[k]),
        e.host.labels == seq![(Seq::<char>::empty(), id, label)],
        n.kind == Kind::Text(before + seq!['(', '('] + id + seq![')', ')'] + behind),
    ensures
        ({
            let r = with_node(o, n, style, e);
            let a = blen(o.text + before) as int;
            let b = blen(o.text + before + label) as int;
            &&& r.text == o.text + before + label + behind
            &&& r.links == o.links.push((a, b, LinkTarget::Wiki(seq!['#', '^'] + id)))
        }),
{
    let v = before + seq!['(', '('] + id + seq![')', ')'] + behind;
    let i = before.len() as int;
    let c = i + 2 + id.len();
    assert(v[i] == '(' && v[i + 1] == '(' && v[c] == ')' && v[c + 1] == ')');
    lemma_two_at(v, i, '[');
    lemma_two_at(v, i, '(');
    assert forall|k: int| i + 2 <= k < c implies #[trigger] v[k] != ')' by {
        assert(v[k] == id[k - i - 2]);
        assert(text::is_alnum(id[k - i - 2]));
    }
    lemma_closes(v, ')', i + 2, c);
    assert(v.subrange(i + 2, c) =~= id);
    assert(crate::links::all_id(id));
    let all = e.host.labels;
    assert(all[0] == (Seq::<char>::empty(), id, label));
    assert(crate::inline::label_from(all, seq![], id, 0) == Some(label)) by {
        assert(Seq::<char>::empty() =~= seq![]);
    }
    assert(v.take(i) =~= before);
    assert(v.skip(c + 2) =~= behind);
    let p = piece_at(v, i, e.host)->0;
    lemma_one_piece(o, v, source_of(n.at), before, p, behind, style, e.host);
}

/// A link to a heading shows the page and the heading with an arrow between, and
/// leads to the heading.
pub proof fn law_a_link_to_a_heading_shows_both(
    o: Shown,
    n: Tree,
    before: Seq<char>,
    page: Seq<char>,
    heading: Seq<char>,
    behind: Seq<char>,
    style: Style,
    e: Setting,
)
    requires
        is_plain(before),
        is_plain(behind),
        is_name(page),
        is_name(heading),
        !crate::anchors::is_pdf(page),
        n.kind == Kind::Text(
            before + seq!['[', '['] + (page + seq!['#'] + heading) + seq![']', ']'] + behind,
        ),
    ensures
        ({
            let r = with_node(o, n, style, e);
            let shown = page + seq![' ', '→', ' '] + heading;
            let a = blen(o.text + before) as int;
            let b = blen(o.text + before + shown) as int;
            &&& r.text == o.text + before + shown + behind
            &&& r.links == o.links.push(
                (a, b, LinkTarget::Wiki(page + seq!['#'] + heading)),
            )
        }),
{
    let inner = page + seq!['#'] + heading;
    let v = before + seq!['[', '['] + inner + seq![']', ']'] + behind;
    let i = before.len() as int;
    let c = i + 2 + inner.len();
    let m = page.len() as int;
    assert(v[i] == '[' && v[i + 1] == '[' && v[c] == ']' && v[c + 1] == ']');
    lemma_two_at(v, i, '[');
    assert forall|k: int| 0 <= k < inner.len() implies #[trigger] inner[k] != ']' && inner[k]
        != '|' by {
        if k < m {
            assert(inner[k] == page[k]);
        } else if k > m {
            assert(inner[k] == heading[k - m - 1]);
        }
    }
    assert forall|k: int| i + 2 <= k < c implies #[trigger] v[k] != ']' by {
        assert(v[k] == inner[k - i - 2]);
    }
    lemma_closes(v, ']', i + 2, c);
    assert(v.subrange(i + 2, c) =~= inner);
    lemma_heading_link(page, heading, e.host);
    assert(v.take(i) =~= before);
    assert(v.skip(c + 2) =~= behind);
    let p = piece_at(v, i, e.host)->0;
    lemma_one_piece(o, v, source_of(n.at), before, p, behind, style, e.host);
}

proof fn lemma_heading_link(page: Seq<char>, heading: Seq<char>, host: Known)
    requires
        is_name(page),
        is_name(heading),
        !crate::anchors::is_pdf(page),
    ensures
        ({
            let inner = page + seq!['#'] + heading;
            &&& wiki_target(inner) == inner
            &&& crate::inline::wiki_shown(inner, host) == page + seq![' ', '→', ' '] + heading
        }),
{
    let inner = page + seq!['#'] + heading;
    let m = page.len() as int;
    text::lemma_index_of(inner, '|', 0);
    match text::index_of(inner, '|', 0) {
        Some(k) => {
            if k < m {
                assert(inner[k] == page[k]);
            } else if k > m {
                assert(inner[k] == heading[k - m - 1]);
            }
        },
        None => {},
    }
    assert(inner[0] == page[0] && inner.last() == heading.last());
    lemma_tight(inner);
    assert(inner[m] == '#' && inner[m + 1] == heading[0]);
    text::lemma_index_of(inner, '#', 0);
    match text::index_of(inner, '#', 0) {
        Some(k) => {
            if k < m {
                assert(inner[k] == page[k]);
            }
        },
        None => {},
    }
    text::lemma_index_of_str(inner, seq!['#', '^'], 0);
    match index_of_str(inner, seq!['#', '^'], 0) {
        Some(k) => {
            let t = inner.subrange(k, k + 2);
            assert(t[0] == inner[k] && t[1] == inner[k + 1]);
            assert(t == seq!['#', '^']);
            if k < m {
                assert(inner[k] == page[k]);
            } else if k > m {
                assert(inner[k] == heading[k - m - 1]);
            }
        },
        None => {},
    }
    assert(block_anchor(inner) is None);
    assert(inner.take(m) =~= page);
    assert(inner.skip(m + 1) =~= heading);
    lemma_tight(heading);
}

/// A block's id is not shown; where pages refer to the block their number is
/// shown in its place, raised, and leads to them.
pub proof fn law_a_block_id_is_not_shown(
    o: Shown,
    n: Tree,
    words: Seq<char>,
    id: Seq<char>,
    count: nat,
    style: Style,
    e: Setting,
)
    requires
        is_plain(words),
        forall|k: int| 0 <= k < words.len() ==> #[trigger] words[k] != '\n',
        id.len() > 0,
        forall|k: int| 0 <= k < id.len() ==> text::is_alnum(#[trigger] id[k]),
        e.host.refs == seq![(id, count)],
        n.kind == Kind::Text(words + seq![' ', '^'] + id),
    ensures
        ({
            let r = with_node(o, n, style, e);
            let raised = seq![' '] + decimal(count).map_values(|c: char| superscript_char(c));
            &&& count == 0 ==> r.text == o.text + words && r.links == o.links
            &&& count > 0 ==> r.text == o.text + words + raised && r.links == o.links.push(
                (
                    blen(o.text + words) as int,
                    blen(o.text + words + raised) as int,
                    LinkTarget::Wiki("refs:^"@ + id),
                ),
            )
        }),
{
    let v = words + seq![' ', '^'] + id;
    let i = words.len() as int;
    let base = source_of(n.at);
    lemma_anchor(words, id, count, e.host);
    let p = piece_at(v, i, e.host)->0;
    assert(v.take(i) =~= words);
    assert(v[i] == ' ');
    assert(v.skip(p.next) =~= Seq::<char>::empty());
    if count > 0 {
        let none = Seq::<char>::empty();
        lemma_one_piece(o, v, base, words, p, none, style, e.host);
        let r = with_node(o, n, style, e);
        let shown = (p.link->0).0;
        assert(o.text + words + shown + none =~= o.text + words + shown);
    } else {
        assert forall|k: int| 0 <= k < i implies #[trigger] v[k] != '[' && v[k] != '(' && v[k]
            != '#' && v[k] != '^' by {
            assert(v[k] == words[k]);
        }
        lemma_no_pieces(o, v, base, 0, i, 0, style, e.host);
        assert(v.subrange(0, i) =~= words);
        let a = with_plain(o, v, base, 0, i, style);
        assert(a.text =~= o.text + words);
        let end = v.len() as int;
        assert(v.subrange(end, end) =~= Seq::<char>::empty());
        assert(with_text_from(o, v, base, i, 0, style, e.host) == with_text_from(
            a,
            v,
            base,
            end,
            end,
            style,
            e.host,
        ));
    }
}

proof fn lemma_anchor(words: Seq<char>, id: Seq<char>, count: nat, host: Known)
    requires
        is_plain(words),
        forall|k: int| 0 <= k < words.len() ==> #[trigger] words[k] != '\n',
        id.len() > 0,
        forall|k: int| 0 <= k < id.len() ==> text::is_alnum(#[trigger] id[k]),
        host.refs == seq![(id, count)],
    ensures
        ({
            let v = words + seq![' ', '^'] + id;
            let i = words.len() as int;
            let raised = seq![' '] + decimal(count).map_values(|c: char| superscript_char(c));
            &&& piece_at(v, i, host) is Some
            &&& piece_at(v, i, host)->0.next == v.len()
            &&& piece_at(v, i, host)->0.link == if count > 0 {
                Some((raised, "refs:^"@ + id, Ink::Tag))
            } else {
                None
            }
        }),
{
    let v = words + seq![' ', '^'] + id;
    let i = words.len() as int;
    assert(v[i] == ' ' && v[i + 1] == '^');
    lemma_two_at(v, i, '[');
    lemma_two_at(v, i, '(');
    text::lemma_index_of(v, '\n', i);
    match text::index_of(v, '\n', i) {
        Some(k) => {
            if k >= i + 2 {
                assert(v[k] == id[k - i - 2]);
                assert(text::is_alnum(id[k - i - 2]));
            }
        },
        None => {},
    }
    assert(text::line_end_from(v, i) == v.len());
    assert(v.take(v.len() as int) =~= v);
    crate::find_laws::law_a_block_id_is_read(words, id);
    let all = host.refs;
    assert(all[0] == (id, count));
    assert(crate::inline::refs_from(all, id, 0) == count);
}

} // verus!
