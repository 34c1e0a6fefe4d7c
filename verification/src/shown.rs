//! What holds of all inline content: its runs come in order, links and
//! checkpoints lie inside the text, and the text depends neither on the style
//! nor on the reference definitions.
use crate::inline::{
    in_ink, lemma_piece, moved, nothing, piece_at, source_of, spacer_from, style_after, tag_style,
    url_from, with_gap, with_link, with_mark, with_node, with_nodes, with_page_link, with_plain,
    with_run, with_text_from, Ink, Known, LinkTarget, Setting, Shown, Style,
};
use crate::overlay::in_order;
use crate::text::{blen, lemma_blen_concat, offset};
use crate::tree::{Kind, Tree};
use vstd::prelude::*;

verus! {

/// Whether the runs come in order and inside the text, the links lie inside the
/// text, and the checkpoints come in order and inside the text.
pub open spec fn is_tidy(o: Shown) -> bool {
    &&& in_order(o.runs)
    &&& forall|k: int|
        0 <= k < o.runs.len() ==> 0 <= (#[trigger] o.runs[k]).0 && o.runs[k].1 <= blen(o.text)
    &&& forall|k: int|
        0 <= k < o.links.len() ==> 0 <= (#[trigger] o.links[k]).0 <= o.links[k].1 <= blen(o.text)
    &&& forall|k: int|
        0 <= k < o.map.len() ==> 0 <= (#[trigger] o.map[k]).0 <= blen(o.text)
    &&& forall|j: int, k: int|
        #![trigger o.map[j], o.map[k]]
        0 <= j <= k < o.map.len() ==> o.map[j].0 <= o.map[k].0
}

proof fn lemma_char_width(s: Seq<char>)
    ensures
        s.len() > 0 ==> blen(s) > 0,
{
}

proof fn lemma_tidy_run(o: Shown, s: Seq<char>, style: Style)
    requires
        is_tidy(o),
    ensures
        is_tidy(with_run(o, s, style)),
        blen(o.text) <= blen(with_run(o, s, style).text),
{
    lemma_blen_concat(o.text, s);
    lemma_char_width(s);
    let r = with_run(o, s, style);
    if s.len() > 0 {
        assert forall|k: int| #![trigger r.runs[k]] 0 <= k < r.runs.len() implies r.runs[k].0
            < r.runs[k].1 && 0 <= r.runs[k].0 && r.runs[k].1 <= blen(r.text) by {
            if k < o.runs.len() {
                assert(r.runs[k] == o.runs[k]);
            }
        }
        assert forall|j: int, k: int|
            #![trigger r.runs[j], r.runs[k]]
            0 <= j < k < r.runs.len() implies r.runs[j].1 <= r.runs[k].0 by {
            assert(r.runs[j] == o.runs[j]);
            if k < o.runs.len() {
                assert(r.runs[k] == o.runs[k]);
            }
        }
    }
}

proof fn lemma_tidy_mark(o: Shown, src: int)
    requires
        is_tidy(o),
    ensures
        is_tidy(with_mark(o, src)),
{
    let r = with_mark(o, src);
    assert forall|j: int, k: int|
        #![trigger r.map[j], r.map[k]]
        0 <= j <= k < r.map.len() implies r.map[j].0 <= r.map[k].0 by {
        if j < o.map.len() {
            assert(r.map[j] == o.map[j]);
        }
        if k < o.map.len() {
            assert(r.map[k] == o.map[k]);
        }
    }
}

proof fn lemma_tidy_link(o: Shown, before: nat, target: LinkTarget<Seq<char>>)
    requires
        is_tidy(o),
        before <= blen(o.text),
    ensures
        is_tidy(with_link(o, before, target)),
{
}

proof fn lemma_tidy_gap(o: Shown, source: Seq<char>, image: bool, n: nat)
    requires
        is_tidy(o),
    ensures
        is_tidy(with_gap(o, source, image, n)),
        blen(o.text) <= blen(with_gap(o, source, image, n).text),
{
    lemma_blen_concat(o.text, crate::numbering::repeated(crate::inline::nbsp(), n));
}

proof fn lemma_tidy_text(
    o: Shown,
    v: Seq<char>,
    base: int,
    i: int,
    plain: int,
    style: Style,
    host: Known,
)
    requires
        is_tidy(o),
    ensures
        is_tidy(with_text_from(o, v, base, i, plain, style, host)),
        blen(o.text) <= blen(with_text_from(o, v, base, i, plain, style, host).text),
    decreases v.len() - i,
{
    if i < 0 || i >= v.len() {
        let m = with_mark(o, moved(base, offset(v, plain) as int));
        lemma_tidy_mark(o, moved(base, offset(v, plain) as int));
        lemma_tidy_run(m, v.subrange(plain, v.len() as int), style);
    } else {
        lemma_piece(v, i, host);
        match piece_at(v, i, host) {
            Some(p) => {
                let m = with_mark(o, moved(base, offset(v, plain) as int));
                lemma_tidy_mark(o, moved(base, offset(v, plain) as int));
                lemma_tidy_run(m, v.subrange(plain, i), style);
                let a = with_plain(o, v, base, plain, i, style);
                let b = match p.link {
                    Some((shown, target, ink)) => with_page_link(
                        with_mark(a, moved(base, offset(v, p.mark) as int)),
                        shown,
                        target,
                        ink,
                        style,
                    ),
                    None => a,
                };
                if let Some((shown, target, ink)) = p.link {
                    let m2 = with_mark(a, moved(base, offset(v, p.mark) as int));
                    lemma_tidy_mark(a, moved(base, offset(v, p.mark) as int));
                    lemma_tidy_run(m2, shown, in_ink(style, ink));
                    lemma_tidy_link(
                        with_run(m2, shown, in_ink(style, ink)),
                        blen(m2.text),
                        LinkTarget::Wiki(target),
                    );
                }
                lemma_tidy_text(b, v, base, p.next, p.next, style, host);
            },
            None => {
                lemma_tidy_text(o, v, base, i + 1, plain, style, host);
            },
        }
    }
}

proof fn lemma_tidy_node(o: Shown, n: Tree, style: Style, e: Setting)
    requires
        is_tidy(o),
    ensures
        is_tidy(with_node(o, n, style, e)),
        blen(o.text) <= blen(with_node(o, n, style, e).text),
    decreases n, 0int,
{
    let start = blen(o.text);
    match n.kind {
        Kind::Text(s) => {
            lemma_tidy_text(o, s, source_of(n.at), 0, 0, style, e.host);
        },
        Kind::Strong => {
            lemma_tidy_nodes(o, n.children, 0, Style { bold: true, ..style }, e);
        },
        Kind::Emphasis => {
            lemma_tidy_nodes(o, n.children, 0, Style { italic: true, ..style }, e);
        },
        Kind::Delete => {
            lemma_tidy_nodes(o, n.children, 0, Style { strike: true, ..style }, e);
        },
        Kind::InlineCode(s) => {
            let m = with_mark(o, moved(source_of(n.at), 1));
            lemma_tidy_mark(o, moved(source_of(n.at), 1));
            lemma_tidy_run(
                m,
                s,
                Style { color: Some(Ink::Code), background: Some(Ink::CodeBackground), ..style },
            );
        },
        Kind::InlineMath(s) => {
            let m = with_mark(o, source_of(n.at));
            lemma_tidy_mark(o, source_of(n.at));
            match spacer_from(e.host.spacers, s, false, 0) {
                Some(w) => lemma_tidy_gap(m, s, false, w),
                None => lemma_tidy_run(m, seq!['$'] + s + seq!['$'], style),
            }
        },
        Kind::Link(url) => {
            lemma_tidy_nodes(o, n.children, 0, in_ink(style, Ink::Link), e);
            lemma_tidy_link(
                with_nodes(o, n.children, 0, in_ink(style, Ink::Link), e),
                start,
                LinkTarget::Url(url),
            );
        },
        Kind::Break => {
            lemma_tidy_run(o, seq!['\n'], style);
        },
        Kind::Image { url, alt } => {
            let m = with_mark(o, source_of(n.at));
            lemma_tidy_mark(o, source_of(n.at));
            match spacer_from(e.host.spacers, url, true, 0) {
                Some(w) => lemma_tidy_gap(m, url, true, w),
                None => {
                    let label = crate::inline::image_label(alt);
                    lemma_tidy_run(m, label, in_ink(style, Ink::Link));
                    lemma_tidy_link(
                        with_run(m, label, in_ink(style, Ink::Link)),
                        start,
                        LinkTarget::Url(url),
                    );
                },
            }
        },
        Kind::FootnoteReference { label, id } => {
            lemma_tidy_run(
                o,
                seq!['['] + crate::inline::label_or_id(label, id) + seq![']'],
                in_ink(style, Ink::Link),
            );
        },
        Kind::LinkReference(id) => match url_from(e.defs, id, 0) {
            Some(url) => {
                lemma_tidy_nodes(o, n.children, 0, in_ink(style, Ink::Link), e);
                lemma_tidy_link(
                    with_nodes(o, n.children, 0, in_ink(style, Ink::Link), e),
                    start,
                    LinkTarget::Url(url),
                );
            },
            None => {
                lemma_tidy_nodes(o, n.children, 0, style, e);
            },
        },
        Kind::ImageReference { id, alt } => {
            let label = crate::inline::image_label(alt);
            lemma_tidy_run(o, label, in_ink(style, Ink::Link));
            if let Some(url) = url_from(e.defs, id, 0) {
                lemma_tidy_link(
                    with_run(o, label, in_ink(style, Ink::Link)),
                    start,
                    LinkTarget::Url(url),
                );
            }
        },
        Kind::Html(s) => {
            lemma_tidy_run(o, s, style);
        },
        Kind::Paragraph => {
            lemma_tidy_nodes(o, n.children, 0, style, e);
        },
        _ => {},
    }
}

proof fn lemma_tidy_nodes(o: Shown, nodes: Seq<Tree>, i: int, style: Style, e: Setting)
    requires
        is_tidy(o),
    ensures
        is_tidy(with_nodes(o, nodes, i, style, e)),
        blen(o.text) <= blen(with_nodes(o, nodes, i, style, e).text),
    decreases nodes, nodes.len() - i,
{
    if 0 <= i < nodes.len() {
        lemma_tidy_node(o, nodes[i], style, e);
        lemma_tidy_nodes(
            with_node(o, nodes[i], style, e),
            nodes,
            i + 1,
            style_after(nodes[i], style),
            e,
        );
    }
}

/// All inline content is tidy, whatever its nodes.
pub proof fn law_inline_is_tidy(nodes: Seq<Tree>, style: Style, e: Setting)
    ensures
        is_tidy(with_nodes(nothing(), nodes, 0, style, e)),
{
    lemma_tidy_nodes(nothing(), nodes, 0, style, e);
}

// --- The text alone ---

proof fn lemma_text_text(
    a: Shown,
    b: Shown,
    v: Seq<char>,
    base: int,
    i: int,
    plain: int,
    x: Style,
    y: Style,
    host: Known,
)
    requires
        a.text == b.text,
    ensures
        with_text_from(a, v, base, i, plain, x, host).text == with_text_from(
            b,
            v,
            base,
            i,
            plain,
            y,
            host,
        ).text,
    decreases v.len() - i,
{
    if 0 <= i < v.len() {
        lemma_piece(v, i, host);
        match piece_at(v, i, host) {
            Some(p) => {
                let a1 = with_plain(a, v, base, plain, i, x);
                let b1 = with_plain(b, v, base, plain, i, y);
                let a2 = match p.link {
                    Some((shown, target, ink)) => with_page_link(
                        with_mark(a1, moved(base, offset(v, p.mark) as int)),
                        shown,
                        target,
                        ink,
                        x,
                    ),
                    None => a1,
                };
                let b2 = match p.link {
                    Some((shown, target, ink)) => with_page_link(
                        with_mark(b1, moved(base, offset(v, p.mark) as int)),
                        shown,
                        target,
                        ink,
                        y,
                    ),
                    None => b1,
                };
                lemma_text_text(a2, b2, v, base, p.next, p.next, x, y, host);
            },
            None => {
                lemma_text_text(a, b, v, base, i + 1, plain, x, y, host);
            },
        }
    }
}

proof fn lemma_text_node(a: Shown, b: Shown, n: Tree, x: Style, y: Style, e: Setting, f: Setting)
    requires
        a.text == b.text,
        e.host == f.host,
    ensures
        with_node(a, n, x, e).text == with_node(b, n, y, f).text,
    decreases n, 0int,
{
    match n.kind {
        Kind::Text(s) => {
            lemma_text_text(a, b, s, source_of(n.at), 0, 0, x, y, e.host);
        },
        Kind::Strong => {
            let u = Style { bold: true, ..x };
            let v = Style { bold: true, ..y };
            law_text_ignores_style(a, b, n.children, 0, u, v, e, f);
        },
        Kind::Emphasis => {
            let u = Style { italic: true, ..x };
            let v = Style { italic: true, ..y };
            law_text_ignores_style(a, b, n.children, 0, u, v, e, f);
        },
        Kind::Delete => {
            let u = Style { strike: true, ..x };
            let v = Style { strike: true, ..y };
            law_text_ignores_style(a, b, n.children, 0, u, v, e, f);
        },
        Kind::Link(_) => {
            let u = in_ink(x, Ink::Link);
            let v = in_ink(y, Ink::Link);
            law_text_ignores_style(a, b, n.children, 0, u, v, e, f);
        },
        Kind::LinkReference(_) => {
            let u = in_ink(x, Ink::Link);
            let v = in_ink(y, Ink::Link);
            law_text_ignores_style(a, b, n.children, 0, u, v, e, f);
            law_text_ignores_style(a, b, n.children, 0, u, y, e, f);
            law_text_ignores_style(a, b, n.children, 0, x, v, e, f);
            law_text_ignores_style(a, b, n.children, 0, x, y, e, f);
        },
        Kind::Html(s) => {
            assert(tag_style(x, s) is Some == tag_style(y, s) is Some);
        },
        Kind::Paragraph => {
            law_text_ignores_style(a, b, n.children, 0, x, y, e, f);
        },
        _ => {},
    }
}

/// The visible text of inline nodes depends on the nodes and on what the host
/// knows alone: neither on the style nor on the reference definitions.
pub proof fn law_text_ignores_style(
    a: Shown,
    b: Shown,
    nodes: Seq<Tree>,
    i: int,
    x: Style,
    y: Style,
    e: Setting,
    f: Setting,
)
    requires
        a.text == b.text,
        e.host == f.host,
    ensures
        with_nodes(a, nodes, i, x, e).text == with_nodes(b, nodes, i, y, f).text,
    decreases nodes, nodes.len() - i,
{
    if 0 <= i < nodes.len() {
        lemma_text_node(a, b, nodes[i], x, y, e, f);
        law_text_ignores_style(
            with_node(a, nodes[i], x, e),
            with_node(b, nodes[i], y, f),
            nodes,
            i + 1,
            style_after(nodes[i], x),
            style_after(nodes[i], y),
            e,
            f,
        );
    }
}

} // verus!
