//! What holds of the content of a painted page: what the document holds is
//! shown, in its order, and nothing else is.
use crate::alerts::AlertKind;
use crate::blocks::{
    block_shows, column_align, embed_at, folds_below, formula_side, is_folded, item_marker,
    level_below, paint_block, paint_blocks, paint_cells, paint_item, paint_items, paint_list,
    paint_paragraph, paint_parts, paint_prose, paint_root, paint_some, paint_table,
    paint_table_rows, painted, table_marker, Grid,
};
use crate::doc::{callout_of, defs_with_all, display_from, law_callout_does_not_grow};
use crate::inline::{nothing, plain_style, with_nodes, Setting};
use crate::ops::{blank, put, Mark, Marker, Paint};
use crate::page::{paint_inline, paint_pieces, paint_rows, top, ViewState, Scope, MAX_EMBEDS};
use crate::rows::Piece;
use crate::shown::law_text_ignores_style;
use crate::tables::TableStyle;
use crate::text::{begins, lemma_space_start, trim, trim_start};
use crate::tree::{lemma_weight_one, weight, weight_from, Align, Kind, Tree};
use vstd::prelude::*;

verus! {

/// A piece of the content of a page.
pub enum Leaf {
    /// A code block with its text.
    Code(Option<Seq<char>>, Seq<char>),
    /// A diagram with its source.
    Diagram(Seq<char>),
    Rule,
    Html(Seq<char>),
    Plain(Seq<char>),
    Heading(u8),
    Bullet,
    Numbered,
    /// A task, done or not.
    Task(bool),
    Callout(AlertKind),
    Quote,
    Footnote(Seq<char>),
    Table,
    Row,
    /// A cell, in the header or not, with its alignment.
    Cell(bool, Align),
}

// --- What is painted ---

/// What a step shows.
pub open spec fn leaf_of(m: Mark) -> Option<Leaf> {
    match m {
        Mark::Code { lang, value } => Some(Leaf::Code(lang, value)),
        Mark::Mermaid(value) => Some(Leaf::Diagram(value)),
        Mark::Rule => Some(Leaf::Rule),
        Mark::Html(text) => Some(Leaf::Html(text)),
        Mark::Plain(text) => Some(Leaf::Plain(text)),
        Mark::OpenHeading { depth, .. } => Some(Leaf::Heading(depth)),
        Mark::OpenItem { marker, .. } => Some(
            match marker {
                Marker::Bullet => Leaf::Bullet,
                Marker::Number(_) => Leaf::Numbered,
                Marker::Task { done, .. } => Leaf::Task(done),
            },
        ),
        Mark::OpenCallout { kind, .. } => Some(Leaf::Callout(kind)),
        Mark::OpenQuote { .. } => Some(Leaf::Quote),
        Mark::OpenFootnote(label) => Some(Leaf::Footnote(label)),
        Mark::OpenTable { .. } => Some(Leaf::Table),
        Mark::OpenRow { .. } => Some(Leaf::Row),
        Mark::OpenCell { header, align, .. } => Some(Leaf::Cell(header, align)),
        _ => None,
    }
}

/// What steps show, in their order.
pub open spec fn leaves(ops: Seq<Mark>) -> Seq<Leaf>
    decreases ops.len(),
{
    if ops.len() == 0 {
        seq![]
    } else {
        match leaf_of(ops.last()) {
            Some(x) => leaves(ops.drop_last()).push(x),
            None => leaves(ops.drop_last()),
        }
    }
}

// --- What a document holds ---

/// What a node holds, in the order of the document.
pub open spec fn contents(n: Tree, mermaid: bool) -> Seq<Leaf>
    decreases n, 1int, 0int,
{
    match n.kind {
        Kind::Heading(depth) => seq![Leaf::Heading(depth)],
        Kind::Code { lang, value } => if mermaid && lang == Some("mermaid"@) {
            seq![Leaf::Diagram(value)]
        } else if lang == Some(Seq::<char>::empty()) {
            seq![Leaf::Code(None, value)]
        } else {
            seq![Leaf::Code(lang, value)]
        },
        Kind::ThematicBreak => seq![Leaf::Rule],
        Kind::Html(text) => if begins(trim_start(text), "<!--"@) {
            seq![]
        } else {
            seq![Leaf::Html(text)]
        },
        Kind::Text(text) => seq![Leaf::Plain(text)],
        Kind::List(ordered) => items_from(n.children, 0, ordered, mermaid),
        Kind::Blockquote => match callout_of(n.children) {
            Some(c) => seq![Leaf::Callout(c.kind)] + if c.fold == Some(true) {
                seq![]
            } else {
                contents_from(n.children, 0, mermaid)
            },
            None => seq![Leaf::Quote] + contents_from(n.children, 0, mermaid),
        },
        Kind::FootnoteDefinition { label, id } => seq![
            Leaf::Footnote(
                match label {
                    Some(l) => l,
                    None => id,
                },
            ),
        ] + contents_from(n.children, 0, mermaid),
        Kind::Table => seq![Leaf::Table] + rows_from(n.children, 0, n.align),
        _ => seq![],
    }
}

/// What the nodes from `i` on hold.
pub open spec fn contents_from(nodes: Seq<Tree>, i: int, mermaid: bool) -> Seq<Leaf>
    decreases nodes, 1int, nodes.len() - i,
{
    if i < 0 || i >= nodes.len() {
        seq![]
    } else {
        contents(nodes[i], mermaid) + contents_from(nodes, i + 1, mermaid)
    }
}

/// What the list items from `i` on hold.
pub open spec fn items_from(nodes: Seq<Tree>, i: int, ordered: bool, mermaid: bool) -> Seq<Leaf>
    decreases nodes, 1int, nodes.len() - i,
{
    if i < 0 || i >= nodes.len() {
        seq![]
    } else {
        (match nodes[i].kind {
            Kind::ListItem(checked) => seq![
                match checked {
                    Some(done) => Leaf::Task(done),
                    None => if ordered {
                        Leaf::Numbered
                    } else {
                        Leaf::Bullet
                    },
                },
            ] + contents_from(nodes[i].children, 0, mermaid),
            _ => seq![],
        }) + items_from(nodes, i + 1, ordered, mermaid)
    }
}

/// What the rows of a table from `i` on hold: the first is the header.
pub open spec fn rows_from(rows: Seq<Tree>, i: int, align: Seq<Align>) -> Seq<Leaf>
    decreases rows.len() - i,
{
    if i < 0 || i >= rows.len() {
        seq![]
    } else if rows[i].kind is TableRow {
        seq![Leaf::Row] + cells_from(rows[i].children, 0, i == 0, align) + rows_from(
            rows,
            i + 1,
            align,
        )
    } else {
        rows_from(rows, i + 1, align)
    }
}

/// What the cells of a row from `i` on hold.
pub open spec fn cells_from(cells: Seq<Tree>, i: int, header: bool, align: Seq<Align>) -> Seq<Leaf>
    decreases cells.len() - i,
{
    if i < 0 || i >= cells.len() {
        seq![]
    } else if cells[i].kind is TableCell {
        seq![
            Leaf::Cell(
                header,
                if i < align.len() {
                    align[i]
                } else {
                    Align::Unset
                },
            ),
        ] + cells_from(cells, i + 1, header, align)
    } else {
        cells_from(cells, i + 1, header, align)
    }
}

// --- The walk ---

/// Whether nothing of a page is folded away or brought in from elsewhere.
pub open spec fn is_whole(page: ViewState) -> bool {
    page.folded.len() == 0 && page.embeds.len() == 0
}

/// Whether `b` shows what `a` does and `more` behind it.
spec fn adds(a: Paint, b: Paint, more: Seq<Leaf>) -> bool {
    leaves(b.ops) == leaves(a.ops) + more
}

proof fn lemma_put(a: Paint, m: Mark)
    ensures
        leaf_of(m) matches Some(x) ==> adds(a, put(a, m), seq![x]),
        leaf_of(m) is None ==> adds(a, put(a, m), seq![]),
{
    assert(a.ops.push(m).drop_last() =~= a.ops);
    match leaf_of(m) {
        Some(x) => {
            assert(leaves(a.ops).push(x) =~= leaves(a.ops) + seq![x]);
        },
        None => {
            assert(leaves(a.ops) =~= leaves(a.ops) + Seq::<Leaf>::empty());
        },
    }
}

proof fn lemma_then(a: Paint, b: Paint, c: Paint, x: Seq<Leaf>, y: Seq<Leaf>)
    requires
        adds(a, b, x),
        adds(b, c, y),
    ensures
        adds(a, c, x + y),
{
    assert((leaves(a.ops) + x) + y =~= leaves(a.ops) + (x + y));
}

proof fn lemma_still(a: Paint, b: Paint)
    requires
        a.ops == b.ops,
    ensures
        adds(a, b, seq![]),
{
    assert(leaves(a.ops) + Seq::<Leaf>::empty() =~= leaves(a.ops));
}

/// What a container round `inner` adds.
proof fn lemma_wrapped(a: Paint, m: Mark, inner: Paint, more: Seq<Leaf>)
    requires
        adds(put(a, m), inner, more),
    ensures
        leaf_of(m) matches Some(x) ==> adds(a, put(inner, Mark::Close), seq![x] + more),
        leaf_of(m) is None ==> adds(a, put(inner, Mark::Close), more),
{
    lemma_put(a, m);
    lemma_put(inner, Mark::Close);
    let first = match leaf_of(m) {
        Some(x) => seq![x],
        None => Seq::<Leaf>::empty(),
    };
    lemma_then(a, put(a, m), inner, first, more);
    lemma_then(a, inner, put(inner, Mark::Close), first + more, seq![]);
    assert(first + more + Seq::<Leaf>::empty() =~= first + more);
    assert(Seq::<Leaf>::empty() + more =~= more);
}

proof fn lemma_inline(st: Paint, nodes: Seq<Tree>, sc: Scope, page: ViewState)
    ensures
        adds(st, paint_inline(st, nodes, sc, page), seq![]),
{
    let r = paint_inline(st, nodes, sc, page);
    let m = r.ops.last();
    let mid = Paint { seen: r.seen, ..st };
    assert(r.ops == mid.ops.push(m));
    lemma_put(mid, m);
}

proof fn lemma_some(st: Paint, nodes: Seq<Tree>, sc: Scope, page: ViewState)
    ensures
        adds(st, paint_some(st, nodes, sc, page), seq![]),
{
    lemma_still(st, st);
    lemma_inline(st, nodes, sc, page);
}

proof fn lemma_nothing_twice(a: Paint, b: Paint, c: Paint)
    requires
        adds(a, b, seq![]),
        adds(b, c, seq![]),
    ensures
        adds(a, c, seq![]),
{
    lemma_then(a, b, c, seq![], seq![]);
    assert(Seq::<Leaf>::empty() + Seq::<Leaf>::empty() =~= Seq::<Leaf>::empty());
}

proof fn lemma_pieces(st: Paint, pieces: Seq<Piece>, i: int, sc: Scope, page: ViewState)
    ensures
        adds(st, paint_pieces(st, pieces, i, sc, page), seq![]),
    decreases pieces.len() - i,
{
    lemma_still(st, st);
    if 0 <= i < pieces.len() {
        let next = match pieces[i] {
            Piece::Prose(nodes) => paint_inline(st, nodes, sc, page),
            Piece::Props(rows) => paint_rows(st, rows),
        };
        match pieces[i] {
            Piece::Prose(nodes) => lemma_inline(st, nodes, sc, page),
            Piece::Props(rows) => lemma_put(
                st,
                Mark::Properties { rows, rtl: crate::page::panel_rtl(rows) },
            ),
        }
        lemma_pieces(next, pieces, i + 1, sc, page);
        lemma_nothing_twice(st, next, paint_pieces(next, pieces, i + 1, sc, page));
    }
}

proof fn lemma_prose(st: Paint, n: Tree, sc: Scope, page: ViewState, s: Seq<char>)
    ensures
        adds(st, paint_prose(st, n, sc, page, s), seq![]),
{
    let nodes = n.children;
    let open = put(st, Mark::OpenColumn);
    if page.math && display_from(nodes, s, 0, None) is Some {
        let ix = display_from(nodes, s, 0, None)->0;
        let formula = Mark::Formula {
            latex: nodes[ix].kind->InlineMath_0,
            side: formula_side(s, Some(nodes[ix].at->0.start)),
        };
        if nodes.len() == 1 {
            lemma_put(st, formula);
        } else {
            let a = paint_some(open, nodes.take(ix), sc, page);
            let b = put(a, formula);
            let c = paint_some(b, nodes.skip(ix + 1), sc, page);
            lemma_some(open, nodes.take(ix), sc, page);
            lemma_put(a, formula);
            lemma_some(b, nodes.skip(ix + 1), sc, page);
            lemma_nothing_twice(open, a, b);
            lemma_nothing_twice(open, b, c);
            lemma_wrapped(st, Mark::OpenColumn, c, seq![]);
        }
    } else if crate::rows::all_rows(s, n.at) is Some {
        let rows = crate::rows::all_rows(s, n.at)->0;
        lemma_put(st, Mark::Properties { rows, rtl: crate::page::panel_rtl(rows) });
    } else if crate::rows::mixed_of(s, n.at, nodes) is Some {
        let pieces = crate::rows::mixed_of(s, n.at, nodes)->0;
        lemma_pieces(open, pieces, 0, sc, page);
        lemma_wrapped(st, Mark::OpenColumn, paint_pieces(open, pieces, 0, sc, page), seq![]);
    } else if crate::blocks::shows_images(page, sc) && crate::images::lead_image(nodes) is Some {
        let pic = crate::images::lead_image(nodes)->0;
        let sized = crate::blocks::is_sized(pic, page);
        let image = Mark::Image { info: pic, sized };
        let rest = crate::images::below_image(nodes, sized);
        if rest.len() == 0 {
            lemma_put(st, image);
        } else {
            let a = put(open, image);
            lemma_put(open, image);
            lemma_inline(a, rest, sc, page);
            lemma_nothing_twice(open, a, paint_inline(a, rest, sc, page));
            lemma_wrapped(st, Mark::OpenColumn, paint_inline(a, rest, sc, page), seq![]);
        }
    } else {
        lemma_inline(st, nodes, sc, page);
    }
}

proof fn lemma_paragraph(st: Paint, n: Tree, sc: Scope, page: ViewState, s: Seq<char>)
    requires
        is_whole(page),
    ensures
        adds(st, paint_paragraph(st, n, sc, page, s), seq![]),
{
    assert(embed_at(n.children, sc, page) is None);
    lemma_prose(st, n, sc, page, s);
}

proof fn lemma_cells(st: Paint, cells: Seq<Tree>, i: int, g: Grid, sc: Scope, page: ViewState)
    requires
        0 <= i,
    ensures
        adds(st, paint_cells(st, cells, i, g, sc, page), cells_from(cells, i, g.header, g.align)),
    decreases cells.len() - i,
{
    lemma_still(st, st);
    if i < cells.len() {
        if cells[i].kind is TableCell {
            let open = Mark::OpenCell {
                align: column_align(g.align, i),
                divider: crate::blocks::cell_divider(g.style, g.rtl, i, cells.len() as int),
                header: g.header,
            };
            let body = paint_inline(put(st, open), cells[i].children, sc, page);
            let next = put(body, Mark::Close);
            lemma_inline(put(st, open), cells[i].children, sc, page);
            lemma_wrapped(st, open, body, seq![]);
            let own = seq![Leaf::Cell(g.header, column_align(g.align, i))];
            assert(own + Seq::<Leaf>::empty() =~= own);
            lemma_cells(next, cells, i + 1, g, sc, page);
            lemma_then(
                st,
                next,
                paint_cells(next, cells, i + 1, g, sc, page),
                own,
                cells_from(cells, i + 1, g.header, g.align),
            );
        } else {
            lemma_cells(st, cells, i + 1, g, sc, page);
        }
    }
}

proof fn lemma_table_rows(st: Paint, rows: Seq<Tree>, i: int, g: Grid, sc: Scope, page: ViewState)
    requires
        0 <= i,
    ensures
        adds(st, paint_table_rows(st, rows, i, g, sc, page), rows_from(rows, i, g.align)),
    decreases rows.len() - i,
{
    lemma_still(st, st);
    if i < rows.len() {
        if rows[i].kind is TableRow {
            let open = Mark::OpenRow {
                divider: crate::blocks::row_divider(g.style, i),
                shaded: crate::blocks::row_shaded(g.style, i),
            };
            let h = Grid { header: i == 0, ..g };
            let body = paint_cells(put(st, open), rows[i].children, 0, h, sc, page);
            let next = put(body, Mark::Close);
            let inner = cells_from(rows[i].children, 0, i == 0, g.align);
            lemma_cells(put(st, open), rows[i].children, 0, h, sc, page);
            lemma_wrapped(st, open, body, inner);
            lemma_table_rows(next, rows, i + 1, g, sc, page);
            lemma_then(
                st,
                next,
                paint_table_rows(next, rows, i + 1, g, sc, page),
                seq![Leaf::Row] + inner,
                rows_from(rows, i + 1, g.align),
            );
        } else {
            lemma_table_rows(st, rows, i + 1, g, sc, page);
        }
    }
}

proof fn lemma_table(
    st: Paint,
    n: Tree,
    style: TableStyle,
    widths: Option<Seq<Seq<char>>>,
    sc: Scope,
    page: ViewState,
    s: Seq<char>,
)
    ensures
        adds(
            st,
            paint_table(st, n, style, widths, sc, page, s),
            seq![Leaf::Table] + rows_from(n.children, 0, n.align),
        ),
{
    let rtl = crate::page::reads_rtl(s, n.at);
    let open = Mark::OpenTable {
        style,
        widths,
        columns: crate::blocks::columns_upto(n.children, n.children.len() as int),
        rtl,
    };
    let g = Grid { style, rtl, align: n.align, header: false };
    lemma_table_rows(put(st, open), n.children, 0, g, sc, page);
    lemma_wrapped(
        st,
        open,
        paint_table_rows(put(st, open), n.children, 0, g, sc, page),
        rows_from(n.children, 0, n.align),
    );
}

proof fn lemma_contents_skip(a: Seq<Tree>, b: Seq<Tree>, i: int, j: int, mermaid: bool)
    requires
        0 <= i <= a.len(),
        0 <= j <= b.len(),
        a.skip(i) == b.skip(j),
    ensures
        contents_from(a, i, mermaid) == contents_from(b, j, mermaid),
    decreases a.len() - i,
{
    assert(a.skip(i).len() == a.len() - i && b.skip(j).len() == b.len() - j);
    if i < a.len() {
        assert(a.skip(i)[0] == a[i] && b.skip(j)[0] == b[j]);
        assert(a.skip(i + 1) =~= a.skip(i).skip(1));
        assert(b.skip(j + 1) =~= b.skip(j).skip(1));
        lemma_contents_skip(a, b, i + 1, j + 1, mermaid);
    }
}

/// A callout holds what the blockquote does: its marker stands in a paragraph.
proof fn lemma_callout_contents(nodes: Seq<Tree>, mermaid: bool)
    requires
        callout_of(nodes) is Some,
    ensures
        contents_from(callout_of(nodes)->0.children, 0, mermaid) == contents_from(nodes, 0, mermaid),
{
    let c = callout_of(nodes)->0;
    let none = Seq::<Leaf>::empty();
    assert(nodes[0].kind is Paragraph);
    assert(contents(nodes[0], mermaid) =~= none);
    assert(none + contents_from(nodes, 1, mermaid) =~= contents_from(nodes, 1, mermaid));
    if c.children == nodes.skip(1) {
        assert(c.children.skip(0) =~= nodes.skip(1));
        lemma_contents_skip(c.children, nodes, 0, 1, mermaid);
    } else {
        assert(c.children.len() > 0 && c.children[0].kind is Paragraph);
        assert(c.children.skip(1) =~= nodes.skip(1));
        lemma_contents_skip(c.children, nodes, 1, 1, mermaid);
        assert(contents(c.children[0], mermaid) =~= none);
        assert(none + contents_from(c.children, 1, mermaid) =~= contents_from(
            c.children,
            1,
            mermaid,
        ));
    }
}

/// A block shows what it holds.
pub proof fn law_block_shows_its_content(
    st: Paint,
    n: Tree,
    sc: Scope,
    page: ViewState,
    s: Seq<char>,
)
    requires
        is_whole(page),
    ensures
        leaves(paint_block(st, n, sc, page, s).ops) == leaves(st.ops) + contents(n, page.mermaid),
    decreases MAX_EMBEDS - sc.depth, weight(n), 1int,
{
    let r = paint_block(st, n, sc, page, s);
    let m = page.mermaid;
    lemma_still(st, st);
    match n.kind {
        Kind::Paragraph => {
            lemma_paragraph(st, n, sc, page, s);
        },
        Kind::Heading(depth) => {
            let open = Mark::OpenHeading {
                depth,
                tight: sc.tight,
                rtl: crate::page::reads_rtl(s, n.at),
                fold: crate::blocks::chevron(n.at, sc, page, s),
            };
            lemma_inline(put(st, open), n.children, sc, page);
            lemma_wrapped(st, open, paint_inline(put(st, open), n.children, sc, page), seq![]);
            assert(seq![Leaf::Heading(depth)] + Seq::<Leaf>::empty() =~= seq![Leaf::Heading(depth)]);
        },
        Kind::List(ordered) => {
            lemma_list(st, n, ordered, 0, sc, page, s);
        },
        Kind::Blockquote => match callout_of(n.children) {
            Some(c) => {
                let open = Mark::OpenCallout {
                    kind: c.kind,
                    folded: c.fold,
                    at: c.marker,
                    live: page.alert_toggle && sc.depth == 0,
                    rtl: crate::page::reads_rtl(s, n.at),
                };
                let o = put(st, open);
                law_callout_does_not_grow(n.children);
                lemma_callout_contents(n.children, m);
                lemma_still(o, o);
                if c.fold == Some(true) {
                    lemma_wrapped(st, open, o, seq![]);
                } else {
                    lemma_blocks(o, c.children, 0, sc, page, s);
                    lemma_wrapped(
                        st,
                        open,
                        paint_blocks(o, c.children, 0, sc, page, s),
                        contents_from(c.children, 0, m),
                    );
                }
            },
            None => {
                let open = Mark::OpenQuote { rtl: crate::page::reads_rtl(s, n.at) };
                let o = put(st, open);
                lemma_blocks(o, n.children, 0, sc, page, s);
                lemma_wrapped(
                    st,
                    open,
                    paint_blocks(o, n.children, 0, sc, page, s),
                    contents_from(n.children, 0, m),
                );
            },
        },
        Kind::Table => {
            lemma_table(st, n, TableStyle::Grid, None, sc, page, s);
        },
        Kind::FootnoteDefinition { label, id } => {
            let name = match label {
                Some(l) => l,
                None => id,
            };
            let open = Mark::OpenFootnote(name);
            let o = put(st, open);
            lemma_blocks(o, n.children, 0, sc, page, s);
            lemma_wrapped(
                st,
                open,
                paint_blocks(o, n.children, 0, sc, page, s),
                contents_from(n.children, 0, m),
            );
        },
        Kind::Code { lang, value } => {
            lemma_put(st, r.ops.last());
            if let Some(l) = lang {
                if l.len() == 0 {
                    assert(l =~= Seq::<char>::empty());
                }
            }
        },
        _ => {
            if block_shows(n.kind) {
                lemma_put(st, r.ops.last());
                assert(r == put(st, r.ops.last()));
            }
        },
    }
}

proof fn lemma_blocks(
    st: Paint,
    nodes: Seq<Tree>,
    i: int,
    sc: Scope,
    page: ViewState,
    s: Seq<char>,
)
    requires
        is_whole(page),
        0 <= i,
    ensures
        adds(
            st,
            paint_blocks(st, nodes, i, sc, page, s),
            contents_from(nodes, i, page.mermaid),
        ),
    decreases MAX_EMBEDS - sc.depth, weight_from(nodes, i), 2int,
{
    lemma_still(st, st);
    if i < nodes.len() {
        lemma_weight_one(nodes, i);
        let next = paint_block(st, nodes[i], sc, page, s);
        law_block_shows_its_content(st, nodes[i], sc, page, s);
        lemma_blocks(next, nodes, i + 1, sc, page, s);
        lemma_then(
            st,
            next,
            paint_blocks(next, nodes, i + 1, sc, page, s),
            contents(nodes[i], page.mermaid),
            contents_from(nodes, i + 1, page.mermaid),
        );
    }
}

proof fn lemma_list(
    st: Paint,
    n: Tree,
    ordered: bool,
    level: int,
    sc: Scope,
    page: ViewState,
    s: Seq<char>,
)
    requires
        is_whole(page),
    ensures
        adds(
            st,
            paint_list(st, n, ordered, level, sc, page, s),
            items_from(n.children, 0, ordered, page.mermaid),
        ),
    decreases MAX_EMBEDS - sc.depth, weight(n), 0int,
{
    let m = Mark::OpenList { nested: level > 0 };
    let o = put(st, m);
    lemma_items(o, n.children, 0, ordered, level, sc, page, s);
    lemma_wrapped(
        st,
        m,
        paint_items(o, n.children, 0, ordered, level, sc, page, s),
        items_from(n.children, 0, ordered, page.mermaid),
    );
}

proof fn lemma_items(
    st: Paint,
    nodes: Seq<Tree>,
    i: int,
    ordered: bool,
    level: int,
    sc: Scope,
    page: ViewState,
    s: Seq<char>,
)
    requires
        is_whole(page),
        0 <= i,
    ensures
        adds(
            st,
            paint_items(st, nodes, i, ordered, level, sc, page, s),
            items_from(nodes, i, ordered, page.mermaid),
        ),
    decreases MAX_EMBEDS - sc.depth, weight_from(nodes, i), 2int,
{
    let none = Seq::<Leaf>::empty();
    lemma_still(st, st);
    if i < nodes.len() {
        lemma_weight_one(nodes, i);
        let rest = items_from(nodes, i + 1, ordered, page.mermaid);
        match nodes[i].kind {
            Kind::ListItem(checked) => {
                let marker = item_marker(nodes[i], checked, ordered, i, level, sc, page);
                let next = paint_item(st, nodes[i], checked, marker, level, sc, page, s);
                let own = seq![
                    match checked {
                        Some(done) => Leaf::Task(done),
                        None => if ordered {
                            Leaf::Numbered
                        } else {
                            Leaf::Bullet
                        },
                    },
                ] + contents_from(nodes[i].children, 0, page.mermaid);
                lemma_item(st, nodes[i], checked, marker, level, sc, page, s);
                lemma_items(next, nodes, i + 1, ordered, level, sc, page, s);
                lemma_then(
                    st,
                    next,
                    paint_items(next, nodes, i + 1, ordered, level, sc, page, s),
                    own,
                    rest,
                );
            },
            _ => {
                lemma_items(st, nodes, i + 1, ordered, level, sc, page, s);
                assert(none + rest =~= rest);
            },
        }
    }
}

proof fn lemma_item(
    st: Paint,
    n: Tree,
    checked: Option<bool>,
    marker: Marker<Seq<char>>,
    level: int,
    sc: Scope,
    page: ViewState,
    s: Seq<char>,
)
    requires
        is_whole(page),
    ensures
        adds(
            st,
            paint_item(st, n, checked, marker, level, sc, page, s),
            seq![
                match marker {
                    Marker::Bullet => Leaf::Bullet,
                    Marker::Number(_) => Leaf::Numbered,
                    Marker::Task { done, .. } => Leaf::Task(done),
                },
            ] + contents_from(n.children, 0, page.mermaid),
        ),
    decreases MAX_EMBEDS - sc.depth, weight(n), 1int,
{
    let m = Mark::OpenItem {
        marker,
        lead: crate::blocks::lead_depth(n.children),
        guide: crate::blocks::has_list(n.children),
        rtl: crate::page::reads_rtl(s, n.at),
    };
    let o = put(st, m);
    let done = checked == Some(true);
    lemma_parts(o, n.children, 0, done, level, sc, page, s);
    lemma_wrapped(
        st,
        m,
        paint_parts(o, n.children, 0, done, level, sc, page, s),
        contents_from(n.children, 0, page.mermaid),
    );
}

proof fn lemma_parts(
    st: Paint,
    nodes: Seq<Tree>,
    i: int,
    done: bool,
    level: int,
    sc: Scope,
    page: ViewState,
    s: Seq<char>,
)
    requires
        is_whole(page),
        0 <= i,
    ensures
        adds(
            st,
            paint_parts(st, nodes, i, done, level, sc, page, s),
            contents_from(nodes, i, page.mermaid),
        ),
    decreases MAX_EMBEDS - sc.depth, weight_from(nodes, i), 2int,
{
    lemma_still(st, st);
    if i < nodes.len() {
        lemma_weight_one(nodes, i);
        let inner = Scope { tight: i == 0, done, ..sc };
        let next = match nodes[i].kind {
            Kind::List(ordered) => paint_list(
                st,
                nodes[i],
                ordered,
                level_below(level),
                sc,
                page,
                s,
            ),
            _ => paint_block(st, nodes[i], inner, page, s),
        };
        match nodes[i].kind {
            Kind::List(ordered) => {
                lemma_list(st, nodes[i], ordered, level_below(level), sc, page, s);
            },
            _ => {
                law_block_shows_its_content(st, nodes[i], inner, page, s);
            },
        }
        assert(!is_folded(nodes[i].at, sc, page, s));
        lemma_parts(next, nodes, i + 1, done, level, sc, page, s);
        lemma_then(
            st,
            next,
            paint_parts(next, nodes, i + 1, done, level, sc, page, s),
            contents(nodes[i], page.mermaid),
            contents_from(nodes, i + 1, page.mermaid),
        );
    }
}

/// A table marker is a comment.
proof fn lemma_marker_is_comment(kind: Kind<Seq<char>>)
    requires
        table_marker(kind) is Some,
    ensures
        kind matches Kind::Html(html) && begins(trim_start(html), "<!--"@),
{
    let html = kind->Html_0;
    let a = trim_start(html);
    let b = trim(html);
    lemma_space_start(a, a.len() as int);
    assert(begins(b, "<!--"@));
    let n = "<!--"@.len() as int;
    assert(a.subrange(0, n) =~= b.subrange(0, n));
}

proof fn lemma_root(
    st: Paint,
    nodes: Seq<Tree>,
    i: int,
    pending: Option<(TableStyle, Option<Seq<Seq<char>>>)>,
    sc: Scope,
    page: ViewState,
    s: Seq<char>,
)
    requires
        is_whole(page),
        0 <= i,
    ensures
        adds(
            st,
            paint_root(st, nodes, i, pending, None, sc, page, s),
            contents_from(nodes, i, page.mermaid),
        ),
    decreases MAX_EMBEDS - sc.depth, weight_from(nodes, i), 2int,
{
    let none = Seq::<Leaf>::empty();
    lemma_still(st, st);
    if i < nodes.len() {
        lemma_weight_one(nodes, i);
        let own = contents(nodes[i], page.mermaid);
        let rest = contents_from(nodes, i + 1, page.mermaid);
        if table_marker(nodes[i].kind) is Some {
            lemma_marker_is_comment(nodes[i].kind);
            lemma_root(st, nodes, i + 1, table_marker(nodes[i].kind), sc, page, s);
            assert(own =~= none);
            assert(none + rest =~= rest);
        } else if nodes[i].kind is Table {
            let (style, widths) = match pending {
                Some(m) => m,
                None => (TableStyle::Grid, None),
            };
            let next = paint_table(st, nodes[i], style, widths, sc, page, s);
            lemma_table(st, nodes[i], style, widths, sc, page, s);
            lemma_root(next, nodes, i + 1, None, sc, page, s);
            lemma_then(
                st,
                next,
                paint_root(next, nodes, i + 1, None, None, sc, page, s),
                own,
                rest,
            );
        } else {
            let next = paint_block(st, nodes[i], sc, page, s);
            law_block_shows_its_content(st, nodes[i], sc, page, s);
            assert(folds_below(nodes[i], sc, page, s) is None);
            lemma_root(next, nodes, i + 1, None, sc, page, s);
            lemma_then(
                st,
                next,
                paint_root(next, nodes, i + 1, None, None, sc, page, s),
                own,
                rest,
            );
        }
    }
}

/// A page shows what its document holds, all of it and in its order: every code
/// block with exactly the text between its fences, every heading with its depth,
/// every list item, task, quote, callout, footnote, table, row and cell, every
/// rule and every piece of HTML that is no comment. This is for pages of which
/// nothing is folded or embedded.
pub proof fn law_page_shows_its_content(nodes: Seq<Tree>, page: ViewState, s: Seq<char>)
    requires
        is_whole(page),
    ensures
        leaves(painted(Some(nodes), page, s).ops) == contents_from(nodes, 0, page.mermaid),
{
    let st = Paint { defs: defs_with_all(seq![], nodes, 0), ..blank() };
    lemma_root(st, nodes, 0, None, top(), page, s);
    let r = contents_from(nodes, 0, page.mermaid);
    assert(leaves(st.ops) =~= Seq::<Leaf>::empty());
    assert(Seq::<Leaf>::empty() + r =~= r);
}

// --- Blocks one by one ---

/// A code block is shown as one step, with its text unchanged, wherever it
/// stands and whatever the page: as a diagram where its language is `mermaid`
/// and the host draws those, else under its language.
pub proof fn law_code_is_shown_as_it_stands(
    st: Paint,
    n: Tree,
    lang: Option<Seq<char>>,
    value: Seq<char>,
    sc: Scope,
    page: ViewState,
    s: Seq<char>,
)
    requires
        n.kind == (Kind::Code { lang, value }),
    ensures
        ({
            let ops = paint_block(st, n, sc, page, s).ops;
            &&& ops.len() == st.ops.len() + 1
            &&& ops.drop_last() == st.ops
            &&& match ops.last() {
                Mark::Mermaid(text) => text == value && page.mermaid && lang == Some("mermaid"@),
                Mark::Code { lang: l, value: text } => text == value && !(page.mermaid && lang
                    == Some("mermaid"@)) && if lang == Some(Seq::<char>::empty()) {
                    l is None
                } else {
                    l == lang
                },
                _ => false,
            }
        }),
{
    let ops = paint_block(st, n, sc, page, s).ops;
    assert(ops.drop_last() =~= st.ops);
    if let Some(l) = lang {
        if l.len() == 0 {
            assert(l =~= Seq::<char>::empty());
        }
    }
}

/// The text that inline nodes show.
pub open spec fn inline_text(nodes: Seq<Tree>, page: ViewState) -> Seq<char> {
    with_nodes(
        nothing(),
        nodes,
        0,
        plain_style(),
        Setting { host: page.host, defs: seq![] },
    ).text
}

pub(crate) proof fn lemma_inline_text(st: Paint, nodes: Seq<Tree>, sc: Scope, page: ViewState)
    ensures
        ({
            let r = paint_inline(st, nodes, sc, page);
            &&& r.ops.len() == st.ops.len() + 1
            &&& r.ops.drop_last() == st.ops
            &&& r.ops.last() matches Mark::Inline { shown, .. } && shown.text == inline_text(
                nodes,
                page,
            )
        }),
{
    let r = paint_inline(st, nodes, sc, page);
    assert(r.ops.drop_last() =~= st.ops);
    law_text_ignores_style(
        nothing(),
        nothing(),
        nodes,
        0,
        crate::page::base_style(sc.done),
        plain_style(),
        Setting { host: page.host, defs: st.defs },
        Setting { host: page.host, defs: seq![] },
    );
}

/// A heading is shown as a container of its depth round the text of its nodes.
pub proof fn law_heading_shows_its_text(
    st: Paint,
    n: Tree,
    depth: u8,
    sc: Scope,
    page: ViewState,
    s: Seq<char>,
)
    requires
        n.kind == Kind::<Seq<char>>::Heading(depth),
    ensures
        ({
            let ops = paint_block(st, n, sc, page, s).ops;
            let k = st.ops.len() as int;
            &&& ops.len() == k + 3
            &&& ops.take(k) == st.ops
            &&& ops[k] matches Mark::OpenHeading { depth: d, .. } && d == depth
            &&& ops[k + 1] matches Mark::Inline { shown, .. } && shown.text == inline_text(
                n.children,
                page,
            )
            &&& ops[k + 2] is Close
        }),
{
    let ops = paint_block(st, n, sc, page, s).ops;
    let k = st.ops.len() as int;
    let open = Mark::OpenHeading {
        depth,
        tight: sc.tight,
        rtl: crate::page::reads_rtl(s, n.at),
        fold: crate::blocks::chevron(n.at, sc, page, s),
    };
    let o = put(st, open);
    lemma_inline_text(o, n.children, sc, page);
    let r = paint_inline(o, n.children, sc, page);
    assert(ops == r.ops.push(Mark::Close));
    assert(r.ops.drop_last()[k] == open);
    assert(ops.take(k) =~= st.ops) by {
        assert forall|i: int| 0 <= i < k implies ops[i] == st.ops[i] by {
            assert(r.ops.drop_last()[i] == o.ops[i]);
        }
    }
}

/// A paragraph that is nothing special shows the text of its nodes.
pub proof fn law_paragraph_shows_its_text(
    st: Paint,
    n: Tree,
    sc: Scope,
    page: ViewState,
    s: Seq<char>,
)
    requires
        n.kind is Paragraph,
        embed_at(n.children, sc, page) is None,
        !page.math || display_from(n.children, s, 0, None) is None,
        crate::rows::all_rows(s, n.at) is None,
        crate::rows::mixed_of(s, n.at, n.children) is None,
        crate::images::lead_image(n.children) is None,
    ensures
        ({
            let ops = paint_block(st, n, sc, page, s).ops;
            &&& ops.len() == st.ops.len() + 1
            &&& ops.drop_last() == st.ops
            &&& ops.last() matches Mark::Inline { shown, .. } && shown.text == inline_text(
                n.children,
                page,
            )
        }),
{
    lemma_inline_text(st, n.children, sc, page);
}

/// A block of math is shown as a formula, or as its source where the host
/// typesets none.
pub proof fn law_math_is_shown(st: Paint, n: Tree, sc: Scope, page: ViewState, s: Seq<char>)
    requires
        n.kind is Math,
    ensures
        ({
            let ops = paint_block(st, n, sc, page, s).ops;
            &&& ops.len() == st.ops.len() + 1
            &&& ops.drop_last() == st.ops
            &&& match ops.last() {
                Mark::Formula { latex, .. } => page.math && latex == n.kind->Math_0,
                Mark::RawMath(latex) => !page.math && latex == n.kind->Math_0,
                _ => false,
            }
        }),
{
    let ops = paint_block(st, n, sc, page, s).ops;
    assert(ops.drop_last() =~= st.ops);
}

/// A page that is not parsed yet shows its source.
pub proof fn law_unparsed_page_shows_its_source(page: ViewState, s: Seq<char>)
    ensures
        painted(None, page, s).ops == seq![Mark::Plain(s)],
{
    assert(painted(None, page, s).ops =~= seq![Mark::Plain(s)]);
}

} // verus!
