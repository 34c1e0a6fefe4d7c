//! What holds of every painted page: every container that is opened is closed,
//! nothing painted before is touched, and a block is painted exactly where it
//! shows something.
use crate::blocks::{
    block_shows, embed_at, inside, is_folded, is_hidden, item_marker, level_below, paint_block,
    paint_blocks, paint_cells, paint_item, paint_items, paint_list, paint_paragraph, paint_parts,
    paint_prose, paint_root, paint_some, paint_table, paint_table_rows, painted, table_marker,
    folds_below, Grid,
};
use crate::doc::{callout_of, defs_with_all, law_callout_does_not_grow};
use crate::ops::{blank, put, Mark, Marker, Paint};
use crate::page::{paint_inline, paint_pieces, paint_rows, ViewState, Scope, MAX_EMBEDS};
use crate::rows::Piece;
use crate::tables::TableStyle;
use crate::tree::{lemma_weight_one, weight, weight_from, Kind, Tree};
use vstd::prelude::*;

verus! {

/// Whether a step opens a container.
pub open spec fn opens(m: Mark) -> bool {
    match m {
        Mark::OpenColumn => true,
        Mark::OpenHeading { .. } => true,
        Mark::OpenList { .. } => true,
        Mark::OpenItem { .. } => true,
        Mark::OpenCallout { .. } => true,
        Mark::OpenQuote { .. } => true,
        Mark::OpenTable { .. } => true,
        Mark::OpenRow { .. } => true,
        Mark::OpenCell { .. } => true,
        Mark::OpenFootnote(_) => true,
        Mark::OpenEmbed { .. } => true,
        _ => false,
    }
}

/// How many containers are open behind the first `n` steps.
pub open spec fn open_after(ops: Seq<Mark>, n: int) -> int
    decreases n,
{
    if n <= 0 || n > ops.len() {
        0
    } else if opens(ops[n - 1]) {
        open_after(ops, n - 1) + 1
    } else if ops[n - 1] is Close {
        open_after(ops, n - 1) - 1
    } else {
        open_after(ops, n - 1)
    }
}

/// Whether `b` is `a` with whole containers and single steps behind it: what
/// `a` holds stands, and behind it no container of `a` is closed and none is
/// left open.
pub open spec fn extends(a: Paint, b: Paint) -> bool {
    &&& a.ops.len() <= b.ops.len()
    &&& forall|k: int| 0 <= k < a.ops.len() ==> #[trigger] b.ops[k] == a.ops[k]
    &&& forall|n: int|
        a.ops.len() <= n <= b.ops.len() ==> #[trigger] open_after(b.ops, n) >= open_after(
            a.ops,
            a.ops.len() as int,
        )
    &&& open_after(b.ops, b.ops.len() as int) == open_after(a.ops, a.ops.len() as int)
}

proof fn lemma_open_prefix(a: Seq<Mark>, b: Seq<Mark>, n: int)
    requires
        n <= a.len(),
        n <= b.len(),
        forall|k: int| 0 <= k < n ==> #[trigger] b[k] == a[k],
    ensures
        open_after(a, n) == open_after(b, n),
    decreases n,
{
    if n > 0 {
        assert(b[n - 1] == a[n - 1]);
        lemma_open_prefix(a, b, n - 1);
    }
}

proof fn lemma_same(a: Paint, b: Paint)
    requires
        a.ops == b.ops,
    ensures
        extends(a, b),
{
}

proof fn lemma_leaf(a: Paint, m: Mark)
    requires
        !opens(m),
        !(m is Close),
    ensures
        extends(a, put(a, m)),
        a.ops.len() < put(a, m).ops.len(),
{
    let b = put(a, m);
    let n = a.ops.len() as int;
    lemma_open_prefix(a.ops, b.ops, n);
    assert forall|k: int| n <= k <= b.ops.len() implies #[trigger] open_after(b.ops, k)
        >= open_after(a.ops, n) by {
        if k == n {
        } else {
            assert(k == n + 1);
        }
    }
}

proof fn lemma_then(a: Paint, b: Paint, c: Paint)
    requires
        extends(a, b),
        extends(b, c),
    ensures
        extends(a, c),
{
    let n = b.ops.len() as int;
    assert forall|k: int| 0 <= k < a.ops.len() implies #[trigger] c.ops[k] == a.ops[k] by {
        assert(b.ops[k] == a.ops[k]);
    }
    assert forall|k: int| a.ops.len() <= k <= c.ops.len() implies #[trigger] open_after(c.ops, k)
        >= open_after(a.ops, a.ops.len() as int) by {
        if k <= n {
            lemma_open_prefix(b.ops, c.ops, k);
            assert(open_after(b.ops, k) >= open_after(a.ops, a.ops.len() as int));
        }
    }
}

/// A container round what extends its opening.
proof fn lemma_wrapped(a: Paint, m: Mark, inner: Paint)
    requires
        opens(m),
        extends(put(a, m), inner),
    ensures
        extends(a, put(inner, Mark::Close)),
        a.ops.len() < put(inner, Mark::Close).ops.len(),
{
    let o = put(a, m);
    let c = put(inner, Mark::Close);
    let n = a.ops.len() as int;
    let e = inner.ops.len() as int;
    lemma_open_prefix(a.ops, o.ops, n);
    assert(open_after(o.ops, n + 1) == open_after(a.ops, n) + 1);
    assert forall|k: int| 0 <= k < n implies #[trigger] c.ops[k] == a.ops[k] by {
        assert(o.ops[k] == a.ops[k]);
        assert(inner.ops[k] == o.ops[k]);
    }
    lemma_open_prefix(inner.ops, c.ops, e);
    assert(open_after(c.ops, e + 1) == open_after(inner.ops, e) - 1);
    assert forall|k: int| n <= k <= c.ops.len() implies #[trigger] open_after(c.ops, k)
        >= open_after(a.ops, n) by {
        if k == n {
            lemma_open_prefix(a.ops, c.ops, n);
        } else if k <= e {
            lemma_open_prefix(inner.ops, c.ops, k);
            assert(open_after(inner.ops, k) >= open_after(o.ops, n + 1));
        }
    }
}

// --- The walk, step by step ---

proof fn lemma_inline(st: Paint, nodes: Seq<Tree>, sc: Scope, page: ViewState)
    ensures
        extends(st, paint_inline(st, nodes, sc, page)),
        st.ops.len() < paint_inline(st, nodes, sc, page).ops.len(),
{
    let r = paint_inline(st, nodes, sc, page);
    let m = r.ops.last();
    let mid = Paint { seen: r.seen, ..st };
    assert(r.ops == mid.ops.push(m));
    assert(r == put(mid, m));
    lemma_leaf(mid, m);
    lemma_same(st, mid);
    lemma_then(st, mid, r);
}

proof fn lemma_some(st: Paint, nodes: Seq<Tree>, sc: Scope, page: ViewState)
    ensures
        extends(st, paint_some(st, nodes, sc, page)),
{
    lemma_same(st, st);
    if nodes.len() > 0 {
        lemma_inline(st, nodes, sc, page);
    }
}

proof fn lemma_pieces(st: Paint, pieces: Seq<Piece>, i: int, sc: Scope, page: ViewState)
    ensures
        extends(st, paint_pieces(st, pieces, i, sc, page)),
    decreases pieces.len() - i,
{
    lemma_same(st, st);
    if 0 <= i < pieces.len() {
        let next = match pieces[i] {
            Piece::Prose(nodes) => paint_inline(st, nodes, sc, page),
            Piece::Props(rows) => paint_rows(st, rows),
        };
        match pieces[i] {
            Piece::Prose(nodes) => lemma_inline(st, nodes, sc, page),
            Piece::Props(rows) => lemma_leaf(
                st,
                Mark::Properties { rows, rtl: crate::page::panel_rtl(rows) },
            ),
        }
        lemma_pieces(next, pieces, i + 1, sc, page);
        lemma_then(st, next, paint_pieces(next, pieces, i + 1, sc, page));
    }
}

proof fn lemma_prose(st: Paint, n: Tree, sc: Scope, page: ViewState, s: Seq<char>)
    ensures
        extends(st, paint_prose(st, n, sc, page, s)),
        st.ops.len() < paint_prose(st, n, sc, page, s).ops.len(),
{
    let nodes = n.children;
    let open = put(st, Mark::OpenColumn);
    if page.math && crate::doc::display_from(nodes, s, 0, None) is Some {
        let ix = crate::doc::display_from(nodes, s, 0, None)->0;
        let formula = Mark::Formula {
            latex: nodes[ix].kind->InlineMath_0,
            side: crate::blocks::formula_side(s, Some(nodes[ix].at->0.start)),
        };
        if nodes.len() == 1 {
            lemma_leaf(st, formula);
        } else {
            let a = paint_some(open, nodes.take(ix), sc, page);
            let b = put(a, formula);
            let c = paint_some(b, nodes.skip(ix + 1), sc, page);
            lemma_some(open, nodes.take(ix), sc, page);
            lemma_leaf(a, formula);
            lemma_some(b, nodes.skip(ix + 1), sc, page);
            lemma_then(open, a, b);
            lemma_then(open, b, c);
            lemma_wrapped(st, Mark::OpenColumn, c);
        }
    } else if crate::rows::all_rows(s, n.at) is Some {
        let rows = crate::rows::all_rows(s, n.at)->0;
        lemma_leaf(st, Mark::Properties { rows, rtl: crate::page::panel_rtl(rows) });
    } else if crate::rows::mixed_of(s, n.at, nodes) is Some {
        let pieces = crate::rows::mixed_of(s, n.at, nodes)->0;
        lemma_pieces(open, pieces, 0, sc, page);
        lemma_wrapped(st, Mark::OpenColumn, paint_pieces(open, pieces, 0, sc, page));
    } else if crate::blocks::shows_images(page, sc) && crate::images::lead_image(nodes) is Some {
        let pic = crate::images::lead_image(nodes)->0;
        let sized = crate::blocks::is_sized(pic, page);
        let image = Mark::Image { info: pic, sized };
        let rest = crate::images::below_image(nodes, sized);
        if rest.len() == 0 {
            lemma_leaf(st, image);
        } else {
            let a = put(open, image);
            lemma_leaf(open, image);
            lemma_inline(a, rest, sc, page);
            lemma_then(open, a, paint_inline(a, rest, sc, page));
            lemma_wrapped(st, Mark::OpenColumn, paint_inline(a, rest, sc, page));
        }
    } else {
        lemma_inline(st, nodes, sc, page);
    }
}

proof fn lemma_cells(st: Paint, cells: Seq<Tree>, i: int, g: Grid, sc: Scope, page: ViewState)
    ensures
        extends(st, paint_cells(st, cells, i, g, sc, page)),
    decreases cells.len() - i,
{
    lemma_same(st, st);
    if 0 <= i < cells.len() {
        if cells[i].kind is TableCell {
            let open = Mark::OpenCell {
                align: crate::blocks::column_align(g.align, i),
                divider: crate::blocks::cell_divider(g.style, g.rtl, i, cells.len() as int),
                header: g.header,
            };
            let body = paint_inline(put(st, open), cells[i].children, sc, page);
            let next = put(body, Mark::Close);
            lemma_inline(put(st, open), cells[i].children, sc, page);
            lemma_wrapped(st, open, body);
            lemma_cells(next, cells, i + 1, g, sc, page);
            lemma_then(st, next, paint_cells(next, cells, i + 1, g, sc, page));
        } else {
            lemma_cells(st, cells, i + 1, g, sc, page);
        }
    }
}

pub(crate) proof fn lemma_table_rows(st: Paint, rows: Seq<Tree>, i: int, g: Grid, sc: Scope, page: ViewState)
    ensures
        extends(st, paint_table_rows(st, rows, i, g, sc, page)),
    decreases rows.len() - i,
{
    lemma_same(st, st);
    if 0 <= i < rows.len() {
        if rows[i].kind is TableRow {
            let open = Mark::OpenRow {
                divider: crate::blocks::row_divider(g.style, i),
                shaded: crate::blocks::row_shaded(g.style, i),
            };
            let h = Grid { header: i == 0, ..g };
            let body = paint_cells(put(st, open), rows[i].children, 0, h, sc, page);
            let next = put(body, Mark::Close);
            lemma_cells(put(st, open), rows[i].children, 0, h, sc, page);
            lemma_wrapped(st, open, body);
            lemma_table_rows(next, rows, i + 1, g, sc, page);
            lemma_then(st, next, paint_table_rows(next, rows, i + 1, g, sc, page));
        } else {
            lemma_table_rows(st, rows, i + 1, g, sc, page);
        }
    }
}

pub(crate) proof fn lemma_table(
    st: Paint,
    n: Tree,
    style: TableStyle,
    widths: Option<Seq<Seq<char>>>,
    sc: Scope,
    page: ViewState,
    s: Seq<char>,
)
    ensures
        extends(st, paint_table(st, n, style, widths, sc, page, s)),
        st.ops.len() < paint_table(st, n, style, widths, sc, page, s).ops.len(),
{
    let rtl = crate::page::reads_rtl(s, n.at);
    let open = Mark::OpenTable {
        style,
        widths,
        columns: crate::blocks::columns_upto(n.children, n.children.len() as int),
        rtl,
    };
    let g = Grid { style, rtl, align: n.align, header: false };
    lemma_table_rows(put(st, open), n.children, 0, g, sc, page);
    lemma_wrapped(st, open, paint_table_rows(put(st, open), n.children, 0, g, sc, page));
}

/// A block extends the page with whole containers, and adds to it exactly where
/// it shows something.
pub proof fn law_block_is_whole(st: Paint, n: Tree, sc: Scope, page: ViewState, s: Seq<char>)
    ensures
        extends(st, paint_block(st, n, sc, page, s)),
        (st.ops.len() < paint_block(st, n, sc, page, s).ops.len()) == block_shows(n.kind),
    decreases MAX_EMBEDS - sc.depth, weight(n), 1int,
{
    let r = paint_block(st, n, sc, page, s);
    lemma_same(st, st);
    match n.kind {
        Kind::Paragraph => {
            lemma_paragraph(st, n, sc, page, s);
        },
        Kind::Heading(depth) => {
            let open = Mark::OpenHeading {
                depth,
                tight: sc.tight,
                rtl: crate::page::reads_rtl(s, n.at),
                fold: crate::blocks::chevron(n.at, sc, page, s),
            };
            lemma_inline(put(st, open), n.children, sc, page);
            lemma_wrapped(st, open, paint_inline(put(st, open), n.children, sc, page));
        },
        Kind::List(ordered) => {
            lemma_list(st, n, ordered, 0, sc, page, s);
        },
        Kind::Blockquote => match callout_of(n.children) {
            Some(c) => {
                let open = Mark::OpenCallout {
                    kind: c.kind,
                    folded: c.fold,
                    at: c.marker,
                    live: page.alert_toggle && sc.depth == 0,
                    rtl: crate::page::reads_rtl(s, n.at),
                };
                let o = put(st, open);
                law_callout_does_not_grow(n.children);
                lemma_same(o, o);
                if c.fold == Some(true) {
                    lemma_wrapped(st, open, o);
                } else {
                    lemma_blocks(o, c.children, 0, sc, page, s);
                    lemma_wrapped(st, open, paint_blocks(o, c.children, 0, sc, page, s));
                }
            },
            None => {
                let open = Mark::OpenQuote { rtl: crate::page::reads_rtl(s, n.at) };
                let o = put(st, open);
                lemma_blocks(o, n.children, 0, sc, page, s);
                lemma_wrapped(st, open, paint_blocks(o, n.children, 0, sc, page, s));
            },
        },
        Kind::Table => {
            lemma_table(st, n, TableStyle::Grid, None, sc, page, s);
        },
        Kind::FootnoteDefinition { label, id } => {
            let open = Mark::OpenFootnote(
                match label {
                    Some(l) => l,
                    None => id,
                },
            );
            let o = put(st, open);
            lemma_blocks(o, n.children, 0, sc, page, s);
            lemma_wrapped(st, open, paint_blocks(o, n.children, 0, sc, page, s));
        },
        _ => {
            if r.ops.len() > st.ops.len() {
                lemma_leaf(st, r.ops.last());
                assert(r == put(st, r.ops.last()));
            }
        },
    }
}

pub(crate) proof fn lemma_blocks(
    st: Paint,
    nodes: Seq<Tree>,
    i: int,
    sc: Scope,
    page: ViewState,
    s: Seq<char>,
)
    ensures
        extends(st, paint_blocks(st, nodes, i, sc, page, s)),
    decreases MAX_EMBEDS - sc.depth, weight_from(nodes, i), 2int,
{
    lemma_same(st, st);
    if 0 <= i < nodes.len() {
        lemma_weight_one(nodes, i);
        let next = paint_block(st, nodes[i], sc, page, s);
        law_block_is_whole(st, nodes[i], sc, page, s);
        lemma_blocks(next, nodes, i + 1, sc, page, s);
        lemma_then(st, next, paint_blocks(next, nodes, i + 1, sc, page, s));
    }
}

proof fn lemma_paragraph(st: Paint, n: Tree, sc: Scope, page: ViewState, s: Seq<char>)
    ensures
        extends(st, paint_paragraph(st, n, sc, page, s)),
        st.ops.len() < paint_paragraph(st, n, sc, page, s).ops.len(),
    decreases MAX_EMBEDS - sc.depth, weight(n), 0int,
{
    match embed_at(n.children, sc, page) {
        Some(e) => {
            let m = Mark::OpenEmbed { target: e.target, label: e.label };
            let open = put(st, m);
            match e.blocks {
                Some(blocks) => {
                    let mid = Paint { defs: defs_with_all(open.defs, blocks, 0), ..open };
                    let body = paint_root(
                        mid,
                        blocks,
                        0,
                        None,
                        None,
                        inside(sc),
                        page,
                        e.content,
                    );
                    lemma_same(open, mid);
                    lemma_root(mid, blocks, 0, None, None, inside(sc), page, e.content);
                    lemma_then(open, mid, body);
                    lemma_wrapped(st, m, body);
                },
                None => {
                    lemma_leaf(open, Mark::Plain(e.content));
                    lemma_wrapped(st, m, put(open, Mark::Plain(e.content)));
                },
            }
        },
        None => {
            lemma_prose(st, n, sc, page, s);
        },
    }
}

pub(crate) proof fn lemma_list(
    st: Paint,
    n: Tree,
    ordered: bool,
    level: int,
    sc: Scope,
    page: ViewState,
    s: Seq<char>,
)
    ensures
        extends(st, paint_list(st, n, ordered, level, sc, page, s)),
        st.ops.len() < paint_list(st, n, ordered, level, sc, page, s).ops.len(),
    decreases MAX_EMBEDS - sc.depth, weight(n), 0int,
{
    let m = Mark::OpenList { nested: level > 0 };
    let o = put(st, m);
    lemma_items(o, n.children, 0, ordered, level, sc, page, s);
    lemma_wrapped(st, m, paint_items(o, n.children, 0, ordered, level, sc, page, s));
}

pub(crate) proof fn lemma_items(
    st: Paint,
    nodes: Seq<Tree>,
    i: int,
    ordered: bool,
    level: int,
    sc: Scope,
    page: ViewState,
    s: Seq<char>,
)
    ensures
        extends(st, paint_items(st, nodes, i, ordered, level, sc, page, s)),
    decreases MAX_EMBEDS - sc.depth, weight_from(nodes, i), 2int,
{
    lemma_same(st, st);
    if 0 <= i < nodes.len() {
        lemma_weight_one(nodes, i);
        match nodes[i].kind {
            Kind::ListItem(checked) => {
                let marker = item_marker(nodes[i], checked, ordered, i, level, sc, page);
                let next = paint_item(st, nodes[i], checked, marker, level, sc, page, s);
                lemma_item(st, nodes[i], checked, marker, level, sc, page, s);
                lemma_items(next, nodes, i + 1, ordered, level, sc, page, s);
                lemma_then(
                    st,
                    next,
                    paint_items(next, nodes, i + 1, ordered, level, sc, page, s),
                );
            },
            _ => {
                lemma_items(st, nodes, i + 1, ordered, level, sc, page, s);
            },
        }
    }
}

pub(crate) proof fn lemma_item(
    st: Paint,
    n: Tree,
    checked: Option<bool>,
    marker: Marker<Seq<char>>,
    level: int,
    sc: Scope,
    page: ViewState,
    s: Seq<char>,
)
    ensures
        extends(st, paint_item(st, n, checked, marker, level, sc, page, s)),
    decreases MAX_EMBEDS - sc.depth, weight(n), 1int,
{
    let m = Mark::OpenItem {
        marker,
        lead: crate::blocks::lead_depth(n.children),
        guide: crate::blocks::has_list(n.children),
        rtl: crate::page::reads_rtl(s, n.at),
    };
    let o = put(st, m);
    let done = checked == Some(true);
    lemma_parts(o, n.children, 0, done, level, sc, page, s);
    lemma_wrapped(st, m, paint_parts(o, n.children, 0, done, level, sc, page, s));
}

pub(crate) proof fn lemma_parts(
    st: Paint,
    nodes: Seq<Tree>,
    i: int,
    done: bool,
    level: int,
    sc: Scope,
    page: ViewState,
    s: Seq<char>,
)
    ensures
        extends(st, paint_parts(st, nodes, i, done, level, sc, page, s)),
    decreases MAX_EMBEDS - sc.depth, weight_from(nodes, i), 2int,
{
    lemma_same(st, st);
    if 0 <= i < nodes.len() {
        lemma_weight_one(nodes, i);
        let inner = Scope { tight: i == 0, done, ..sc };
        let next = match nodes[i].kind {
            Kind::List(ordered) => paint_list(
                st,
                nodes[i],
                ordered,
                level_below(level),
                sc,
                page,
                s,
            ),
            _ => paint_block(st, nodes[i], inner, page, s),
        };
        match nodes[i].kind {
            Kind::List(ordered) => {
                lemma_list(st, nodes[i], ordered, level_below(level), sc, page, s);
            },
            _ => {
                law_block_is_whole(st, nodes[i], inner, page, s);
            },
        }
        if !(nodes[i].kind is Heading && is_folded(nodes[i].at, sc, page, s)) {
            lemma_parts(next, nodes, i + 1, done, level, sc, page, s);
            lemma_then(st, next, paint_parts(next, nodes, i + 1, done, level, sc, page, s));
        }
    }
}

pub(crate) proof fn lemma_root(
    st: Paint,
    nodes: Seq<Tree>,
    i: int,
    pending: Option<(TableStyle, Option<Seq<Seq<char>>>)>,
    below: Option<u8>,
    sc: Scope,
    page: ViewState,
    s: Seq<char>,
)
    ensures
        extends(st, paint_root(st, nodes, i, pending, below, sc, page, s)),
    decreases MAX_EMBEDS - sc.depth, weight_from(nodes, i), 2int,
{
    lemma_same(st, st);
    if 0 <= i < nodes.len() {
        lemma_weight_one(nodes, i);
        if is_hidden(nodes[i], below) {
            lemma_root(st, nodes, i + 1, pending, below, sc, page, s);
        } else if table_marker(nodes[i].kind) is Some {
            lemma_root(st, nodes, i + 1, table_marker(nodes[i].kind), None, sc, page, s);
        } else if nodes[i].kind is Table {
            let (style, widths) = match pending {
                Some(m) => m,
                None => (TableStyle::Grid, None),
            };
            let next = paint_table(st, nodes[i], style, widths, sc, page, s);
            lemma_table(st, nodes[i], style, widths, sc, page, s);
            lemma_root(next, nodes, i + 1, None, None, sc, page, s);
            lemma_then(st, next, paint_root(next, nodes, i + 1, None, None, sc, page, s));
        } else {
            let next = paint_block(st, nodes[i], sc, page, s);
            let deep = folds_below(nodes[i], sc, page, s);
            law_block_is_whole(st, nodes[i], sc, page, s);
            lemma_root(next, nodes, i + 1, None, deep, sc, page, s);
            lemma_then(st, next, paint_root(next, nodes, i + 1, None, deep, sc, page, s));
        }
    }
}

/// Every container of a page is closed, and none is closed that was not opened.
pub proof fn law_page_is_whole(blocks: Option<Seq<Tree>>, page: ViewState, s: Seq<char>)
    ensures
        ({
            let ops = painted(blocks, page, s).ops;
            &&& open_after(ops, ops.len() as int) == 0
            &&& forall|n: int| 0 <= n <= ops.len() ==> #[trigger] open_after(ops, n) >= 0
        }),
{
    match blocks {
        Some(nodes) => {
            let st = Paint { defs: defs_with_all(seq![], nodes, 0), ..blank() };
            lemma_root(st, nodes, 0, None, None, crate::page::top(), page, s);
        },
        None => {
            lemma_leaf(blank(), Mark::Plain(s));
        },
    }
}

} // verus!
