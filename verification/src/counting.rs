//! The search that is painted and the search that is counted agree.
use crate::blocks::{
    embed_at, folds_below, is_folded, item_marker, level_below, paint_block, paint_blocks,
    paint_cells, paint_item, paint_items, paint_list, paint_parts, paint_root, paint_table,
    paint_table_rows, painted, shows_images, table_marker, Grid,
};
use crate::doc::{callout_of, defs_with_all, display_from, law_callout_does_not_grow};
use crate::find::{bare, found_from, found_in, hits, hits_from, piece_hits, visible};
use crate::images::lead_image;
use crate::inline::{moved, nothing, plain_style, Setting};
use crate::ops::{blank, put, Mark, Paint};
use crate::page::{base_style, paint_inline, paint_pieces, paint_rows, top, ViewState, Scope};
use crate::rows::{all_rows, mixed_of, Piece};
use crate::search::matches_of;
use crate::shown::law_text_ignores_style;
use crate::tables::TableStyle;
use crate::tree::{lemma_weight_one, weight, weight_from, Kind, Tree};
use vstd::prelude::*;

verus! {

/// Whether nothing of a block depends on the host: no paragraph is an embed, a
/// formula or an image that the host draws, no heading is folded, and lists and
/// tables hold items and cells alone.
pub open spec fn is_legible(n: Tree, page: ViewState, s: Seq<char>) -> bool
    decreases weight(n), 0int,
{
    match n.kind {
        Kind::Paragraph => {
            &&& embed_at(n.children, top(), page) is None
            &&& !(page.math && display_from(n.children, s, 0, None) is Some)
            &&& all_rows(s, n.at) is Some || mixed_of(s, n.at, n.children) is Some || !(shows_images(
                page,
                top(),
            ) && lead_image(n.children) is Some)
        },
        Kind::Heading(_) => !is_folded(n.at, top(), page, s),
        Kind::Blockquote => match callout_of(n.children) {
            Some(c) => {
                proof {
                    law_callout_does_not_grow(n.children);
                }
                c.fold == Some(true) || are_legible(c.children, 0, page, s)
            },
            None => are_legible(n.children, 0, page, s),
        },
        Kind::List(_) => are_items(n.children, 0, page, s),
        Kind::Table => are_rows(n.children),
        Kind::FootnoteDefinition { .. } => are_legible(n.children, 0, page, s),
        Kind::ListItem(_) => false,
        Kind::TableRow => false,
        Kind::TableCell => false,
        _ => true,
    }
}

/// Whether the blocks from `i` on are legible.
pub open spec fn are_legible(nodes: Seq<Tree>, i: int, page: ViewState, s: Seq<char>) -> bool
    decreases weight_from(nodes, i), 1int,
{
    if i < 0 || i >= nodes.len() {
        true
    } else {
        proof {
            lemma_weight_one(nodes, i);
        }
        is_legible(nodes[i], page, s) && are_legible(nodes, i + 1, page, s)
    }
}

/// Whether the nodes from `i` on are list items of legible blocks.
pub open spec fn are_items(nodes: Seq<Tree>, i: int, page: ViewState, s: Seq<char>) -> bool
    decreases weight_from(nodes, i), 1int,
{
    if i < 0 || i >= nodes.len() {
        true
    } else {
        proof {
            lemma_weight_one(nodes, i);
        }
        nodes[i].kind is ListItem && are_legible(nodes[i].children, 0, page, s) && are_items(
            nodes,
            i + 1,
            page,
            s,
        )
    }
}

/// Whether `nodes` are table rows of cells.
pub open spec fn are_rows(nodes: Seq<Tree>) -> bool {
    forall|i: int|
        0 <= i < nodes.len() ==> (#[trigger] nodes[i]).kind is TableRow && are_cells(
            nodes[i].children,
        )
}

/// Whether `nodes` are table cells.
pub open spec fn are_cells(nodes: Seq<Tree>) -> bool {
    forall|i: int| 0 <= i < nodes.len() ==> (#[trigger] nodes[i]).kind is TableCell
}

/// Whether `page` is searched for `q` and nothing the host knows changes its
/// text.
pub open spec fn searches(page: ViewState, q: Seq<char>) -> bool {
    page.query == Some(q) && page.host == bare().host
}

proof fn lemma_moved(a: int, x: int, y: int)
    requires
        0 <= a <= usize::MAX,
        0 <= x,
        0 <= y,
    ensures
        moved(moved(a, x), y) == moved(a, x + y),
        0 <= moved(a, x) <= usize::MAX,
{
}

proof fn lemma_inline(st: Paint, nodes: Seq<Tree>, sc: Scope, page: ViewState, q: Seq<char>)
    requires
        searches(page, q),
        sc.depth == 0,
    ensures
        paint_inline(st, nodes, sc, page).seen == moved(
            st.seen,
            matches_of(visible(nodes), q).len() as int,
        ),
{
    law_text_ignores_style(
        nothing(),
        nothing(),
        nodes,
        0,
        base_style(sc.done),
        plain_style(),
        Setting { host: page.host, defs: st.defs },
        bare(),
    );
}

proof fn lemma_pieces(
    st: Paint,
    pieces: Seq<Piece>,
    i: int,
    sc: Scope,
    page: ViewState,
    q: Seq<char>,
)
    requires
        searches(page, q),
        sc.depth == 0,
        0 <= st.seen <= usize::MAX,
    ensures
        paint_pieces(st, pieces, i, sc, page).seen == moved(
            st.seen,
            piece_hits(pieces, i, q) as int,
        ),
    decreases pieces.len() - i,
{
    if 0 <= i < pieces.len() {
        let next = match pieces[i] {
            Piece::Prose(nodes) => paint_inline(st, nodes, sc, page),
            Piece::Props(rows) => paint_rows(st, rows),
        };
        let later = piece_hits(pieces, i + 1, q) as int;
        match pieces[i] {
            Piece::Prose(nodes) => {
                lemma_inline(st, nodes, sc, page, q);
                lemma_moved(st.seen, matches_of(visible(nodes), q).len() as int, later);
            },
            Piece::Props(_) => {},
        }
        lemma_pieces(next, pieces, i + 1, sc, page, q);
    }
}

proof fn lemma_cells(
    st: Paint,
    cells: Seq<Tree>,
    i: int,
    g: Grid,
    sc: Scope,
    page: ViewState,
    s: Seq<char>,
    q: Seq<char>,
)
    requires
        searches(page, q),
        sc.depth == 0,
        0 <= st.seen <= usize::MAX,
        are_cells(cells),
    ensures
        paint_cells(st, cells, i, g, sc, page).seen == moved(
            st.seen,
            hits_from(cells, i, s, q) as int,
        ),
    decreases cells.len() - i,
{
    if 0 <= i < cells.len() {
        assert(cells[i].kind is TableCell);
        let open = Mark::OpenCell {
            align: crate::blocks::column_align(g.align, i),
            divider: crate::blocks::cell_divider(g.style, g.rtl, i, cells.len() as int),
            header: g.header,
        };
        let o = put(st, open);
        let next = put(paint_inline(o, cells[i].children, sc, page), Mark::Close);
        lemma_inline(o, cells[i].children, sc, page, q);
        lemma_moved(st.seen, hits(cells[i], s, q) as int, hits_from(cells, i + 1, s, q) as int);
        lemma_cells(next, cells, i + 1, g, sc, page, s, q);
    }
}

proof fn lemma_rows(
    st: Paint,
    rows: Seq<Tree>,
    i: int,
    g: Grid,
    sc: Scope,
    page: ViewState,
    s: Seq<char>,
    q: Seq<char>,
)
    requires
        searches(page, q),
        sc.depth == 0,
        0 <= st.seen <= usize::MAX,
        are_rows(rows),
    ensures
        paint_table_rows(st, rows, i, g, sc, page).seen == moved(
            st.seen,
            hits_from(rows, i, s, q) as int,
        ),
    decreases rows.len() - i,
{
    if 0 <= i < rows.len() {
        assert(rows[i].kind is TableRow);
        let open = Mark::OpenRow {
            divider: crate::blocks::row_divider(g.style, i),
            shaded: crate::blocks::row_shaded(g.style, i),
        };
        let h = Grid { header: i == 0, ..g };
        let o = put(st, open);
        let next = put(paint_cells(o, rows[i].children, 0, h, sc, page), Mark::Close);
        lemma_cells(o, rows[i].children, 0, h, sc, page, s, q);
        lemma_moved(st.seen, hits(rows[i], s, q) as int, hits_from(rows, i + 1, s, q) as int);
        lemma_rows(next, rows, i + 1, g, sc, page, s, q);
    }
}

proof fn lemma_table(
    st: Paint,
    n: Tree,
    style: TableStyle,
    widths: Option<Seq<Seq<char>>>,
    sc: Scope,
    page: ViewState,
    s: Seq<char>,
    q: Seq<char>,
)
    requires
        searches(page, q),
        sc.depth == 0,
        0 <= st.seen <= usize::MAX,
        n.kind is Table,
        are_rows(n.children),
    ensures
        paint_table(st, n, style, widths, sc, page, s).seen == moved(st.seen, hits(n, s, q) as int),
{
    let rtl = crate::page::reads_rtl(s, n.at);
    let open = Mark::OpenTable {
        style,
        widths,
        columns: crate::blocks::columns_upto(n.children, n.children.len() as int),
        rtl,
    };
    let g = Grid { style, rtl, align: n.align, header: false };
    lemma_rows(put(st, open), n.children, 0, g, sc, page, s, q);
}

proof fn lemma_block(st: Paint, n: Tree, sc: Scope, page: ViewState, s: Seq<char>, q: Seq<char>)
    requires
        searches(page, q),
        sc.depth == 0,
        0 <= st.seen <= usize::MAX,
        is_legible(n, page, s),
    ensures
        paint_block(st, n, sc, page, s).seen == moved(st.seen, hits(n, s, q) as int),
    decreases weight(n), 1int,
{
    match n.kind {
        Kind::Paragraph => {
            assert(embed_at(n.children, sc, page) == embed_at(n.children, top(), page));
            if all_rows(s, n.at) is None {
                match mixed_of(s, n.at, n.children) {
                    Some(pieces) => {
                        lemma_pieces(put(st, Mark::OpenColumn), pieces, 0, sc, page, q);
                    },
                    None => {
                        lemma_inline(st, n.children, sc, page, q);
                    },
                }
            }
        },
        Kind::Heading(depth) => {
            let open = Mark::OpenHeading {
                depth,
                tight: sc.tight,
                rtl: crate::page::reads_rtl(s, n.at),
                fold: crate::blocks::chevron(n.at, sc, page, s),
            };
            lemma_inline(put(st, open), n.children, sc, page, q);
        },
        Kind::List(ordered) => {
            lemma_list(st, n, ordered, 0, sc, page, s, q);
        },
        Kind::Blockquote => match callout_of(n.children) {
            Some(c) => {
                let open = Mark::OpenCallout {
                    kind: c.kind,
                    folded: c.fold,
                    at: c.marker,
                    live: page.alert_toggle && sc.depth == 0,
                    rtl: crate::page::reads_rtl(s, n.at),
                };
                law_callout_does_not_grow(n.children);
                if c.fold != Some(true) {
                    lemma_blocks(put(st, open), c.children, 0, sc, page, s, q);
                }
            },
            None => {
                let open = Mark::OpenQuote { rtl: crate::page::reads_rtl(s, n.at) };
                lemma_blocks(put(st, open), n.children, 0, sc, page, s, q);
            },
        },
        Kind::Table => {
            lemma_table(st, n, TableStyle::Grid, None, sc, page, s, q);
        },
        Kind::FootnoteDefinition { label, id } => {
            let open = Mark::OpenFootnote(
                match label {
                    Some(l) => l,
                    None => id,
                },
            );
            lemma_blocks(put(st, open), n.children, 0, sc, page, s, q);
        },
        _ => {},
    }
}

proof fn lemma_blocks(
    st: Paint,
    nodes: Seq<Tree>,
    i: int,
    sc: Scope,
    page: ViewState,
    s: Seq<char>,
    q: Seq<char>,
)
    requires
        searches(page, q),
        sc.depth == 0,
        0 <= st.seen <= usize::MAX,
        are_legible(nodes, i, page, s),
    ensures
        paint_blocks(st, nodes, i, sc, page, s).seen == moved(
            st.seen,
            hits_from(nodes, i, s, q) as int,
        ),
    decreases weight_from(nodes, i), 2int,
{
    if 0 <= i < nodes.len() {
        lemma_weight_one(nodes, i);
        let next = paint_block(st, nodes[i], sc, page, s);
        lemma_block(st, nodes[i], sc, page, s, q);
        lemma_moved(st.seen, hits(nodes[i], s, q) as int, hits_from(nodes, i + 1, s, q) as int);
        lemma_blocks(next, nodes, i + 1, sc, page, s, q);
    }
}

proof fn lemma_list(
    st: Paint,
    n: Tree,
    ordered: bool,
    level: int,
    sc: Scope,
    page: ViewState,
    s: Seq<char>,
    q: Seq<char>,
)
    requires
        searches(page, q),
        sc.depth == 0,
        0 <= st.seen <= usize::MAX,
        n.kind is List,
        is_legible(n, page, s),
    ensures
        paint_list(st, n, ordered, level, sc, page, s).seen == moved(st.seen, hits(n, s, q) as int),
    decreases weight(n), 0int,
{
    let o = put(st, Mark::OpenList { nested: level > 0 });
    lemma_items(o, n.children, 0, ordered, level, sc, page, s, q);
}

proof fn lemma_items(
    st: Paint,
    nodes: Seq<Tree>,
    i: int,
    ordered: bool,
    level: int,
    sc: Scope,
    page: ViewState,
    s: Seq<char>,
    q: Seq<char>,
)
    requires
        searches(page, q),
        sc.depth == 0,
        0 <= st.seen <= usize::MAX,
        are_items(nodes, i, page, s),
    ensures
        paint_items(st, nodes, i, ordered, level, sc, page, s).seen == moved(
            st.seen,
            hits_from(nodes, i, s, q) as int,
        ),
    decreases weight_from(nodes, i), 2int,
{
    if 0 <= i < nodes.len() {
        lemma_weight_one(nodes, i);
        let n = nodes[i];
        let checked = n.kind->ListItem_0;
        let marker = item_marker(n, checked, ordered, i, level, sc, page);
        let m = Mark::OpenItem {
            marker,
            lead: crate::blocks::lead_depth(n.children),
            guide: crate::blocks::has_list(n.children),
            rtl: crate::page::reads_rtl(s, n.at),
        };
        let done = checked == Some(true);
        let next = paint_item(st, n, checked, marker, level, sc, page, s);
        lemma_parts(put(st, m), n.children, 0, done, level, sc, page, s, q);
        lemma_moved(st.seen, hits(n, s, q) as int, hits_from(nodes, i + 1, s, q) as int);
        lemma_items(next, nodes, i + 1, ordered, level, sc, page, s, q);
    }
}

proof fn lemma_parts(
    st: Paint,
    nodes: Seq<Tree>,
    i: int,
    done: bool,
    level: int,
    sc: Scope,
    page: ViewState,
    s: Seq<char>,
    q: Seq<char>,
)
    requires
        searches(page, q),
        sc.depth == 0,
        0 <= st.seen <= usize::MAX,
        are_legible(nodes, i, page, s),
    ensures
        paint_parts(st, nodes, i, done, level, sc, page, s).seen == moved(
            st.seen,
            hits_from(nodes, i, s, q) as int,
        ),
    decreases weight_from(nodes, i), 2int,
{
    if 0 <= i < nodes.len() {
        lemma_weight_one(nodes, i);
        let inner = Scope { tight: i == 0, done, ..sc };
        let next = match nodes[i].kind {
            Kind::List(ordered) => paint_list(
                st,
                nodes[i],
                ordered,
                level_below(level),
                sc,
                page,
                s,
            ),
            _ => paint_block(st, nodes[i], inner, page, s),
        };
        match nodes[i].kind {
            Kind::List(ordered) => {
                lemma_list(st, nodes[i], ordered, level_below(level), sc, page, s, q);
            },
            _ => {
                lemma_block(st, nodes[i], inner, page, s, q);
            },
        }
        assert(is_legible(nodes[i], page, s));
        assert(nodes[i].kind is Heading ==> !is_folded(nodes[i].at, top(), page, s));
        assert(is_folded(nodes[i].at, sc, page, s) == is_folded(nodes[i].at, top(), page, s));
        lemma_moved(st.seen, hits(nodes[i], s, q) as int, hits_from(nodes, i + 1, s, q) as int);
        lemma_parts(next, nodes, i + 1, done, level, sc, page, s, q);
    }
}

proof fn lemma_root(
    st: Paint,
    nodes: Seq<Tree>,
    i: int,
    ix: int,
    pending: Option<(TableStyle, Option<Seq<Seq<char>>>)>,
    page: ViewState,
    s: Seq<char>,
    q: Seq<char>,
)
    requires
        searches(page, q),
        0 <= st.seen <= usize::MAX,
        are_legible(nodes, i, page, s),
    ensures
        paint_root(st, nodes, i, pending, None, top(), page, s).seen == moved(
            st.seen,
            found_from(nodes, i, ix, s, q).len() as int,
        ),
    decreases nodes.len() - i,
{
    if 0 <= i < nodes.len() {
        let n = nodes[i];
        let shows = crate::blocks::block_shows(n.kind);
        let jx = if shows {
            ix + 1
        } else {
            ix
        };
        let later = found_from(nodes, i + 1, jx, s, q).len() as int;
        lemma_moved(st.seen, hits(n, s, q) as int, later);
        assert(is_legible(n, page, s));
        assert(!shows ==> hits(n, s, q) == 0);
        assert(found_from(nodes, i, ix, s, q).len() == hits(n, s, q) + later);
        if table_marker(n.kind) is Some {
            lemma_root(st, nodes, i + 1, jx, table_marker(n.kind), page, s, q);
        } else if n.kind is Table {
            let (style, widths) = match pending {
                Some(m) => m,
                None => (TableStyle::Grid, None),
            };
            let next = paint_table(st, n, style, widths, top(), page, s);
            lemma_table(st, n, style, widths, top(), page, s, q);
            lemma_root(next, nodes, i + 1, jx, None, page, s, q);
        } else {
            let next = paint_block(st, n, top(), page, s);
            lemma_block(st, n, top(), page, s, q);
            assert(folds_below(n, top(), page, s) is None);
            lemma_root(next, nodes, i + 1, jx, None, page, s, q);
        }
    }
}

/// The search highlights exactly as many matches as are counted: folded callouts
/// and property panels hold none for either. Left out is what the host alone
/// decides: folded headings, embeds, and what it draws in place of a text.
pub proof fn law_search_paints_what_it_counts(
    nodes: Seq<Tree>,
    page: ViewState,
    s: Seq<char>,
    q: Seq<char>,
)
    requires
        q.len() > 0,
        searches(page, q),
        are_legible(nodes, 0, page, s),
        found_in(Some(nodes), s, q).len() <= usize::MAX,
    ensures
        painted(Some(nodes), page, s).seen == found_in(Some(nodes), s, q).len(),
{
    let st = Paint { defs: defs_with_all(seq![], nodes, 0), ..blank() };
    lemma_root(st, nodes, 0, 0, None, page, s, q);
}

} // verus!
