//! Nothing of a page is left out: what holds blocks paints each of them.
use crate::blocks::{
    folds_below, is_folded, is_hidden, item_marker, level_below, paint_block, paint_blocks,
    paint_item, paint_items, paint_list, paint_parts, paint_root, paint_table, paint_table_rows,
    table_marker, Grid,
};
use crate::doc::callout_of;
use crate::ops::{put, Mark, Marker, Paint};
use crate::page::{reads_rtl, Scope, ViewState};
use crate::painting::{
    law_block_is_whole, lemma_blocks, lemma_item, lemma_items, lemma_list, lemma_parts,
    lemma_root, lemma_table, lemma_table_rows,
};
use crate::tables::TableStyle;
use crate::tree::{Kind, Tree};
use vstd::prelude::*;

verus! {

/// Whether `b` is what `a` is, with steps behind it.
pub open spec fn goes_on(a: Paint, b: Paint) -> bool {
    &&& a.ops.len() <= b.ops.len()
    &&& forall|k: int| 0 <= k < a.ops.len() ==> #[trigger] b.ops[k] == a.ops[k]
}

/// Whether painting from `a` to `b` comes by `x`, and from there to `y`.
pub open spec fn comes_by(a: Paint, x: Paint, y: Paint, b: Paint) -> bool {
    goes_on(a, x) && goes_on(y, b)
}

proof fn lemma_on(a: Paint, b: Paint, c: Paint)
    requires
        goes_on(a, b),
        goes_on(b, c),
    ensures
        goes_on(a, c),
{
    assert forall|k: int| 0 <= k < a.ops.len() implies #[trigger] c.ops[k] == a.ops[k] by {
        assert(b.ops[k] == a.ops[k]);
    }
}

proof fn lemma_put_on(a: Paint, m: Mark)
    ensures
        goes_on(a, put(a, m)),
{
}

/// Among blocks, each is painted.
pub proof fn law_every_block_is_painted(
    st: Paint,
    nodes: Seq<Tree>,
    i: int,
    k: int,
    sc: Scope,
    page: ViewState,
    s: Seq<char>,
)
    requires
        0 <= i <= k < nodes.len(),
    ensures
        exists|x: Paint| #[trigger]
            comes_by(
                st,
                x,
                paint_block(x, nodes[k], sc, page, s),
                paint_blocks(st, nodes, i, sc, page, s),
            ),
    decreases k - i,
{
    let next = paint_block(st, nodes[i], sc, page, s);
    let end = paint_blocks(st, nodes, i, sc, page, s);
    law_block_is_whole(st, nodes[i], sc, page, s);
    lemma_blocks(next, nodes, i + 1, sc, page, s);
    if i == k {
        assert(comes_by(st, st, next, end));
    } else {
        law_every_block_is_painted(next, nodes, i + 1, k, sc, page, s);
        let x = choose|x: Paint| #[trigger]
            comes_by(next, x, paint_block(x, nodes[k], sc, page, s), end);
        lemma_on(st, next, x);
        assert(comes_by(st, x, paint_block(x, nodes[k], sc, page, s), end));
    }
}

/// Among the items of a list, each is painted, with the marker of its place.
pub proof fn law_every_item_is_painted(
    st: Paint,
    nodes: Seq<Tree>,
    i: int,
    k: int,
    checked: Option<bool>,
    ordered: bool,
    level: int,
    sc: Scope,
    page: ViewState,
    s: Seq<char>,
)
    requires
        0 <= i <= k < nodes.len(),
        nodes[k].kind == Kind::<Seq<char>>::ListItem(checked),
    ensures
        exists|x: Paint| #[trigger]
            comes_by(
                st,
                x,
                paint_item(
                    x,
                    nodes[k],
                    checked,
                    item_marker(nodes[k], checked, ordered, k, level, sc, page),
                    level,
                    sc,
                    page,
                    s,
                ),
                paint_items(st, nodes, i, ordered, level, sc, page, s),
            ),
    decreases k - i,
{
    let next = match nodes[i].kind {
        Kind::ListItem(c) => paint_item(
            st,
            nodes[i],
            c,
            item_marker(nodes[i], c, ordered, i, level, sc, page),
            level,
            sc,
            page,
            s,
        ),
        _ => st,
    };
    let end = paint_items(st, nodes, i, ordered, level, sc, page, s);
    if let Kind::ListItem(c) = nodes[i].kind {
        lemma_item(
            st,
            nodes[i],
            c,
            item_marker(nodes[i], c, ordered, i, level, sc, page),
            level,
            sc,
            page,
            s,
        );
    }
    lemma_items(next, nodes, i + 1, ordered, level, sc, page, s);
    let m = item_marker(nodes[k], checked, ordered, k, level, sc, page);
    if i == k {
        assert(comes_by(st, st, next, end));
    } else {
        law_every_item_is_painted(
            next,
            nodes,
            i + 1,
            k,
            checked,
            ordered,
            level,
            sc,
            page,
            s,
        );
        let x = choose|x: Paint| #[trigger]
            comes_by(next, x, paint_item(x, nodes[k], checked, m, level, sc, page, s), end);
        lemma_on(st, next, x);
        assert(comes_by(st, x, paint_item(x, nodes[k], checked, m, level, sc, page, s), end));
    }
}

/// Where the part of an item at `k` is painted: a heading that comes first drops
/// the room above it.
pub open spec fn part_scope(sc: Scope, k: int, done: bool) -> Scope {
    Scope { tight: k == 0, done, ..sc }
}

/// Whether an item is a task that is done.
pub open spec fn is_done(checked: Option<bool>) -> bool {
    checked == Some(true)
}

/// Among the parts of a list item, each up to the first folded heading is
/// painted: a list one level further in, any other block as a block.
pub proof fn law_every_part_is_painted(
    st: Paint,
    nodes: Seq<Tree>,
    i: int,
    k: int,
    done: bool,
    level: int,
    sc: Scope,
    page: ViewState,
    s: Seq<char>,
)
    requires
        0 <= i <= k < nodes.len(),
        forall|j: int|
            i <= j < k ==> !((#[trigger] nodes[j]).kind is Heading && is_folded(
                nodes[j].at,
                sc,
                page,
                s,
            )),
    ensures
        !(nodes[k].kind is List) ==> exists|x: Paint| #[trigger]
            comes_by(
                st,
                x,
                paint_block(x, nodes[k], part_scope(sc, k, done), page, s),
                paint_parts(st, nodes, i, done, level, sc, page, s),
            ),
        nodes[k].kind matches Kind::List(ordered) ==> exists|x: Paint| #[trigger]
            comes_by(
                st,
                x,
                paint_list(x, nodes[k], ordered, level_below(level), sc, page, s),
                paint_parts(st, nodes, i, done, level, sc, page, s),
            ),
    decreases k - i,
{
    let here = part_scope(sc, i, done);
    let next = match nodes[i].kind {
        Kind::List(ordered) => paint_list(
            st,
            nodes[i],
            ordered,
            level_below(level),
            sc,
            page,
            s,
        ),
        _ => paint_block(st, nodes[i], here, page, s),
    };
    let end = paint_parts(st, nodes, i, done, level, sc, page, s);
    match nodes[i].kind {
        Kind::List(ordered) => lemma_list(
            st,
            nodes[i],
            ordered,
            level_below(level),
            sc,
            page,
            s,
        ),
        _ => law_block_is_whole(st, nodes[i], here, page, s),
    }
    assert(goes_on(st, next));
    lemma_parts(next, nodes, i + 1, done, level, sc, page, s);
    if i == k {
        assert(comes_by(st, st, next, end));
    } else {
        law_every_part_is_painted(next, nodes, i + 1, k, done, level, sc, page, s);
        match nodes[k].kind {
            Kind::List(ordered) => {
                let x = choose|x: Paint| #[trigger]
                    comes_by(
                        next,
                        x,
                        paint_list(x, nodes[k], ordered, level_below(level), sc, page, s),
                        end,
                    );
                lemma_on(st, next, x);
                assert(comes_by(
                    st,
                    x,
                    paint_list(x, nodes[k], ordered, level_below(level), sc, page, s),
                    end,
                ));
            },
            _ => {
                let there = part_scope(sc, k, done);
                let x = choose|x: Paint| #[trigger]
                    comes_by(next, x, paint_block(x, nodes[k], there, page, s), end);
                lemma_on(st, next, x);
                assert(comes_by(st, x, paint_block(x, nodes[k], there, page, s), end));
            },
        }
    }
}

/// On a page with nothing folded each block is painted.
pub proof fn law_every_block_of_a_page_is_painted(
    st: Paint,
    nodes: Seq<Tree>,
    i: int,
    k: int,
    pending: Option<(TableStyle, Option<Seq<Seq<char>>>)>,
    sc: Scope,
    page: ViewState,
    s: Seq<char>,
)
    requires
        0 <= i <= k < nodes.len(),
        page.folded.len() == 0,
        !(nodes[k].kind is Table),
        table_marker(nodes[k].kind) is None,
    ensures
        exists|x: Paint| #[trigger]
            comes_by(
                st,
                x,
                paint_block(x, nodes[k], sc, page, s),
                paint_root(st, nodes, i, pending, None, sc, page, s),
            ),
    decreases k - i,
{
    let end = paint_root(st, nodes, i, pending, None, sc, page, s);
    assert(!is_hidden(nodes[i], None));
    assert(folds_below(nodes[i], sc, page, s) is None);
    let (next, left) = if table_marker(nodes[i].kind) is Some {
        (st, table_marker(nodes[i].kind))
    } else if nodes[i].kind is Table {
        let (style, widths) = match pending {
            Some(m) => m,
            None => (TableStyle::Grid, None),
        };
        lemma_table(st, nodes[i], style, widths, sc, page, s);
        (paint_table(st, nodes[i], style, widths, sc, page, s), None)
    } else {
        law_block_is_whole(st, nodes[i], sc, page, s);
        (paint_block(st, nodes[i], sc, page, s), None)
    };
    assert(goes_on(st, next));
    assert(end == paint_root(next, nodes, i + 1, left, None, sc, page, s));
    lemma_root(next, nodes, i + 1, left, None, sc, page, s);
    if i == k {
        assert(comes_by(st, st, next, end));
    } else {
        law_every_block_of_a_page_is_painted(next, nodes, i + 1, k, left, sc, page, s);
        let x = choose|x: Paint| #[trigger]
            comes_by(next, x, paint_block(x, nodes[k], sc, page, s), end);
        lemma_on(st, next, x);
        assert(comes_by(st, x, paint_block(x, nodes[k], sc, page, s), end));
    }
}

/// What holds blocks paints them inside itself: a quote and a footnote their
/// blocks, a list its items, an item its parts.
pub proof fn law_containers_paint_what_they_hold(
    st: Paint,
    n: Tree,
    ordered: bool,
    checked: Option<bool>,
    marker: Marker<Seq<char>>,
    level: int,
    sc: Scope,
    page: ViewState,
    s: Seq<char>,
)
    ensures
        n.kind is Blockquote && callout_of(n.children) is None ==> goes_on(
            paint_blocks(
                put(st, Mark::OpenQuote { rtl: reads_rtl(s, n.at) }),
                n.children,
                0,
                sc,
                page,
                s,
            ),
            paint_block(st, n, sc, page, s),
        ),
        n.kind matches Kind::FootnoteDefinition { label, id } ==> goes_on(
            paint_blocks(
                put(
                    st,
                    Mark::OpenFootnote(
                        if label is Some {
                            label->0
                        } else {
                            id
                        },
                    ),
                ),
                n.children,
                0,
                sc,
                page,
                s,
            ),
            paint_block(st, n, sc, page, s),
        ),
        n.kind == Kind::<Seq<char>>::List(ordered) ==> goes_on(
            paint_items(
                put(st, Mark::OpenList { nested: false }),
                n.children,
                0,
                ordered,
                0,
                sc,
                page,
                s,
            ),
            paint_block(st, n, sc, page, s),
        ),
        goes_on(
            paint_items(
                put(st, Mark::OpenList { nested: level > 0 }),
                n.children,
                0,
                ordered,
                level,
                sc,
                page,
                s,
            ),
            paint_list(st, n, ordered, level, sc, page, s),
        ),
        exists|x: Paint|
            goes_on(st, x) && #[trigger] goes_on(
                paint_parts(x, n.children, 0, is_done(checked), level, sc, page, s),
                paint_item(st, n, checked, marker, level, sc, page, s),
            ),
{
    let open = Mark::OpenItem {
        marker,
        lead: crate::blocks::lead_depth(n.children),
        guide: crate::blocks::has_list(n.children),
        rtl: reads_rtl(s, n.at),
    };
    let x = put(st, open);
    lemma_put_on(st, open);
    assert(goes_on(
        paint_parts(x, n.children, 0, is_done(checked), level, sc, page, s),
        paint_item(st, n, checked, marker, level, sc, page, s),
    ));
}

/// A marker right above a table gives the table its style and its widths and is
/// itself not shown; a table without one is a grid.
pub proof fn law_a_marker_styles_its_table(
    st: Paint,
    nodes: Seq<Tree>,
    i: int,
    style: TableStyle,
    widths: Option<Seq<Seq<char>>>,
    sc: Scope,
    page: ViewState,
    s: Seq<char>,
)
    requires
        0 <= i,
        i + 1 < nodes.len(),
        nodes[i + 1].kind is Table,
    ensures
        table_marker(nodes[i].kind) == Some((style, widths)) ==> {
            let end = paint_root(st, nodes, i, None, None, sc, page, s);
            let head = end.ops[st.ops.len() as int];
            &&& st.ops.len() < end.ops.len()
            &&& goes_on(st, end)
            &&& head is OpenTable
            &&& head->style == style
            &&& head->widths == widths
        },
        ({
            let end = paint_root(st, nodes, i + 1, None, None, sc, page, s);
            let head = end.ops[st.ops.len() as int];
            &&& st.ops.len() < end.ops.len()
            &&& goes_on(st, end)
            &&& head is OpenTable
            &&& head->style == TableStyle::Grid
            &&& head->widths is None
        }),
{
    let t = nodes[i + 1];
    assert(!is_hidden(t, None) && !is_hidden(nodes[i], None));
    assert(table_marker(t.kind) is None);
    if table_marker(nodes[i].kind) == Some((style, widths)) {
        assert(!(nodes[i].kind is Table));
        assert(paint_root(st, nodes, i, None, None, sc, page, s) == paint_root(
            st,
            nodes,
            i + 1,
            Some((style, widths)),
            None,
            sc,
            page,
            s,
        ));
        assert(paint_root(st, nodes, i + 1, Some((style, widths)), None, sc, page, s)
            == paint_root(
            paint_table(st, t, style, widths, sc, page, s),
            nodes,
            i + 2,
            None,
            None,
            sc,
            page,
            s,
        ));
        lemma_table_head(st, t, style, widths, sc, page, s);
        lemma_root(
            paint_table(st, t, style, widths, sc, page, s),
            nodes,
            i + 2,
            None,
            None,
            sc,
            page,
            s,
        );
    }
    lemma_table_head(st, t, TableStyle::Grid, None, sc, page, s);
    lemma_root(
        paint_table(st, t, TableStyle::Grid, None, sc, page, s),
        nodes,
        i + 2,
        None,
        None,
        sc,
        page,
        s,
    );
}

proof fn lemma_table_head(
    st: Paint,
    n: Tree,
    style: TableStyle,
    widths: Option<Seq<Seq<char>>>,
    sc: Scope,
    page: ViewState,
    s: Seq<char>,
)
    ensures
        ({
            let r = paint_table(st, n, style, widths, sc, page, s);
            let head = r.ops[st.ops.len() as int];
            &&& st.ops.len() < r.ops.len()
            &&& goes_on(st, r)
            &&& head is OpenTable
            &&& head->style == style
            &&& head->widths == widths
        }),
{
    let rtl = reads_rtl(s, n.at);
    let open = Mark::OpenTable {
        style,
        widths,
        columns: crate::blocks::columns_upto(n.children, n.children.len() as int),
        rtl,
    };
    let g = Grid { style, rtl, align: n.align, header: false };
    let o = put(st, open);
    lemma_table_rows(o, n.children, 0, g, sc, page);
    let m = paint_table_rows(o, n.children, 0, g, sc, page);
    lemma_put_on(st, open);
    lemma_on(st, o, m);
    lemma_put_on(m, Mark::Close);
    lemma_on(st, m, put(m, Mark::Close));
    assert(m.ops[st.ops.len() as int] == o.ops[st.ops.len() as int]);
}

} // verus!
