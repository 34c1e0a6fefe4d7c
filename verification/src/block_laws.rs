//! How blocks are painted, told by what a reader sees: the cells of a table, the
//! marks of list items, what a fold hides, and what an embed brings in.
use crate::alerts::{marker, AlertKind};
use crate::blocks::{
    cell_divider, column_align, embed_at, folds_below, is_hidden, item_marker, paint_block,
    paint_blocks, paint_cells, paint_root, row_divider, row_shaded, table_marker, Grid,
};
use crate::content_laws::{inline_text, lemma_inline_text};
use crate::doc::{callout_of, defs_with, defs_with_all, display_from, embed_in, fold_key};
use crate::images::{below_image, lead_image, Picture};
use crate::inline::url_from;
use crate::inline_laws::law_styles_reach_inside;
use crate::lists::number_of;
use crate::number_laws::{law_markers_read_back, letters_value, roman_value};
use crate::ops::{put, Mark, Paint};
use crate::page::{base_style, embed_from, paint_inline, shown_of, Scope, ViewState};
use crate::rows::{all_rows, mixed_of, RowView};
use crate::tables::TableStyle;
use crate::tree::{Align, Kind, Tree};
use vstd::prelude::*;

verus! {

// --- Tables ---

/// Whether `ops` from `at` on is a cell round `nodes`.
pub open spec fn is_cell(
    ops: Seq<Mark>,
    at: int,
    nodes: Seq<Tree>,
    header: bool,
    align: Align,
    divider: bool,
    page: ViewState,
) -> bool {
    &&& 0 <= at
    &&& at + 3 <= ops.len()
    &&& ops[at] == Mark::OpenCell { align, divider, header }
    &&& ops[at + 1] matches Mark::Inline { shown, .. } && shown.text == inline_text(nodes, page)
    &&& ops[at + 2] is Close
}

proof fn lemma_cells(
    st: Paint,
    cells: Seq<Tree>,
    i: int,
    g: Grid,
    sc: Scope,
    page: ViewState,
)
    requires
        0 <= i <= cells.len(),
        forall|k: int| 0 <= k < cells.len() ==> (#[trigger] cells[k]).kind is TableCell,
    ensures
        ({
            let ops = paint_cells(st, cells, i, g, sc, page).ops;
            let a = st.ops.len() as int;
            &&& ops.len() == a + 3 * (cells.len() - i)
            &&& ops.take(a) == st.ops
            &&& forall|k: int|
                i <= k < cells.len() ==> is_cell(
                    ops,
                    a + 3 * (k - i),
                    (#[trigger] cells[k]).children,
                    g.header,
                    column_align(g.align, k),
                    cell_divider(g.style, g.rtl, k, cells.len() as int),
                    page,
                )
        }),
    decreases cells.len() - i,
{
    let r = paint_cells(st, cells, i, g, sc, page);
    let a = st.ops.len() as int;
    if i < cells.len() {
        assert(cells[i].kind is TableCell);
        let open = Mark::OpenCell {
            align: column_align(g.align, i),
            divider: cell_divider(g.style, g.rtl, i, cells.len() as int),
            header: g.header,
        };
        let o = put(st, open);
        let m = paint_inline(o, cells[i].children, sc, page);
        let next = put(m, Mark::Close);
        lemma_inline_text(o, cells[i].children, sc, page);
        lemma_cells(next, cells, i + 1, g, sc, page);
        assert(next.ops.len() == a + 3);
        assert(next.ops.take(a) =~= st.ops) by {
            assert forall|j: int| 0 <= j < a implies next.ops[j] == st.ops[j] by {
                assert(m.ops.drop_last()[j] == o.ops[j]);
            }
        }
        assert(m.ops.drop_last()[a] == open);
        assert(is_cell(
            next.ops,
            a,
            cells[i].children,
            g.header,
            column_align(g.align, i),
            cell_divider(g.style, g.rtl, i, cells.len() as int),
            page,
        ));
        assert forall|j: int| 0 <= j < a + 3 implies r.ops[j] == next.ops[j] by {
            assert(r.ops.take(a + 3)[j] == r.ops[j]);
        }
        assert(r.ops.take(a) =~= st.ops) by {
            assert forall|j: int| 0 <= j < a implies r.ops[j] == st.ops[j] by {
                assert(next.ops.take(a)[j] == next.ops[j]);
            }
        }
        assert forall|k: int| i <= k < cells.len() implies is_cell(
            r.ops,
            a + 3 * (k - i),
            (#[trigger] cells[k]).children,
            g.header,
            column_align(g.align, k),
            cell_divider(g.style, g.rtl, k, cells.len() as int),
            page,
        ) by {
            if k > i {
                assert(a + 3 + 3 * (k - (i + 1)) == a + 3 * (k - i));
            }
        }
    } else {
        assert(r.ops.take(a) =~= st.ops);
    }
}

/// Each cell of a row is shown once, in order, with the text of its nodes and
/// the alignment of its column. In a grid there is a rule between any two
/// neighbours and none at the edge of the table; in other styles there is none.
pub proof fn law_cells_show_their_text(
    st: Paint,
    cells: Seq<Tree>,
    g: Grid,
    sc: Scope,
    page: ViewState,
)
    requires
        forall|k: int| 0 <= k < cells.len() ==> (#[trigger] cells[k]).kind is TableCell,
    ensures
        ({
            let ops = paint_cells(st, cells, 0, g, sc, page).ops;
            let a = st.ops.len() as int;
            let n = cells.len() as int;
            &&& ops.len() == a + 3 * n
            &&& ops.take(a) == st.ops
            &&& forall|k: int|
                0 <= k < n ==> is_cell(
                    ops,
                    a + 3 * k,
                    (#[trigger] cells[k]).children,
                    g.header,
                    if k < g.align.len() {
                        g.align[k]
                    } else {
                        Align::Unset
                    },
                    g.style == TableStyle::Grid && k != if g.rtl {
                        0
                    } else {
                        n - 1
                    },
                    page,
                )
        }),
{
    lemma_cells(st, cells, 0, g, sc, page);
    let ops = paint_cells(st, cells, 0, g, sc, page).ops;
    let a = st.ops.len() as int;
    assert forall|k: int| 0 <= k < cells.len() implies is_cell(
        ops,
        a + 3 * k,
        (#[trigger] cells[k]).children,
        g.header,
        if k < g.align.len() {
            g.align[k]
        } else {
            Align::Unset
        },
        g.style == TableStyle::Grid && k != if g.rtl {
            0
        } else {
            cells.len() - 1
        },
        page,
    ) by {
        assert(a + 3 * (k - 0) == a + 3 * k);
    }
}

/// What the styles of a table look like: a grid has a rule above every row but
/// the first, striped rows alternate, a minimal table has one rule below its
/// header, and a headed one shades it; nothing else is ruled or shaded.
pub proof fn law_table_styles(i: int)
    requires
        0 <= i,
    ensures
        row_divider(TableStyle::Grid, i) <==> i > 0,
        !row_shaded(TableStyle::Grid, i),
        i > 0 ==> row_shaded(TableStyle::Striped, i) != row_shaded(TableStyle::Striped, i + 1),
        !row_shaded(TableStyle::Striped, 0) && !row_shaded(TableStyle::Striped, 1),
        row_divider(TableStyle::Striped, i) == row_divider(TableStyle::Minimal, i),
        row_divider(TableStyle::Minimal, i) <==> i == 1,
        !row_shaded(TableStyle::Minimal, i),
        row_shaded(TableStyle::Header, i) <==> i == 0,
        !row_divider(TableStyle::Header, i),
{
}

// --- List items ---

/// An ordered item is led by its number, counted from one and read back from
/// its marker; a task by its box, which leads to the item's source where tasks
/// can be ticked; any other item by a bullet.
pub proof fn law_items_are_marked(
    n: Tree,
    checked: Option<bool>,
    ordered: bool,
    i: int,
    level: int,
    sc: Scope,
    page: ViewState,
)
    requires
        0 <= i < u32::MAX,
        0 <= level,
    ensures
        ({
            let m = item_marker(n, checked, ordered, i, level, sc, page);
            &&& checked is None && !ordered ==> m is Bullet
            &&& checked is None && ordered ==> {
                let s = m->Number_0;
                &&& m is Number
                &&& s.len() > 0
                &&& s.last() == '.'
                &&& level % 3 == 0 ==> number_of(s.drop_last()) == i + 1
                &&& level % 3 == 1 ==> letters_value(s.drop_last()) == i + 1
                &&& level % 3 == 2 ==> roman_value(s.drop_last()) == i + 1
            }
            &&& checked is Some ==> m is Task && m->done == checked->0
            &&& checked is Some && n.at is Some && page.task_toggle && sc.depth == 0 ==> m->at
                == Some(n.at->0.start)
            &&& checked is Some && (n.at is None || !page.task_toggle || sc.depth > 0)
                ==> m->at is None
        }),
{
    law_markers_read_back(level as nat, (i + 1) as nat);
}

/// All text of a done task is struck through.
pub proof fn law_done_tasks_are_struck(
    st: Paint,
    nodes: Seq<Tree>,
    sc: Scope,
    page: ViewState,
    k: int,
)
    requires
        sc.done,
        0 <= k < shown_of(st, nodes, sc, page).runs.len(),
    ensures
        shown_of(st, nodes, sc, page).runs[k].2.strike,
{
    law_styles_reach_inside(
        crate::inline::nothing(),
        nodes,
        0,
        base_style(true),
        crate::inline::Setting { host: page.host, defs: st.defs },
    );
}

// --- Folding ---

/// Whether the nodes from `i` to `j` all belong to the section of a heading of
/// `depth` before them.
pub open spec fn is_section(nodes: Seq<Tree>, i: int, j: int, depth: u8) -> bool {
    forall|k: int|
        i <= k < j ==> match (#[trigger] nodes[k]).kind {
            Kind::Heading(d) => d > depth,
            _ => true,
        }
}

proof fn lemma_hidden(
    st: Paint,
    nodes: Seq<Tree>,
    i: int,
    j: int,
    depth: u8,
    sc: Scope,
    page: ViewState,
    s: Seq<char>,
)
    requires
        0 <= i <= j <= nodes.len(),
        is_section(nodes, i, j, depth),
    ensures
        paint_root(st, nodes, i, None, Some(depth), sc, page, s) == paint_root(
            st,
            nodes,
            j,
            None,
            Some(depth),
            sc,
            page,
            s,
        ),
    decreases j - i,
{
    if i < j {
        assert(is_hidden(nodes[i], Some(depth)));
        lemma_hidden(st, nodes, i + 1, j, depth, sc, page, s);
    }
}

/// A folded heading hides its section, up to the next heading that is no deeper
/// or the end of the page, and nothing else; a heading that is not folded hides
/// nothing. Folded are the headings of the page itself whose first line is
/// listed.
pub proof fn law_a_folded_heading_hides_its_section(
    st: Paint,
    nodes: Seq<Tree>,
    i: int,
    j: int,
    depth: u8,
    sc: Scope,
    page: ViewState,
    s: Seq<char>,
)
    requires
        0 <= i < j <= nodes.len(),
        nodes[i].kind == Kind::<Seq<char>>::Heading(depth),
        is_section(nodes, i + 1, j, depth),
        j < nodes.len() ==> (nodes[j].kind matches Kind::Heading(d) && d <= depth),
    ensures
        ({
            let folded = sc.depth == 0 && fold_key(s, nodes[i].at) is Some && page.folded.contains(
                fold_key(s, nodes[i].at)->0,
            );
            let next = if folded {
                j
            } else {
                i + 1
            };
            paint_root(st, nodes, i, None, None, sc, page, s) == paint_root(
                paint_block(st, nodes[i], sc, page, s),
                nodes,
                next,
                None,
                None,
                sc,
                page,
                s,
            )
        }),
{
    let st2 = paint_block(st, nodes[i], sc, page, s);
    assert(table_marker(nodes[i].kind) is None);
    assert(!is_hidden(nodes[i], None));
    if folds_below(nodes[i], sc, page, s) is Some {
        lemma_hidden(st2, nodes, i + 1, j, depth, sc, page, s);
        if j < nodes.len() {
            assert(!is_hidden(nodes[j], Some(depth)));
        }
    }
}

/// A folded callout shows its head alone; an open one shows what it holds
/// between its head and its end.
pub proof fn law_a_folded_callout_hides_its_body(
    st: Paint,
    n: Tree,
    sc: Scope,
    page: ViewState,
    s: Seq<char>,
)
    requires
        n.kind is Blockquote,
        callout_of(n.children) is Some,
    ensures
        ({
            let c = callout_of(n.children)->0;
            let ops = paint_block(st, n, sc, page, s).ops;
            let a = st.ops.len() as int;
            let head = Mark::OpenCallout {
                kind: c.kind,
                folded: c.fold,
                at: c.marker,
                live: page.alert_toggle && sc.depth == 0,
                rtl: crate::page::reads_rtl(s, n.at),
            };
            &&& c.fold == Some(true) ==> ops == st.ops.push(head).push(Mark::Close)
            &&& c.fold != Some(true) ==> ops == paint_blocks(
                put(st, head),
                c.children,
                0,
                sc,
                page,
                s,
            ).ops.push(Mark::Close)
        }),
{
}

// --- Embeds ---

/// A paragraph that embeds a page shows it in a frame of its own with the page's
/// name and label: the page's text where it is not parsed, its blocks where it
/// is. Embeds in embeds stop at a depth.
pub proof fn law_an_embed_shows_its_page(
    st: Paint,
    n: Tree,
    k: int,
    sc: Scope,
    page: ViewState,
    s: Seq<char>,
)
    requires
        n.kind is Paragraph,
        embed_in(n.children) is Some,
        0 <= k < page.embeds.len(),
        page.embeds[k].target == embed_in(n.children)->0,
        forall|j: int| 0 <= j < k ==> (#[trigger] page.embeds[j]).target != page.embeds[k].target,
    ensures
        ({
            let e = page.embeds[k];
            let r = paint_block(st, n, sc, page, s);
            let head = Mark::OpenEmbed { target: e.target, label: e.label };
            &&& sc.depth < 3 && e.blocks is None ==> r.ops == st.ops.push(head).push(
                Mark::Plain(e.content),
            ).push(Mark::Close)
            &&& sc.depth < 3 && e.blocks is Some ==> r.ops == paint_root(
                Paint {
                    ops: st.ops.push(head),
                    seen: st.seen,
                    defs: defs_with_all(st.defs, e.blocks->0, 0),
                },
                e.blocks->0,
                0,
                None,
                None,
                Scope { depth: (sc.depth + 1) as usize, tight: sc.tight, done: sc.done },
                page,
                e.content,
            ).ops.push(Mark::Close)
            &&& sc.depth >= 3 ==> embed_at(n.children, sc, page) is None
        }),
{
    lemma_first_embed(page, embed_in(n.children)->0, 0, k);
}

proof fn lemma_first_embed(page: ViewState, target: Seq<char>, i: int, k: int)
    requires
        0 <= i <= k < page.embeds.len(),
        page.embeds[k].target == target,
        forall|j: int| i <= j < k ==> (#[trigger] page.embeds[j]).target != target,
    ensures
        embed_from(page.embeds, target, i) == Some(k),
    decreases k - i,
{
    if i < k {
        lemma_first_embed(page, target, i + 1, k);
    }
}

// --- Definitions ---

/// Whether `n` or a node below it defines `id`.
pub open spec fn defines(n: Tree, id: Seq<char>) -> bool
    decreases n, 0int,
{
    ||| n.kind matches Kind::Definition { id: own, .. } && own == id
    ||| defines_from(n.children, 0, id)
}

/// Whether a node from `i` on, or one below it, defines `id`.
pub open spec fn defines_from(nodes: Seq<Tree>, i: int, id: Seq<char>) -> bool
    decreases nodes, nodes.len() - i,
{
    0 <= i < nodes.len() && (defines(nodes[i], id) || defines_from(nodes, i + 1, id))
}

proof fn lemma_url_at(defs: Seq<(Seq<char>, Seq<char>)>, more: (Seq<char>, Seq<char>), id: Seq<char>, i: int)
    requires
        0 <= i <= defs.len(),
    ensures
        url_from(defs, id, i) is Some ==> url_from(defs.push(more), id, i) == url_from(defs, id, i),
        url_from(defs, id, i) is None && more.0 == id ==> url_from(defs.push(more), id, i) == Some(
            more.1,
        ),
        url_from(defs, id, i) is None && more.0 != id ==> url_from(defs.push(more), id, i) is None,
    decreases defs.len() - i,
{
    let all = defs.push(more);
    if i < defs.len() {
        assert(all[i] == defs[i]);
        lemma_url_at(defs, more, id, i + 1);
    } else {
        assert(all[i] == more);
        assert(url_from(all, id, i + 1) is None);
    }
}

proof fn lemma_defined_all(
    defs: Seq<(Seq<char>, Seq<char>)>,
    nodes: Seq<Tree>,
    i: int,
    id: Seq<char>,
)
    requires
        0 <= i <= nodes.len(),
    ensures
        ({
            let r = url_from(defs_with_all(defs, nodes, i), id, 0);
            &&& url_from(defs, id, 0) is Some ==> r == url_from(defs, id, 0)
            &&& url_from(defs, id, 0) is None ==> (r is Some <==> defines_from(nodes, i, id))
        }),
    decreases nodes, nodes.len() - i,
{
    if i < nodes.len() {
        let next = defs_with(defs, nodes[i]);
        law_the_first_definition_holds(defs, nodes[i], id);
        lemma_defined_all(next, nodes, i + 1, id);
    }
}

/// Collecting definitions finds every name that is defined anywhere below a
/// node and no other; a name that was defined before keeps its URL, and the
/// node's own definition comes before those below it.
pub proof fn law_the_first_definition_holds(
    defs: Seq<(Seq<char>, Seq<char>)>,
    n: Tree,
    id: Seq<char>,
)
    ensures
        ({
            let r = url_from(defs_with(defs, n), id, 0);
            &&& url_from(defs, id, 0) is Some ==> r == url_from(defs, id, 0)
            &&& url_from(defs, id, 0) is None ==> (r is Some <==> defines(n, id))
            &&& url_from(defs, id, 0) is None && n.kind is Definition && n.kind->Definition_id == id
                ==> r == Some(n.kind->Definition_url)
        }),
    decreases n, 0int,
{
    let own = match n.kind {
        Kind::Definition { id: name, url } => if url_from(defs, name, 0) is Some {
            defs
        } else {
            defs.push((name, url))
        },
        _ => defs,
    };
    if let Kind::Definition { id: name, url } = n.kind {
        lemma_url_at(defs, (name, url), id, 0);
    }
    lemma_defined_all(own, n.children, 0, id);
}

// --- Paragraphs of their own kind ---

/// A paragraph that is a leading image shows the image, with its width where
/// that is known to hold, and below it the text that stands behind it.
pub proof fn law_a_leading_image_is_shown(
    st: Paint,
    n: Tree,
    pic: Picture,
    sc: Scope,
    page: ViewState,
    s: Seq<char>,
)
    requires
        n.kind is Paragraph,
        embed_at(n.children, sc, page) is None,
        !page.math || display_from(n.children, s, 0, None) is None,
        all_rows(s, n.at) is None,
        mixed_of(s, n.at, n.children) is None,
        if sc.depth == 0 {
            page.images
        } else {
            page.embed_images
        },
        lead_image(n.children) == Some(pic),
    ensures
        ({
            let ops = paint_block(st, n, sc, page, s).ops;
            let k = st.ops.len() as int;
            let sized = pic.width is Some && page.widths.contains(pic.width->0);
            let rest = below_image(n.children, sized);
            &&& rest.len() == 0 ==> ops == st.ops.push(Mark::Image { info: pic, sized })
            &&& rest.len() > 0 ==> {
                &&& ops.len() == k + 4
                &&& ops.take(k) == st.ops
                &&& ops[k] is OpenColumn
                &&& ops[k + 1] == Mark::Image { info: pic, sized }
                &&& ops[k + 2] matches Mark::Inline { shown, .. } && shown.text == inline_text(
                    rest,
                    page,
                )
                &&& ops[k + 3] is Close
            }
        }),
{
    let ops = paint_block(st, n, sc, page, s).ops;
    let k = st.ops.len() as int;
    let sized = pic.width is Some && page.widths.contains(pic.width->0);
    let rest = below_image(n.children, sized);
    let image = Mark::Image { info: pic, sized };
    if rest.len() > 0 {
        let o = put(put(st, Mark::OpenColumn), image);
        let m = paint_inline(o, rest, sc, page);
        lemma_inline_text(o, rest, sc, page);
        assert(ops == m.ops.push(Mark::Close));
        assert forall|j: int| 0 <= j < k + 2 implies ops[j] == o.ops[j] by {
            assert(m.ops.drop_last()[j] == o.ops[j]);
        }
        assert(ops.take(k) =~= st.ops);
    }
}

/// A paragraph of properties shows a panel of them, and one of a single display
/// formula shows the formula.
pub proof fn law_properties_and_formulas_are_shown(
    st: Paint,
    n: Tree,
    rows: Seq<RowView>,
    latex: Seq<char>,
    sc: Scope,
    page: ViewState,
    s: Seq<char>,
)
    requires
        n.kind is Paragraph,
        embed_at(n.children, sc, page) is None,
    ensures
        (!page.math || display_from(n.children, s, 0, None) is None) && all_rows(s, n.at) == Some(
            rows,
        ) ==> {
            let ops = paint_block(st, n, sc, page, s).ops;
            &&& ops.len() == st.ops.len() + 1
            &&& ops.drop_last() == st.ops
            &&& ops.last() matches Mark::Properties { rows: r, .. } && r == rows
        },
        page.math && display_from(n.children, s, 0, None) == Some(0int) && n.children.len() == 1
            && n.children[0].kind == Kind::InlineMath(latex) ==> {
            let ops = paint_block(st, n, sc, page, s).ops;
            &&& ops.len() == st.ops.len() + 1
            &&& ops.drop_last() == st.ops
            &&& ops.last() matches Mark::Formula { latex: l, .. } && l == latex
        },
{
    let ops = paint_block(st, n, sc, page, s).ops;
    if ops.len() == st.ops.len() + 1 {
        assert(st.ops.push(ops.last()).drop_last() =~= st.ops);
    }
}

/// A callout whose marker stands alone on its first line holds what stands below
/// that line.
pub proof fn law_a_marker_alone_is_dropped(nodes: Seq<Tree>, kind: AlertKind)
    requires
        nodes.len() > 0,
        nodes[0].kind is Paragraph,
        nodes[0].children.len() > 0,
        nodes[0].children[0].kind == Kind::Text(marker(kind)),
    ensures
        ({
            let c = callout_of(nodes)->0;
            let inner = nodes[0].children;
            &&& callout_of(nodes) is Some
            &&& c.kind == kind
            &&& inner.len() == 1 ==> c.children == nodes.skip(1)
            &&& inner.len() > 2 && inner[1].kind is Break ==> c.children.len() == nodes.len()
                && c.children[0].children == inner.skip(2) && c.children.skip(1) == nodes.skip(1)
        }),
{
    let none = Seq::<char>::empty();
    let m = marker(kind);
    crate::source_laws::lemma_kind(kind, none);
    assert(m + none =~= m);
    let c = callout_of(nodes)->0;
    let inner = nodes[0].children;
    if inner.len() > 2 && inner[1].kind is Break {
        assert(c.children.skip(1) =~= nodes.skip(1));
    }
}

} // verus!
