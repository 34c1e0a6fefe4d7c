//! Painting the blocks of a page: paragraphs, headings, lists, callouts, tables
//! and embeds.
use crate::doc::{
    alert_parts, callout_of, collect_all_definitions, defs_with_all, display_from, embed_in,
    embed_target, find_display, find_fold_key, fold_key, is_display, law_callout_does_not_grow,
};
use crate::images::{below_image, image_caption, lead_image, leading_image, Picture};
use crate::lists::{caret, caret_ok};
use crate::math::{align_above, find_align, MathMarkerAlign};
use crate::numbering::{marker_of, ordered_marker};
use crate::ops::{blank, put, Mark, Marker, Op, Paint, Painter};
use crate::page::{
    embed_from, find_embed, is_rtl_at, listed, paint_inline, paint_pieces, paint_rows, push_inline,
    push_pieces, push_rows, reads_rtl, top, Embedded, MarkdownView, ViewState, Scope, MAX_EMBEDS,
};
use crate::rows::{all_rows, find_mixed, find_rows, mixed_of};
use crate::tables::{marker_style, table_col_widths, table_style_marker, width_fields, TableStyle};
use crate::text::{begins, looks_at, part, skip_space, trim_start, Text};
use crate::tree::{
    lemma_trees, lemma_weight_one, opt_view, tree, trees, weight, weight_from, Align, DocNode,
    Kind, Span, Tree,
};
use vstd::prelude::*;

verus! {

// --- Tables ---

/// How many columns the first `n` rows of a table need, at least one.
pub open spec fn columns_upto(rows: Seq<Tree>, n: int) -> int
    decreases n,
{
    if n <= 0 || n > rows.len() {
        1
    } else {
        let before = columns_upto(rows, n - 1);
        if rows[n - 1].kind is TableRow && rows[n - 1].children.len() > before {
            rows[n - 1].children.len() as int
        } else {
            before
        }
    }
}

fn count_columns(rows: &Vec<DocNode>) -> (r: usize)
    ensures
        r as int == columns_upto(trees(rows@), rows@.len() as int),
{
    let ghost all = trees(rows@);
    let mut most: usize = 1;
    let mut i: usize = 0;
    proof {
        lemma_trees(rows@);
    }
    while i < rows.len()
        invariant
            i <= rows@.len(),
            all.len() == rows@.len(),
            forall|k: int| 0 <= k < rows@.len() ==> #[trigger] all[k] == tree(rows@[k]),
            most as int == columns_upto(all, i as int),
        decreases rows.len() - i,
    {
        assert(all[i as int] == tree(rows@[i as int]));
        proof {
            lemma_trees(rows@[i as int].children@);
        }
        if let Kind::TableRow = &rows[i].kind {
            if rows[i].children.len() > most {
                most = rows[i].children.len();
            }
        }
        i += 1;
    }
    most
}

/// Whether row `i` has a rule above it: every row but the header in a grid, the
/// first below the header where one rule parts it, none otherwise.
pub open spec fn row_divider(style: TableStyle, i: int) -> bool {
    match style {
        TableStyle::Grid => i != 0,
        TableStyle::Striped => i == 1,
        TableStyle::Minimal => i == 1,
        TableStyle::Header => false,
    }
}

/// Whether row `i` is shaded: the header, or every other row of the body.
pub open spec fn row_shaded(style: TableStyle, i: int) -> bool {
    match style {
        TableStyle::Header => i == 0,
        TableStyle::Striped => i >= 1 && (i - 1) % 2 == 1,
        _ => false,
    }
}

/// Whether cell `i` of `n` has a rule on its right: between neighbours, as they
/// stand on the page.
pub open spec fn cell_divider(style: TableStyle, rtl: bool, i: int, n: int) -> bool {
    style == TableStyle::Grid && if rtl {
        i > 0
    } else {
        i + 1 < n
    }
}

/// The alignment of a column.
pub open spec fn column_align(align: Seq<Align>, i: int) -> Align {
    if 0 <= i < align.len() {
        align[i]
    } else {
        Align::Unset
    }
}

/// What the cells of a table have in common: the style and the direction of the
/// table, the alignments of its columns, and whether they are in the header.
pub struct Grid {
    pub style: TableStyle,
    pub rtl: bool,
    pub align: Seq<Align>,
    pub header: bool,
}

/// `st` with the cells from `i` on.
pub open spec fn paint_cells(
    st: Paint,
    cells: Seq<Tree>,
    i: int,
    g: Grid,
    sc: Scope,
    page: ViewState,
) -> Paint
    decreases cells.len() - i,
{
    if i < 0 || i >= cells.len() {
        st
    } else if cells[i].kind is TableCell {
        let open = Mark::OpenCell {
            align: column_align(g.align, i),
            divider: cell_divider(g.style, g.rtl, i, cells.len() as int),
            header: g.header,
        };
        let next = put(paint_inline(put(st, open), cells[i].children, sc, page), Mark::Close);
        paint_cells(next, cells, i + 1, g, sc, page)
    } else {
        paint_cells(st, cells, i + 1, g, sc, page)
    }
}

fn push_cells(
    p: &mut Painter,
    cells: &Vec<DocNode>,
    style: TableStyle,
    rtl: bool,
    align: &Vec<Align>,
    header: bool,
    sc: Scope,
    page: &MarkdownView,
)
    ensures
        final(p)@ == paint_cells(
            old(p)@,
            trees(cells@),
            0,
            (Grid { style, rtl, align: align@, header }),
            sc,
            page@,
        ),
{
    let ghost all = trees(cells@);
    let ghost g = Grid { style, rtl, align: align@, header };
    let ghost want = paint_cells(p@, all, 0, g, sc, page@);
    let mut i: usize = 0;
    let n: usize = cells.len();
    proof {
        lemma_trees(cells@);
    }
    while i < n
        invariant
            n == cells@.len(),
            i <= n,
            all == trees(cells@),
            all.len() == cells@.len(),
            forall|k: int| 0 <= k < cells@.len() ==> #[trigger] all[k] == tree(cells@[k]),
            g == (Grid { style, rtl, align: align@, header }),
            want == paint_cells(p@, all, i as int, g, sc, page@),
        decreases n - i,
    {
        assert(all[i as int] == tree(cells@[i as int]));
        if let Kind::TableCell = &cells[i].kind {
            let a = if i < align.len() {
                align[i]
            } else {
                Align::Unset
            };
            let divider = style == TableStyle::Grid && if rtl {
                i > 0
            } else {
                i + 1 < n
            };
            p.put(Op::OpenCell { align: a, divider, header });
            push_inline(p, cells[i].children.as_slice(), sc, page);
            p.put(Op::Close);
        }
        i += 1;
    }
}

/// `st` with the rows from `i` on.
pub open spec fn paint_table_rows(
    st: Paint,
    rows: Seq<Tree>,
    i: int,
    g: Grid,
    sc: Scope,
    page: ViewState,
) -> Paint
    decreases rows.len() - i,
{
    if i < 0 || i >= rows.len() {
        st
    } else if rows[i].kind is TableRow {
        let open = Mark::OpenRow {
            divider: row_divider(g.style, i),
            shaded: row_shaded(g.style, i),
        };
        let cells = paint_cells(
            put(st, open),
            rows[i].children,
            0,
            Grid { header: i == 0, ..g },
            sc,
            page,
        );
        paint_table_rows(put(cells, Mark::Close), rows, i + 1, g, sc, page)
    } else {
        paint_table_rows(st, rows, i + 1, g, sc, page)
    }
}

/// `st` with a table, whose first row is its header.
pub open spec fn paint_table(
    st: Paint,
    n: Tree,
    style: TableStyle,
    widths: Option<Seq<Seq<char>>>,
    sc: Scope,
    page: ViewState,
    s: Seq<char>,
) -> Paint {
    let rtl = reads_rtl(s, n.at);
    let open = Mark::OpenTable {
        style,
        widths,
        columns: columns_upto(n.children, n.children.len() as int),
        rtl,
    };
    let g = Grid { style, rtl, align: n.align, header: false };
    put(paint_table_rows(put(st, open), n.children, 0, g, sc, page), Mark::Close)
}

fn push_table(
    p: &mut Painter,
    n: &DocNode,
    style: TableStyle,
    widths: Option<Vec<String>>,
    sc: Scope,
    page: &MarkdownView,
    t: &Text,
)
    requires
        t.wf(),
    ensures
        final(p)@ == paint_table(
            old(p)@,
            n@,
            style,
            crate::ops::widths_view(widths),
            sc,
            page@,
            t@,
        ),
{
    let rtl = is_rtl_at(t, &n.at);
    let columns: usize = count_columns(&n.children);
    let ghost all = trees(n.children@);
    proof {
        lemma_trees(n.children@);
    }
    p.put(Op::OpenTable { style, widths, columns, rtl });
    let ghost g = Grid { style, rtl, align: n.align@, header: false };
    let ghost want = paint_table_rows(p@, all, 0, g, sc, page@);
    let mut i: usize = 0;
    while i < n.children.len()
        invariant
            i <= n.children@.len(),
            all == trees(n.children@),
            all.len() == n.children@.len(),
            forall|k: int| 0 <= k < all.len() ==> #[trigger] all[k] == tree(n.children@[k]),
            g == (Grid { style, rtl, align: n.align@, header: false }),
            want == paint_table_rows(p@, all, i as int, g, sc, page@),
        decreases n.children.len() - i,
    {
        assert(all[i as int] == tree(n.children@[i as int]));
        let row = &n.children[i];
        if let Kind::TableRow = &row.kind {
            let header = i == 0;
            let divider = match style {
                TableStyle::Grid => !header,
                TableStyle::Striped => i == 1,
                TableStyle::Minimal => i == 1,
                TableStyle::Header => false,
            };
            let shaded = match style {
                TableStyle::Header => header,
                TableStyle::Striped => i >= 1 && (i - 1) % 2 == 1,
                _ => false,
            };
            p.put(Op::OpenRow { divider, shaded });
            assert((Grid { header: i == 0, ..g }) == (Grid { style, rtl, align: n.align@, header }));
            push_cells(p, &row.children, style, rtl, &n.align, header, sc, page);
            p.put(Op::Close);
        }
        i += 1;
    }
    p.put(Op::Close);
}

// --- What a block shows ---

/// Whether raw HTML is a comment, which is never shown.
pub open spec fn is_comment(html: Seq<char>) -> bool {
    begins(trim_start(html), "<!--"@)
}

/// Whether a block shows anything.
pub open spec fn block_shows(kind: Kind<Seq<char>>) -> bool {
    match kind {
        Kind::Paragraph => true,
        Kind::Heading(_) => true,
        Kind::List(_) => true,
        Kind::Code { .. } => true,
        Kind::Math(_) => true,
        Kind::Blockquote => true,
        Kind::ThematicBreak => true,
        Kind::Table => true,
        Kind::FootnoteDefinition { .. } => true,
        Kind::Html(s) => !is_comment(s),
        Kind::Text(_) => true,
        _ => false,
    }
}

fn hides(html: &String) -> (r: bool)
    ensures
        r == is_comment(html@),
{
    let t = Text::new(html.as_str());
    let s = t.chars.as_slice();
    let n: usize = s.len();
    let i: usize = skip_space(s, 0);
    let rest = part(s, i, n);
    assert(rest@ =~= trim_start(html@));
    proof {
        assert(rest@.skip(0) =~= rest@);
    }
    looks_at(rest, 0, "<!--")
}

/// Whether a top-level node is shown as a block of its own. Comments carry
/// markers and are hidden in every view.
pub fn renders_to_block(n: &DocNode) -> (r: bool)
    ensures
        r == block_shows(n@.kind),
{
    match &n.kind {
        Kind::Paragraph => true,
        Kind::Heading(_) => true,
        Kind::List(_) => true,
        Kind::Code { .. } => true,
        Kind::Math(_) => true,
        Kind::Blockquote => true,
        Kind::ThematicBreak => true,
        Kind::Table => true,
        Kind::FootnoteDefinition { .. } => true,
        Kind::Html(s) => !hides(s),
        Kind::Text(_) => true,
        _ => false,
    }
}

// --- Formulas ---

/// How the formula that starts at a byte is aligned: by the marker on the line
/// above it.
pub open spec fn formula_side(s: Seq<char>, start: Option<usize>) -> Option<MathMarkerAlign> {
    match start {
        Some(b) => if caret_ok(s, b as int) {
            align_above(s, caret(s, b as int))
        } else {
            None
        },
        None => None,
    }
}

fn find_side(t: &Text, start: Option<usize>) -> (r: Option<MathMarkerAlign>)
    requires
        t.wf(),
    ensures
        r == formula_side(t@, start),
{
    match start {
        Some(b) => {
            let end: usize = t.offs[t.chars.len()];
            proof {
                crate::text::lemma_offset_end(t@);
            }
            if b >= end || t.index_of(b).is_some() {
                find_align(t, b)
            } else {
                None
            }
        },
        None => None,
    }
}

/// `st` with inline nodes, where there are any.
pub open spec fn paint_some(st: Paint, nodes: Seq<Tree>, sc: Scope, page: ViewState) -> Paint {
    if nodes.len() == 0 {
        st
    } else {
        paint_inline(st, nodes, sc, page)
    }
}

/// `st` with a paragraph that holds one display formula, at `ix`: the formula
/// on its own row, and what stands around it on rows of its own.
pub open spec fn paint_formula(
    st: Paint,
    nodes: Seq<Tree>,
    ix: int,
    sc: Scope,
    page: ViewState,
    s: Seq<char>,
) -> Paint {
    let formula = Mark::Formula {
        latex: nodes[ix].kind->InlineMath_0,
        side: formula_side(s, Some(nodes[ix].at->0.start)),
    };
    let before = nodes.take(ix);
    let after = nodes.skip(ix + 1);
    if nodes.len() == 1 {
        put(st, formula)
    } else {
        put(
            paint_some(
                put(paint_some(put(st, Mark::OpenColumn), before, sc, page), formula),
                after,
                sc,
                page,
            ),
            Mark::Close,
        )
    }
}

/// Whether the width attribute of an image holds.
pub open spec fn is_sized(pic: Picture, page: ViewState) -> bool {
    pic.width is Some && page.widths.contains(pic.width->0)
}

/// `st` with a leading image, and what stands behind it below.
pub open spec fn paint_image(
    st: Paint,
    nodes: Seq<Tree>,
    pic: Picture,
    sc: Scope,
    page: ViewState,
) -> Paint {
    let sized = is_sized(pic, page);
    let image = Mark::Image { info: pic, sized };
    let rest = below_image(nodes, sized);
    if rest.len() == 0 {
        put(st, image)
    } else {
        put(
            paint_inline(put(put(st, Mark::OpenColumn), image), rest, sc, page),
            Mark::Close,
        )
    }
}

/// Whether leading images are shown as such.
pub open spec fn shows_images(page: ViewState, sc: Scope) -> bool {
    if sc.depth == 0 {
        page.images
    } else {
        page.embed_images
    }
}

/// `st` with a paragraph that embeds nothing.
pub open spec fn paint_prose(
    st: Paint,
    n: Tree,
    sc: Scope,
    page: ViewState,
    s: Seq<char>,
) -> Paint {
    if page.math && display_from(n.children, s, 0, None) is Some {
        paint_formula(st, n.children, display_from(n.children, s, 0, None)->0, sc, page, s)
    } else if all_rows(s, n.at) is Some {
        paint_rows(st, all_rows(s, n.at)->0)
    } else if mixed_of(s, n.at, n.children) is Some {
        put(
            paint_pieces(
                put(st, Mark::OpenColumn),
                mixed_of(s, n.at, n.children)->0,
                0,
                sc,
                page,
            ),
            Mark::Close,
        )
    } else if shows_images(page, sc) && lead_image(n.children) is Some {
        paint_image(st, n.children, lead_image(n.children)->0, sc, page)
    } else {
        paint_inline(st, n.children, sc, page)
    }
}

// --- Headings ---

/// Whether a heading is folded. Folds are the embedding page's own.
pub open spec fn is_folded(at: Option<Span>, sc: Scope, page: ViewState, s: Seq<char>) -> bool {
    sc.depth == 0 && fold_key(s, at) is Some && page.folded.contains(fold_key(s, at)->0)
}

/// The fold key and state of a heading that shows a chevron.
pub open spec fn chevron(at: Option<Span>, sc: Scope, page: ViewState, s: Seq<char>) -> Option<
    (Seq<char>, bool),
> {
    match fold_key(s, at) {
        Some(k) => if sc.depth == 0 && page.heading_toggle {
            Some((k, page.folded.contains(k)))
        } else {
            None
        },
        None => None,
    }
}

/// `st` with a heading.
pub open spec fn paint_heading(
    st: Paint,
    n: Tree,
    depth: u8,
    sc: Scope,
    page: ViewState,
    s: Seq<char>,
) -> Paint {
    let open = Mark::OpenHeading {
        depth,
        tight: sc.tight,
        rtl: reads_rtl(s, n.at),
        fold: chevron(n.at, sc, page, s),
    };
    put(paint_inline(put(st, open), n.children, sc, page), Mark::Close)
}

// --- Code ---

/// The step that shows a code block: a diagram where its language says so and
/// the host draws them.
pub open spec fn code_mark(lang: Option<Seq<char>>, value: Seq<char>, page: ViewState) -> Mark {
    if page.mermaid && lang == Some("mermaid"@) {
        Mark::Mermaid(value)
    } else {
        Mark::Code {
            lang: match lang {
                Some(l) => if l.len() == 0 {
                    None
                } else {
                    Some(l)
                },
                None => None,
            },
            value,
        }
    }
}

// --- List items ---

/// The number of the item at index `i`, counted from one.
pub open spec fn item_number(i: int) -> nat {
    if i < u32::MAX {
        (i + 1) as nat
    } else {
        u32::MAX as nat
    }
}

/// What leads the item at index `i`.
pub open spec fn item_marker(
    n: Tree,
    checked: Option<bool>,
    ordered: bool,
    i: int,
    level: int,
    sc: Scope,
    page: ViewState,
) -> Marker<Seq<char>> {
    match checked {
        Some(done) => Marker::Task {
            done,
            at: match n.at {
                Some(p) => if page.task_toggle && sc.depth == 0 {
                    Some(p.start)
                } else {
                    None
                },
                None => None,
            },
        },
        None => if ordered {
            Marker::Number(marker_of(level as nat, item_number(i)))
        } else {
            Marker::Bullet
        },
    }
}

/// The depth of the heading that an item begins with, or zero.
pub open spec fn lead_depth(nodes: Seq<Tree>) -> u8 {
    if nodes.len() > 0 {
        match nodes[0].kind {
            Kind::Heading(d) => d,
            _ => 0,
        }
    } else {
        0
    }
}

/// Whether an item holds a list.
pub open spec fn has_list(nodes: Seq<Tree>) -> bool {
    exists|k: int| 0 <= k < nodes.len() && (#[trigger] nodes[k]).kind is List
}

/// The list level below a level.
pub open spec fn level_below(level: int) -> int {
    if level < usize::MAX {
        level + 1
    } else {
        level
    }
}

// --- The walk ---

/// `st` with a block.
pub open spec fn paint_block(st: Paint, n: Tree, sc: Scope, page: ViewState, s: Seq<char>) -> Paint
    decreases MAX_EMBEDS - sc.depth, weight(n), 1int,
{
    match n.kind {
        Kind::Paragraph => paint_paragraph(st, n, sc, page, s),
        Kind::Heading(d) => paint_heading(st, n, d, sc, page, s),
        Kind::List(ordered) => paint_list(st, n, ordered, 0, sc, page, s),
        Kind::Code { lang, value } => put(st, code_mark(lang, value, page)),
        Kind::Math(latex) => if page.math {
            put(
                st,
                Mark::Formula {
                    latex,
                    side: formula_side(
                        s,
                        match n.at {
                            Some(p) => Some(p.start),
                            None => None,
                        },
                    ),
                },
            )
        } else {
            put(st, Mark::RawMath(latex))
        },
        Kind::Blockquote => match callout_of(n.children) {
            Some(c) => {
                let open = Mark::OpenCallout {
                    kind: c.kind,
                    folded: c.fold,
                    at: c.marker,
                    live: page.alert_toggle && sc.depth == 0,
                    rtl: reads_rtl(s, n.at),
                };
                proof {
                    law_callout_does_not_grow(n.children);
                }
                put(
                    if c.fold == Some(true) {
                        put(st, open)
                    } else {
                        paint_blocks(put(st, open), c.children, 0, sc, page, s)
                    },
                    Mark::Close,
                )
            },
            None => put(
                paint_blocks(
                    put(st, Mark::OpenQuote { rtl: reads_rtl(s, n.at) }),
                    n.children,
                    0,
                    sc,
                    page,
                    s,
                ),
                Mark::Close,
            ),
        },
        Kind::ThematicBreak => put(st, Mark::Rule),
        Kind::Table => paint_table(st, n, TableStyle::Grid, None, sc, page, s),
        Kind::FootnoteDefinition { label, id } => put(
            paint_blocks(
                put(
                    st,
                    Mark::OpenFootnote(
                        match label {
                            Some(l) => l,
                            None => id,
                        },
                    ),
                ),
                n.children,
                0,
                sc,
                page,
                s,
            ),
            Mark::Close,
        ),
        Kind::Html(html) => if is_comment(html) {
            st
        } else {
            put(st, Mark::Html(html))
        },
        Kind::Text(text) => put(st, Mark::Plain(text)),
        _ => st,
    }
}

/// `st` with the blocks from `i` on.
pub open spec fn paint_blocks(
    st: Paint,
    nodes: Seq<Tree>,
    i: int,
    sc: Scope,
    page: ViewState,
    s: Seq<char>,
) -> Paint
    decreases MAX_EMBEDS - sc.depth, weight_from(nodes, i), 2int,
{
    if i < 0 || i >= nodes.len() {
        st
    } else {
        proof {
            lemma_weight_one(nodes, i);
        }
        paint_blocks(paint_block(st, nodes[i], sc, page, s), nodes, i + 1, sc, page, s)
    }
}

/// The embed that a paragraph is, where it is one, resolved, and not too deep.
pub open spec fn embed_at(nodes: Seq<Tree>, sc: Scope, page: ViewState) -> Option<Embedded> {
    match embed_in(nodes) {
        Some(target) => match embed_from(page.embeds, target, 0) {
            Some(k) => if sc.depth < MAX_EMBEDS {
                Some(page.embeds[k])
            } else {
                None
            },
            None => None,
        },
        None => None,
    }
}

/// Where painting stands inside an embed.
pub open spec fn inside(sc: Scope) -> Scope {
    Scope { depth: (sc.depth + 1) as usize, ..sc }
}

/// `st` with a paragraph. An embed is painted as a page of its own, with its
/// own text as the source; its definitions stay in force behind it.
pub open spec fn paint_paragraph(
    st: Paint,
    n: Tree,
    sc: Scope,
    page: ViewState,
    s: Seq<char>,
) -> Paint
    decreases MAX_EMBEDS - sc.depth, weight(n), 0int,
{
    match embed_at(n.children, sc, page) {
        Some(e) => {
            let open = put(st, Mark::OpenEmbed { target: e.target, label: e.label });
            put(
                match e.blocks {
                    Some(blocks) => paint_root(
                        Paint { defs: defs_with_all(open.defs, blocks, 0), ..open },
                        blocks,
                        0,
                        None,
                        None,
                        inside(sc),
                        page,
                        e.content,
                    ),
                    None => put(open, Mark::Plain(e.content)),
                },
                Mark::Close,
            )
        },
        None => paint_prose(st, n, sc, page, s),
    }
}

/// `st` with a list.
pub open spec fn paint_list(
    st: Paint,
    n: Tree,
    ordered: bool,
    level: int,
    sc: Scope,
    page: ViewState,
    s: Seq<char>,
) -> Paint
    decreases MAX_EMBEDS - sc.depth, weight(n), 0int,
{
    put(
        paint_items(
            put(st, Mark::OpenList { nested: level > 0 }),
            n.children,
            0,
            ordered,
            level,
            sc,
            page,
            s,
        ),
        Mark::Close,
    )
}

/// `st` with the list items from `i` on.
pub open spec fn paint_items(
    st: Paint,
    nodes: Seq<Tree>,
    i: int,
    ordered: bool,
    level: int,
    sc: Scope,
    page: ViewState,
    s: Seq<char>,
) -> Paint
    decreases MAX_EMBEDS - sc.depth, weight_from(nodes, i), 2int,
{
    if i < 0 || i >= nodes.len() {
        st
    } else {
        proof {
            lemma_weight_one(nodes, i);
        }
        let next = match nodes[i].kind {
            Kind::ListItem(checked) => paint_item(
                st,
                nodes[i],
                checked,
                item_marker(nodes[i], checked, ordered, i, level, sc, page),
                level,
                sc,
                page,
                s,
            ),
            _ => st,
        };
        paint_items(next, nodes, i + 1, ordered, level, sc, page, s)
    }
}

/// `st` with a list item.
pub open spec fn paint_item(
    st: Paint,
    n: Tree,
    checked: Option<bool>,
    marker: Marker<Seq<char>>,
    level: int,
    sc: Scope,
    page: ViewState,
    s: Seq<char>,
) -> Paint
    decreases MAX_EMBEDS - sc.depth, weight(n), 1int,
{
    let open = Mark::OpenItem {
        marker,
        lead: lead_depth(n.children),
        guide: has_list(n.children),
        rtl: reads_rtl(s, n.at),
    };
    put(
        paint_parts(put(st, open), n.children, 0, checked == Some(true), level, sc, page, s),
        Mark::Close,
    )
}

/// `st` with the parts of a list item from `i` on. A folded heading hides all
/// behind it.
pub open spec fn paint_parts(
    st: Paint,
    nodes: Seq<Tree>,
    i: int,
    done: bool,
    level: int,
    sc: Scope,
    page: ViewState,
    s: Seq<char>,
) -> Paint
    decreases MAX_EMBEDS - sc.depth, weight_from(nodes, i), 2int,
{
    if i < 0 || i >= nodes.len() {
        st
    } else {
        proof {
            lemma_weight_one(nodes, i);
        }
        let next = match nodes[i].kind {
            Kind::List(ordered) => paint_list(
                st,
                nodes[i],
                ordered,
                level_below(level),
                sc,
                page,
                s,
            ),
            _ => paint_block(st, nodes[i], Scope { tight: i == 0, done, ..sc }, page, s),
        };
        if nodes[i].kind is Heading && is_folded(nodes[i].at, sc, page, s) {
            next
        } else {
            paint_parts(next, nodes, i + 1, done, level, sc, page, s)
        }
    }
}

/// Whether the section below a folded heading of depth `below` goes on at a
/// node.
pub open spec fn is_hidden(n: Tree, below: Option<u8>) -> bool {
    match below {
        Some(d) => match n.kind {
            Kind::Heading(h) => h > d,
            _ => true,
        },
        None => false,
    }
}

/// `st` with the blocks of a page from `i` on. A table marker styles the table
/// right behind it and is itself hidden; the section of a folded heading is
/// skipped up to the next heading of its depth or above.
pub open spec fn paint_root(
    st: Paint,
    nodes: Seq<Tree>,
    i: int,
    pending: Option<(TableStyle, Option<Seq<Seq<char>>>)>,
    below: Option<u8>,
    sc: Scope,
    page: ViewState,
    s: Seq<char>,
) -> Paint
    decreases MAX_EMBEDS - sc.depth, weight_from(nodes, i), 2int,
{
    if i < 0 || i >= nodes.len() {
        st
    } else {
        proof {
            lemma_weight_one(nodes, i);
        }
        if is_hidden(nodes[i], below) {
            paint_root(st, nodes, i + 1, pending, below, sc, page, s)
        } else if table_marker(nodes[i].kind) is Some {
            paint_root(st, nodes, i + 1, table_marker(nodes[i].kind), None, sc, page, s)
        } else if nodes[i].kind is Table {
            let (style, widths) = match pending {
                Some(m) => m,
                None => (TableStyle::Grid, None),
            };
            paint_root(
                paint_table(st, nodes[i], style, widths, sc, page, s),
                nodes,
                i + 1,
                None,
                None,
                sc,
                page,
                s,
            )
        } else {
            paint_root(
                paint_block(st, nodes[i], sc, page, s),
                nodes,
                i + 1,
                None,
                folds_below(nodes[i], sc, page, s),
                sc,
                page,
                s,
            )
        }
    }
}

/// What a table marker says.
pub open spec fn table_marker(kind: Kind<Seq<char>>) -> Option<
    (TableStyle, Option<Seq<Seq<char>>>),
> {
    match kind {
        Kind::Html(html) => match marker_style(html) {
            Some(style) => Some((style, width_fields(html))),
            None => None,
        },
        _ => None,
    }
}

/// The depth of a folded heading.
pub open spec fn folds_below(n: Tree, sc: Scope, page: ViewState, s: Seq<char>) -> Option<u8> {
    match n.kind {
        Kind::Heading(d) => if is_folded(n.at, sc, page, s) {
            Some(d)
        } else {
            None
        },
        _ => None,
    }
}

/// A whole page: its blocks with the definitions of all of them in force, or
/// its plain text where it is not parsed.
pub open spec fn painted(blocks: Option<Seq<Tree>>, page: ViewState, s: Seq<char>) -> Paint {
    match blocks {
        Some(nodes) => paint_root(
            Paint { defs: defs_with_all(seq![], nodes, 0), ..blank() },
            nodes,
            0,
            None,
            None,
            top(),
            page,
            s,
        ),
        None => put(blank(), Mark::Plain(s)),
    }
}

// --- Painting ---

fn push_some(p: &mut Painter, nodes: &[DocNode], sc: Scope, page: &MarkdownView)
    ensures
        final(p)@ == paint_some(old(p)@, trees(nodes@), sc, page@),
{
    proof {
        lemma_trees(nodes@);
    }
    if nodes.len() > 0 {
        push_inline(p, nodes, sc, page);
    }
}

proof fn lemma_trees_part(s: Seq<DocNode>, i: int, j: int)
    requires
        0 <= i <= j <= s.len(),
    ensures
        trees(s.subrange(i, j)) == trees(s).subrange(i, j),
{
    lemma_trees(s);
    lemma_trees(s.subrange(i, j));
    assert(trees(s.subrange(i, j)) =~= trees(s).subrange(i, j)) by {
        assert forall|k: int| 0 <= k < j - i implies #[trigger] trees(s.subrange(i, j))[k]
            == trees(s).subrange(i, j)[k] by {
            assert(trees(s)[i + k] == tree(s[i + k]));
        }
    }
}

fn push_formula(p: &mut Painter, nodes: &Vec<DocNode>, ix: usize, sc: Scope, page: &MarkdownView, t: &Text)
    requires
        t.wf(),
        ix < nodes@.len(),
        is_display(tree(nodes@[ix as int]), t@),
    ensures
        final(p)@ == paint_formula(old(p)@, trees(nodes@), ix as int, sc, page@, t@),
{
    let ghost all = trees(nodes@);
    let n: usize = nodes.len();
    proof {
        lemma_trees(nodes@);
        lemma_trees_part(nodes@, 0, ix as int);
        lemma_trees_part(nodes@, ix + 1, n as int);
        assert(all.subrange(0, ix as int) =~= all.take(ix as int));
        assert(all.subrange(ix + 1, n as int) =~= all.skip(ix + 1));
        assert(all[ix as int] == tree(nodes@[ix as int]));
    }
    let start: Option<usize> = match &nodes[ix].at {
        Some(q) => Some(q.start),
        None => None,
    };
    let side = find_side(t, start);
    let latex: String = match &nodes[ix].kind {
        Kind::InlineMath(m) => m.clone(),
        _ => String::new(),
    };
    if n == 1 {
        p.put(Op::Formula { latex, side });
        return;
    }
    p.put(Op::OpenColumn);
    push_some(p, vstd::slice::slice_subrange(nodes.as_slice(), 0, ix), sc, page);
    p.put(Op::Formula { latex, side });
    push_some(p, vstd::slice::slice_subrange(nodes.as_slice(), ix + 1, n), sc, page);
    p.put(Op::Close);
}

fn push_prose(p: &mut Painter, n: &DocNode, sc: Scope, page: &MarkdownView, t: &Text)
    requires
        t.wf(),
    ensures
        final(p)@ == paint_prose(old(p)@, n@, sc, page@, t@),
{
    if page.math {
        if let Some(ix) = find_display(&n.children, t) {
            push_formula(p, &n.children, ix, sc, page, t);
            return;
        }
    }
    if let Some(rows) = find_rows(t, &n.at) {
        push_rows(p, rows);
        return;
    }
    if let Some(pieces) = find_mixed(t, &n.at, &n.children) {
        p.put(Op::OpenColumn);
        push_pieces(p, pieces, sc, page);
        p.put(Op::Close);
        return;
    }
    let images = if sc.depth == 0 {
        page.images
    } else {
        page.embed_images
    };
    if images {
        if let Some(info) = leading_image(&n.children) {
            let sized = match &info.width {
                Some(w) => listed(&page.widths, w),
                None => false,
            };
            assert(sized == is_sized(info@, page@));
            let rest = image_caption(&n.children, sized);
            proof {
                lemma_trees(rest@);
            }
            if rest.len() == 0 {
                p.put(Op::Image { info, sized });
            } else {
                p.put(Op::OpenColumn);
                p.put(Op::Image { info, sized });
                push_inline(p, rest.as_slice(), sc, page);
                p.put(Op::Close);
            }
            return;
        }
    }
    push_inline(p, n.children.as_slice(), sc, page);
}

fn folded_at(at: &Option<Span>, sc: Scope, page: &MarkdownView, t: &Text) -> (r: bool)
    requires
        t.wf(),
    ensures
        r == is_folded(*at, sc, page@, t@),
{
    match find_fold_key(t, at) {
        Some(k) => sc.depth == 0 && listed(&page.folded, &k),
        None => false,
    }
}

fn push_heading(p: &mut Painter, n: &DocNode, depth: u8, sc: Scope, page: &MarkdownView, t: &Text)
    requires
        t.wf(),
    ensures
        final(p)@ == paint_heading(old(p)@, n@, depth, sc, page@, t@),
{
    let rtl = is_rtl_at(t, &n.at);
    let fold: Option<(String, bool)> = match find_fold_key(t, &n.at) {
        Some(k) => if sc.depth == 0 && page.heading_toggle {
            let f = listed(&page.folded, &k);
            Some((k, f))
        } else {
            None
        },
        None => None,
    };
    p.put(Op::OpenHeading { depth, tight: sc.tight, rtl, fold });
    push_inline(p, n.children.as_slice(), sc, page);
    p.put(Op::Close);
}

fn push_code(p: &mut Painter, lang: &Option<String>, value: &String, page: &MarkdownView)
    ensures
        final(p)@ == put(old(p)@, code_mark(opt_view(*lang), value@, page@)),
{
    let named: Option<String> = match lang {
        Some(l) => {
            if page.mermaid && *l == "mermaid".to_owned() {
                p.put(Op::Mermaid(value.clone()));
                return;
            }
            if l.as_str().is_empty() {
                None
            } else {
                Some(l.clone())
            }
        },
        None => None,
    };
    p.put(Op::Code { lang: named, value: value.clone() });
}

fn find_marker(
    n: &DocNode,
    checked: Option<bool>,
    ordered: bool,
    i: usize,
    level: usize,
    sc: Scope,
    page: &MarkdownView,
) -> (r: Marker<String>)
    ensures
        crate::ops::marker_view(r) == item_marker(
            n@,
            checked,
            ordered,
            i as int,
            level as int,
            sc,
            page@,
        ),
{
    match checked {
        Some(done) => {
            let at: Option<usize> = match &n.at {
                Some(q) => if page.task_toggle && sc.depth == 0 {
                    Some(q.start)
                } else {
                    None
                },
                None => None,
            };
            Marker::Task { done, at }
        },
        None => if ordered {
            let number: u32 = if i < u32::MAX as usize {
                (i + 1) as u32
            } else {
                u32::MAX
            };
            Marker::Number(ordered_marker(level, number))
        } else {
            Marker::Bullet
        },
    }
}

fn find_lead(nodes: &Vec<DocNode>) -> (r: u8)
    ensures
        r == lead_depth(trees(nodes@)),
{
    proof {
        lemma_trees(nodes@);
    }
    if nodes.len() == 0 {
        return 0;
    }
    assert(trees(nodes@)[0] == tree(nodes@[0]));
    match &nodes[0].kind {
        Kind::Heading(d) => *d,
        _ => 0,
    }
}

fn holds_list(nodes: &Vec<DocNode>) -> (r: bool)
    ensures
        r == has_list(trees(nodes@)),
{
    let ghost all = trees(nodes@);
    proof {
        lemma_trees(nodes@);
    }
    let mut i: usize = 0;
    while i < nodes.len()
        invariant
            i <= nodes@.len(),
            all == trees(nodes@),
            all.len() == nodes@.len(),
            forall|k: int| 0 <= k < nodes@.len() ==> #[trigger] all[k] == tree(nodes@[k]),
            forall|k: int| 0 <= k < i ==> !((#[trigger] all[k]).kind is List),
        decreases nodes.len() - i,
    {
        assert(all[i as int] == tree(nodes@[i as int]));
        if let Kind::List(_) = &nodes[i].kind {
            assert(all[i as int].kind is List);
            return true;
        }
        i += 1;
    }
    false
}

/// Paints a block.
pub(crate) fn push_block(p: &mut Painter, n: &DocNode, sc: Scope, page: &MarkdownView, t: &Text)
    requires
        t.wf(),
    ensures
        final(p)@ == paint_block(old(p)@, n@, sc, page@, t@),
    decreases MAX_EMBEDS - sc.depth, weight(n@), 1int,
{
    match &n.kind {
        Kind::Paragraph => {
            push_paragraph(p, n, sc, page, t);
        },
        Kind::Heading(d) => {
            push_heading(p, n, *d, sc, page, t);
        },
        Kind::List(ordered) => {
            push_list(p, n, *ordered, 0, sc, page, t);
        },
        Kind::Code { lang, value } => {
            push_code(p, lang, value, page);
        },
        Kind::Math(latex) => {
            if page.math {
                let start: Option<usize> = match &n.at {
                    Some(q) => Some(q.start),
                    None => None,
                };
                let side = find_side(t, start);
                p.put(Op::Formula { latex: latex.clone(), side });
            } else {
                p.put(Op::RawMath(latex.clone()));
            }
        },
        Kind::Blockquote => {
            let rtl = is_rtl_at(t, &n.at);
            if let Some((kind, folded, at, children)) = alert_parts(&n.children) {
                proof {
                    law_callout_does_not_grow(trees(n.children@));
                }
                let live = page.alert_toggle && sc.depth == 0;
                p.put(Op::OpenCallout { kind, folded, at, live, rtl });
                let shut = match folded {
                    Some(f) => f,
                    None => false,
                };
                if !shut {
                    push_blocks(p, &children, sc, page, t);
                }
                p.put(Op::Close);
            } else {
                p.put(Op::OpenQuote { rtl });
                push_blocks(p, &n.children, sc, page, t);
                p.put(Op::Close);
            }
        },
        Kind::ThematicBreak => {
            p.put(Op::Rule);
        },
        Kind::Table => {
            push_table(p, n, TableStyle::Grid, None, sc, page, t);
        },
        Kind::FootnoteDefinition { label, id } => {
            let name = match label {
                Some(l) => l.clone(),
                None => id.clone(),
            };
            p.put(Op::OpenFootnote(name));
            push_blocks(p, &n.children, sc, page, t);
            p.put(Op::Close);
        },
        Kind::Html(html) => {
            if !hides(html) {
                p.put(Op::Html(html.clone()));
            }
        },
        Kind::Text(text) => {
            p.put(Op::Plain(text.clone()));
        },
        _ => {},
    }
}

fn push_blocks(p: &mut Painter, nodes: &Vec<DocNode>, sc: Scope, page: &MarkdownView, t: &Text)
    requires
        t.wf(),
    ensures
        final(p)@ == paint_blocks(old(p)@, trees(nodes@), 0, sc, page@, t@),
    decreases MAX_EMBEDS - sc.depth, weight_from(trees(nodes@), 0), 2int,
{
    let ghost all = trees(nodes@);
    let ghost want = paint_blocks(p@, all, 0, sc, page@, t@);
    proof {
        lemma_trees(nodes@);
    }
    let mut i: usize = 0;
    while i < nodes.len()
        invariant
            t.wf(),
            i <= nodes@.len(),
            all == trees(nodes@),
            all.len() == nodes@.len(),
            forall|k: int| 0 <= k < nodes@.len() ==> #[trigger] all[k] == tree(nodes@[k]),
            want == paint_blocks(p@, all, i as int, sc, page@, t@),
        decreases nodes.len() - i,
    {
        assert(all[i as int] == tree(nodes@[i as int]));
        proof {
            lemma_weight_one(all, i as int);
        }
        push_block(p, &nodes[i], sc, page, t);
        i += 1;
    }
}

fn push_paragraph(p: &mut Painter, n: &DocNode, sc: Scope, page: &MarkdownView, t: &Text)
    requires
        t.wf(),
    ensures
        final(p)@ == paint_paragraph(old(p)@, n@, sc, page@, t@),
    decreases MAX_EMBEDS - sc.depth, weight(n@), 0int,
{
    if sc.depth < MAX_EMBEDS {
        if let Some(target) = embed_target(&n.children) {
            if let Some(k) = find_embed(page, &target) {
                let e = &page.embeds[k];
                assert(page@.embeds[k as int] == e@);
                assert(embed_at(n@.children, sc, page@) == Some(e@));
                p.put(Op::OpenEmbed { target: e.target.clone(), label: e.label.clone() });
                match &e.blocks {
                    Some(shared) => {
                        let blocks: &Vec<DocNode> = shared;
                        let inner = Scope { depth: sc.depth + 1, tight: sc.tight, done: sc.done };
                        let body = Text::new(e.content.as_str());
                        let ghost open = p@;
                        collect_all_definitions(blocks, &mut p.defs);
                        assert(p@ == (Paint {
                            defs: defs_with_all(open.defs, trees(blocks@), 0),
                            ..open
                        }));
                        push_root(p, blocks, inner, page, &body);
                    },
                    None => {
                        p.put(Op::Plain(e.content.clone()));
                    },
                }
                p.put(Op::Close);
                return;
            }
        }
    }
    push_prose(p, n, sc, page, t);
}

fn push_list(
    p: &mut Painter,
    n: &DocNode,
    ordered: bool,
    level: usize,
    sc: Scope,
    page: &MarkdownView,
    t: &Text,
)
    requires
        t.wf(),
    ensures
        final(p)@ == paint_list(old(p)@, n@, ordered, level as int, sc, page@, t@),
    decreases MAX_EMBEDS - sc.depth, weight(n@), 0int,
{
    let ghost all = trees(n.children@);
    p.put(Op::OpenList { nested: level > 0 });
    let ghost want = paint_items(p@, all, 0, ordered, level as int, sc, page@, t@);
    proof {
        lemma_trees(n.children@);
    }
    let mut i: usize = 0;
    while i < n.children.len()
        invariant
            t.wf(),
            i <= n.children@.len(),
            all == trees(n.children@),
            all == n@.children,
            all.len() == n.children@.len(),
            forall|k: int| 0 <= k < all.len() ==> #[trigger] all[k] == tree(n.children@[k]),
            want == paint_items(p@, all, i as int, ordered, level as int, sc, page@, t@),
        decreases n.children.len() - i,
    {
        let item = &n.children[i];
        assert(all[i as int] == tree(n.children@[i as int]));
        proof {
            lemma_weight_one(all, i as int);
        }
        if let Kind::ListItem(checked) = &item.kind {
            let marker = find_marker(item, *checked, ordered, i, level, sc, page);
            push_item(p, item, *checked, marker, level, sc, page, t);
        }
        i += 1;
    }
    p.put(Op::Close);
}

fn push_item(
    p: &mut Painter,
    n: &DocNode,
    checked: Option<bool>,
    marker: Marker<String>,
    level: usize,
    sc: Scope,
    page: &MarkdownView,
    t: &Text,
)
    requires
        t.wf(),
    ensures
        final(p)@ == paint_item(
            old(p)@,
            n@,
            checked,
            crate::ops::marker_view(marker),
            level as int,
            sc,
            page@,
            t@,
        ),
    decreases MAX_EMBEDS - sc.depth, weight(n@), 1int,
{
    let lead: u8 = find_lead(&n.children);
    let guide = holds_list(&n.children);
    let rtl = is_rtl_at(t, &n.at);
    p.put(Op::OpenItem { marker, lead, guide, rtl });
    let done = match checked {
        Some(d) => d,
        None => false,
    };
    push_parts(p, &n.children, done, level, sc, page, t);
    p.put(Op::Close);
}

fn push_parts(
    p: &mut Painter,
    nodes: &Vec<DocNode>,
    done: bool,
    level: usize,
    sc: Scope,
    page: &MarkdownView,
    t: &Text,
)
    requires
        t.wf(),
    ensures
        final(p)@ == paint_parts(
            old(p)@,
            trees(nodes@),
            0,
            done,
            level as int,
            sc,
            page@,
            t@,
        ),
    decreases MAX_EMBEDS - sc.depth, weight_from(trees(nodes@), 0), 2int,
{
    let ghost all = trees(nodes@);
    let ghost want = paint_parts(p@, all, 0, done, level as int, sc, page@, t@);
    proof {
        lemma_trees(nodes@);
    }
    let mut i: usize = 0;
    while i < nodes.len()
        invariant
            t.wf(),
            i <= nodes@.len(),
            all == trees(nodes@),
            all.len() == nodes@.len(),
            forall|k: int| 0 <= k < nodes@.len() ==> #[trigger] all[k] == tree(nodes@[k]),
            want == paint_parts(old(p)@, all, 0, done, level as int, sc, page@, t@),
            want == paint_parts(p@, all, i as int, done, level as int, sc, page@, t@),
        decreases nodes.len() - i,
    {
        let n = &nodes[i];
        assert(all[i as int] == tree(nodes@[i as int]));
        proof {
            lemma_weight_one(all, i as int);
        }
        let mut stop = false;
        match &n.kind {
            Kind::List(ordered) => {
                let next: usize = level.saturating_add(1);
                push_list(p, n, *ordered, next, sc, page, t);
            },
            Kind::Heading(_) => {
                push_block(p, n, Scope { depth: sc.depth, tight: i == 0, done }, page, t);
                stop = folded_at(&n.at, sc, page, t);
            },
            _ => {
                push_block(p, n, Scope { depth: sc.depth, tight: i == 0, done }, page, t);
            },
        }
        if stop {
            return;
        }
        i += 1;
    }
}

fn read_marker(kind: &Kind<String>) -> (r: Option<(TableStyle, Option<Vec<String>>)>)
    ensures
        pending_view(r) == table_marker(crate::tree::kind_view(*kind)),
{
    match kind {
        Kind::Html(html) => match table_style_marker(html.as_str()) {
            Some(style) => Some((style, table_col_widths(html.as_str()))),
            None => None,
        },
        _ => None,
    }
}

/// A pending table marker as a value.
pub open spec fn pending_view(m: Option<(TableStyle, Option<Vec<String>>)>) -> Option<
    (TableStyle, Option<Seq<Seq<char>>>),
> {
    match m {
        Some((style, widths)) => Some((style, crate::ops::widths_view(widths))),
        None => None,
    }
}

fn push_root(p: &mut Painter, nodes: &Vec<DocNode>, sc: Scope, page: &MarkdownView, t: &Text)
    requires
        t.wf(),
    ensures
        final(p)@ == paint_root(old(p)@, trees(nodes@), 0, None, None, sc, page@, t@),
    decreases MAX_EMBEDS - sc.depth, weight_from(trees(nodes@), 0), 2int,
{
    let ghost all = trees(nodes@);
    let ghost want = paint_root(p@, all, 0, None, None, sc, page@, t@);
    let mut pending: Option<(TableStyle, Option<Vec<String>>)> = None;
    let mut below: Option<u8> = None;
    proof {
        lemma_trees(nodes@);
    }
    let mut i: usize = 0;
    while i < nodes.len()
        invariant
            t.wf(),
            i <= nodes@.len(),
            all == trees(nodes@),
            all.len() == nodes@.len(),
            forall|k: int| 0 <= k < nodes@.len() ==> #[trigger] all[k] == tree(nodes@[k]),
            want == paint_root(
                p@,
                all,
                i as int,
                pending_view(pending),
                below,
                sc,
                page@,
                t@,
            ),
        decreases nodes.len() - i,
    {
        let n = &nodes[i];
        assert(all[i as int] == tree(nodes@[i as int]));
        proof {
            lemma_weight_one(all, i as int);
        }
        let hidden = match below {
            Some(d) => match &n.kind {
                Kind::Heading(h) => *h > d,
                _ => true,
            },
            None => false,
        };
        if !hidden {
            below = None;
            if let Some(m) = read_marker(&n.kind) {
                pending = Some(m);
            } else if let Kind::Table = &n.kind {
                let (style, widths) = match pending {
                    Some(m) => m,
                    None => (TableStyle::Grid, None),
                };
                pending = None;
                push_table(p, n, style, widths, sc, page, t);
            } else {
                pending = None;
                push_block(p, n, sc, page, t);
                if let Kind::Heading(d) = &n.kind {
                    if folded_at(&n.at, sc, page, t) {
                        below = Some(*d);
                    }
                }
            }
        }
        i += 1;
    }
}

/// Paints a whole page: `source` with its math fences normalized, and what it
/// parses into, if it is parsed yet.
pub fn paint_page(source: &str, blocks: Option<&Vec<DocNode>>, page: &MarkdownView) -> (r: Vec<Op>)
    ensures
        crate::ops::op_views(r@) == painted(
            match blocks {
                Some(b) => Some(trees(b@)),
                None => None,
            },
            page@,
            source@,
        ).ops,
{
    let mut p = Painter::new();
    match blocks {
        Some(nodes) => {
            collect_all_definitions(nodes, &mut p.defs);
            assert(p@ == (Paint { defs: defs_with_all(seq![], trees(nodes@), 0), ..blank() }));
            let t = Text::new(source);
            push_root(&mut p, nodes, Scope { depth: 0, tight: false, done: false }, page, &t);
        },
        None => {
            p.put(Op::Plain(source.to_owned()));
        },
    }
    p.ops
}

} // verus!
