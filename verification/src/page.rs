//! Painting a page: the walk over its document tree that decides what is shown,
//! in which containers, and with which marks.
use crate::direction::{base_direction, contains_rtl, content_direction, first_strong};
use crate::direction::{line_direction, or_ltr, strong_rtl, Direction};
use crate::doc::{find_source, source_slice};
use crate::inline::{build_inline, moved, nothing, plain_style, with_nodes};
use crate::inline::{Host, Ink, Inline, Known, Setting, Shown, Style};
use crate::ops::{put, Mark, Op, Paint, Painter};
use crate::overlay::{ink_views, overlaid, overlay_search};
use crate::rows::{MixedSeg, Piece, Row, RowView};
use crate::search::{matches_of, scan_matches};
use crate::text::{offset, to_string, views, Text};
use crate::tree::{opt_view, trees, DocNode, Span, Tree};
use std::ops::Range;
use std::sync::Arc;
use vstd::prelude::*;

verus! {

// --- What the host brings ---

/// A page that another embeds: its target as written, the label shown above it,
/// its text, and what that parses into, if it is parsed yet.
#[derive(Debug)]
pub struct Embed {
    pub target: String,
    pub label: String,
    pub content: String,
    pub blocks: Option<Arc<Vec<DocNode>>>,
}

/// An [`Embed`] as a value.
pub struct Embedded {
    pub target: Seq<char>,
    pub label: Seq<char>,
    pub content: Seq<char>,
    pub blocks: Option<Seq<Tree>>,
}

impl View for Embed {
    type V = Embedded;

    open spec fn view(&self) -> Embedded {
        Embedded {
            target: self.target@,
            label: self.label@,
            content: self.content@,
            blocks: match self.blocks {
                Some(b) => Some(trees((*b)@)),
                None => None,
            },
        }
    }
}

/// A page to show: its source, what the host has looked up for it, and which of
/// the host's renderers and handlers there are.
#[derive(Debug)]
pub struct MarkdownView {
    pub source: String,
    pub host: Host,
    pub embeds: Vec<Embed>,
    /// The width attributes that read as positive numbers.
    pub widths: Vec<String>,
    /// The fold keys of the folded headings.
    pub folded: Vec<String>,
    pub query: Option<String>,
    pub current: usize,
    pub math: bool,
    pub mermaid: bool,
    pub images: bool,
    pub embed_images: bool,
    pub heading_toggle: bool,
    pub task_toggle: bool,
    pub alert_toggle: bool,
}

/// A [`MarkdownView`] as a value.
pub struct ViewState {
    pub source: Seq<char>,
    pub host: Known,
    pub embeds: Seq<Embedded>,
    pub widths: Seq<Seq<char>>,
    pub folded: Seq<Seq<char>>,
    pub query: Option<Seq<char>>,
    pub current: int,
    pub math: bool,
    pub mermaid: bool,
    pub images: bool,
    pub embed_images: bool,
    pub heading_toggle: bool,
    pub task_toggle: bool,
    pub alert_toggle: bool,
}

impl View for MarkdownView {
    type V = ViewState;

    open spec fn view(&self) -> ViewState {
        ViewState {
            source: self.source@,
            host: self.host@,
            embeds: self.embeds@.map_values(|e: Embed| e@),
            widths: views(self.widths@),
            folded: views(self.folded@),
            query: opt_view(self.query),
            current: self.current as int,
            math: self.math,
            mermaid: self.mermaid,
            images: self.images,
            embed_images: self.embed_images,
            heading_toggle: self.heading_toggle,
            task_toggle: self.task_toggle,
            alert_toggle: self.alert_toggle,
        }
    }
}

/// How large a heading of a depth is, in percent of the body text: the first
/// is largest, the sixth is as large as the body.
pub open spec fn scale_of(depth: int) -> u32 {
    if depth == 1 {
        180
    } else if depth == 2 {
        150
    } else if depth == 3 {
        130
    } else if depth == 4 {
        115
    } else if depth == 5 {
        105
    } else {
        100
    }
}

/// How large a heading of a depth is, in percent of the body text: one scale
/// for reading, editing and export.
pub fn heading_scale(depth: u8) -> (r: u32)
    ensures
        r == scale_of(depth as int),
{
    match depth {
        1 => 180,
        2 => 150,
        3 => 130,
        4 => 115,
        5 => 105,
        _ => 100,
    }
}

/// A deeper heading is never larger, and none is smaller than the body.
pub proof fn law_deeper_headings_are_no_larger(a: int, b: int)
    requires
        1 <= a <= b,
    ensures
        100 <= scale_of(b) <= scale_of(a),
{
}

/// Embeds inside embeds stop at this depth, which also ends cycles of pages
/// that embed each other.
pub const MAX_EMBEDS: usize = 3;

/// Where painting stands: how many embeds deep, whether a heading drops the
/// room above it, and whether the text is that of a done task.
#[derive(Clone, Copy, PartialEq, Eq, Debug, Structural)]
pub struct Scope {
    pub depth: usize,
    pub tight: bool,
    pub done: bool,
}

/// The top of a page.
pub open spec fn top() -> Scope {
    Scope { depth: 0, tight: false, done: false }
}

/// The embed of a target: the first that is listed from `i` on.
pub open spec fn embed_from(all: Seq<Embedded>, target: Seq<char>, i: int) -> Option<int>
    decreases all.len() - i,
{
    if i < 0 || i >= all.len() {
        None
    } else if all[i].target == target {
        Some(i)
    } else {
        embed_from(all, target, i + 1)
    }
}

pub(crate) fn find_embed(page: &MarkdownView, target: &String) -> (r: Option<usize>)
    ensures
        r is Some == embed_from(page@.embeds, target@, 0) is Some,
        r is Some ==> r->0 as int == embed_from(page@.embeds, target@, 0)->0 && r->0
            < page.embeds@.len(),
{
    let ghost all = page@.embeds;
    let mut i: usize = 0;
    while i < page.embeds.len()
        invariant
            i <= page.embeds@.len(),
            all == page@.embeds,
            embed_from(all, target@, 0) == embed_from(all, target@, i as int),
        decreases page.embeds.len() - i,
    {
        assert(all[i as int] == page.embeds@[i as int]@);
        if page.embeds[i].target == *target {
            return Some(i);
        }
        i += 1;
    }
    None
}

pub(crate) fn listed(all: &Vec<String>, s: &String) -> (r: bool)
    ensures
        r == views(all@).contains(s@),
{
    let mut i: usize = 0;
    while i < all.len()
        invariant
            i <= all@.len(),
            forall|k: int| 0 <= k < i ==> #[trigger] views(all@)[k] != s@,
        decreases all.len() - i,
    {
        assert(views(all@)[i as int] == all@[i as int]@);
        if all[i] == *s {
            return true;
        }
        i += 1;
    }
    false
}

// --- Inline content ---

/// The style that inline content starts with: that of a done task is struck
/// through and muted.
pub open spec fn base_style(done: bool) -> Style {
    if done {
        Style { strike: true, color: Some(Ink::Muted), ..plain_style() }
    } else {
        plain_style()
    }
}

/// The colour of a match: stronger for the current one.
pub open spec fn match_ink(ix: int, current: int) -> Ink {
    if ix == current {
        Ink::CurrentMatch
    } else {
        Ink::Match
    }
}

/// The byte ranges of the matches at `places` of `s`, with their colours; the
/// first is match `seen` of the page.
pub open spec fn match_runs(
    s: Seq<char>,
    q: Seq<char>,
    places: Seq<int>,
    seen: int,
    current: int,
) -> Seq<(int, int, Ink)> {
    Seq::new(
        places.len(),
        |k: int|
            (
                offset(s, places[k]) as int,
                offset(s, places[k] + q.len()) as int,
                match_ink(moved(seen, k), current),
            ),
    )
}

/// The query in force: none inside an embed.
pub open spec fn query_at(page: ViewState, sc: Scope) -> Option<Seq<char>> {
    if sc.depth == 0 {
        page.query
    } else {
        None
    }
}

/// What inline nodes show, before the search.
pub open spec fn shown_of(st: Paint, nodes: Seq<Tree>, sc: Scope, page: ViewState) -> Shown {
    with_nodes(
        nothing(),
        nodes,
        0,
        base_style(sc.done),
        Setting { host: page.host, defs: st.defs },
    )
}

/// The step that shows inline content.
pub open spec fn inline_mark(shown: Shown) -> Mark {
    Mark::Inline {
        shown,
        rtl: or_ltr(first_strong(shown.text, 0)) == Direction::Rtl,
        bidi: exists|k: int| 0 <= k < shown.text.len() && strong_rtl(#[trigger] shown.text[k]),
    }
}

/// `st` with inline nodes, the search laid over them.
pub open spec fn paint_inline(st: Paint, nodes: Seq<Tree>, sc: Scope, page: ViewState) -> Paint {
    let shown = shown_of(st, nodes, sc, page);
    match query_at(page, sc) {
        None => put(st, inline_mark(shown)),
        Some(q) => {
            let places = matches_of(shown.text, q);
            let found = match_runs(shown.text, q, places, st.seen, page.current);
            put(
                Paint { seen: moved(st.seen, places.len() as int), ..st },
                inline_mark(Shown { runs: overlaid(shown.runs, found), ..shown }),
            )
        },
    }
}

fn ink_matches(found: Vec<Range<usize>>, seen: &mut usize, current: usize) -> (r: Vec<
    (Range<usize>, Ink),
>)
    ensures
        r@.len() == found@.len(),
        *final(seen) as int == moved(*old(seen) as int, found@.len() as int),
        forall|k: int|
            0 <= k < r@.len() ==> (#[trigger] ink_views(r@)[k]) == (
                found@[k].start as int,
                found@[k].end as int,
                match_ink(moved(*old(seen) as int, k), current as int),
            ),
{
    let mut out: Vec<(Range<usize>, Ink)> = Vec::new();
    let ghost first = *seen as int;
    let mut i: usize = 0;
    while i < found.len()
        invariant
            i <= found@.len(),
            out@.len() == i,
            first == *old(seen) as int,
            0 <= first <= usize::MAX,
            *seen as int == moved(first, i as int),
            forall|k: int|
                0 <= k < out@.len() ==> (#[trigger] ink_views(out@)[k]) == (
                    found@[k].start as int,
                    found@[k].end as int,
                    match_ink(moved(first, k), current as int),
                ),
        decreases found.len() - i,
    {
        let ink = if *seen == current {
            Ink::CurrentMatch
        } else {
            Ink::Match
        };
        let range = Range { start: found[i].start, end: found[i].end };
        let ghost before = ink_views(out@);
        out.push((range, ink));
        assert forall|k: int| 0 <= k < out@.len() implies (#[trigger] ink_views(out@)[k]) == (
            found@[k].start as int,
            found@[k].end as int,
            match_ink(moved(first, k), current as int),
        ) by {
            if k < i {
                assert(ink_views(out@)[k] == before[k]);
            }
        }
        *seen = seen.saturating_add(1);
        i += 1;
    }
    out
}

pub(crate) fn push_inline(p: &mut Painter, nodes: &[DocNode], sc: Scope, page: &MarkdownView)
    ensures
        final(p)@ == paint_inline(old(p)@, trees(nodes@), sc, page@),
{
    let ghost before = p@;
    let mut base = Style::default();
    if sc.done {
        base = Style { strike: true, color: Some(Ink::Muted), ..base };
    }
    let mut out = Inline::new();
    build_inline(nodes, base, &page.host, &p.defs, &mut out);
    let ghost shown = out@;
    assert(shown == shown_of(before, trees(nodes@), sc, page@));
    if sc.depth == 0 {
        if let Some(q) = &page.query {
            let found = scan_matches(out.text.as_str(), q.as_str());
            let ghost rows = found@;
            let ghost places = matches_of(shown.text, q@);
            let search = ink_matches(found, &mut p.seen, page.current);
            assert(ink_views(search@) =~= match_runs(
                shown.text,
                q@,
                places,
                before.seen,
                page.current as int,
            ));
            out.highlights = overlay_search(out.highlights, &search);
        }
    }
    let rtl = base_direction(out.text.as_str()).is_rtl();
    let bidi = contains_rtl(out.text.as_str());
    p.put(Op::Inline { shown: out, rtl, bidi });
}

// --- Direction ---

/// Whether the source of a node reads right to left.
pub open spec fn reads_rtl(s: Seq<char>, at: Option<Span>) -> bool {
    match source_slice(s, at) {
        Some(t) => or_ltr(line_direction(t)) == Direction::Rtl,
        None => false,
    }
}

pub(crate) fn is_rtl_at(t: &Text, at: &Option<Span>) -> (r: bool)
    requires
        t.wf(),
    ensures
        r == reads_rtl(t@, *at),
{
    match find_source(t, at) {
        Some(s) => {
            let line = to_string(s);
            content_direction(line.as_str()).is_rtl()
        },
        None => false,
    }
}

// --- Properties ---

/// Whether a panel reads right to left: as soon as one of its values does.
pub open spec fn panel_rtl(rows: Seq<RowView>) -> bool {
    exists|k: int|
        0 <= k < rows.len() && or_ltr(line_direction((#[trigger] rows[k]).value))
            == Direction::Rtl
}

/// `st` with a panel of properties.
pub open spec fn paint_rows(st: Paint, rows: Seq<RowView>) -> Paint {
    put(st, Mark::Properties { rows, rtl: panel_rtl(rows) })
}

pub(crate) fn push_rows(p: &mut Painter, rows: Vec<Row>)
    ensures
        final(p)@ == paint_rows(old(p)@, crate::rows::row_views(rows@)),
{
    let ghost all = crate::rows::row_views(rows@);
    let mut rtl = false;
    let mut i: usize = 0;
    while i < rows.len() && !rtl
        invariant
            i <= rows@.len(),
            all == crate::rows::row_views(rows@),
            rtl ==> panel_rtl(all),
            !rtl ==> forall|k: int|
                0 <= k < i ==> or_ltr(line_direction((#[trigger] all[k]).value)) != Direction::Rtl,
        decreases rows.len() - i,
    {
        assert(all[i as int] == rows@[i as int]@);
        if content_direction(rows[i].value.as_str()).is_rtl() {
            rtl = true;
        }
        i += 1;
    }
    p.put(Op::Properties { rows, rtl });
}

/// `st` with the pieces of a mixed paragraph from `i` on.
pub open spec fn paint_pieces(st: Paint, pieces: Seq<Piece>, i: int, sc: Scope, page: ViewState) -> Paint
    decreases pieces.len() - i,
{
    if i < 0 || i >= pieces.len() {
        st
    } else {
        let next = match pieces[i] {
            Piece::Prose(nodes) => paint_inline(st, nodes, sc, page),
            Piece::Props(rows) => paint_rows(st, rows),
        };
        paint_pieces(next, pieces, i + 1, sc, page)
    }
}

pub(crate) fn push_pieces(p: &mut Painter, pieces: Vec<MixedSeg>, sc: Scope, page: &MarkdownView)
    ensures
        final(p)@ == paint_pieces(
            old(p)@,
            crate::rows::piece_views(pieces@),
            0,
            sc,
            page@,
        ),
{
    let ghost all = crate::rows::piece_views(pieces@);
    let ghost want = paint_pieces(p@, all, 0, sc, page@);
    let ghost mut n: int = 0;
    for piece in it: pieces
        invariant
            all == crate::rows::piece_views(it.seq()),
            it.index() == n,
            want == paint_pieces(p@, all, n, sc, page@),
    {
        assert(all[n] == piece@);
        match piece {
            MixedSeg::Prose(nodes) => {
                push_inline(p, nodes.as_slice(), sc, page);
            },
            MixedSeg::Props(rows) => {
                push_rows(p, rows);
            },
        }
        proof {
            n = n + 1;
        }
    }
}

} // verus!
