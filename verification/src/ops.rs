//! What a page is painted as: a flat stream of marks, each container opened and
//! closed in turn.
use crate::alerts::AlertKind;
use crate::images::{ImageInfo, Picture};
use crate::inline::{def_views, Inline, Shown};
use crate::math::MathMarkerAlign;
use crate::rows::{row_views, Row, RowView};
use crate::tables::TableStyle;
use crate::text::views;
use crate::tree::{opt_view, Align};
use vstd::prelude::*;

verus! {

/// What leads a list item. A task says whether it is done, and where the item
/// stands in the source if a click flips it.
#[derive(PartialEq, Eq, Debug)]
pub enum Marker<S> {
    Bullet,
    Number(S),
    Task { done: bool, at: Option<usize> },
}

/// One step of painting a page.
#[derive(PartialEq, Eq, Debug)]
pub enum Op {
    /// A run of inline content. `rtl` right-aligns it; `bidi` says that some of
    /// it runs right to left.
    Inline { shown: Inline, rtl: bool, bidi: bool },
    /// A typeset formula on its own row.
    Formula { latex: String, side: Option<MathMarkerAlign> },
    /// A formula as its raw source.
    RawMath(String),
    /// A panel of properties.
    Properties { rows: Vec<Row>, rtl: bool },
    /// An image; `sized` says that its width attribute holds.
    Image { info: ImageInfo, sized: bool },
    Mermaid(String),
    Code { lang: Option<String>, value: String },
    Rule,
    Html(String),
    Plain(String),
    OpenColumn,
    /// A heading. `tight` drops the room above it; `fold` is its fold key and
    /// whether it is folded, where it shows a chevron.
    OpenHeading { depth: u8, tight: bool, rtl: bool, fold: Option<(String, bool)> },
    OpenList { nested: bool },
    /// A list item. `lead` is the depth of a heading that it begins with, or
    /// zero; `guide` hangs a line below the marker.
    OpenItem { marker: Marker<String>, lead: u8, guide: bool, rtl: bool },
    /// A callout; `at` is where its marker stands in the source, `live`
    /// whether a click flips its fold.
    OpenCallout { kind: AlertKind, folded: Option<bool>, at: usize, live: bool, rtl: bool },
    OpenQuote { rtl: bool },
    OpenTable { style: TableStyle, widths: Option<Vec<String>>, columns: usize, rtl: bool },
    OpenRow { divider: bool, shaded: bool },
    OpenCell { align: Align, divider: bool, header: bool },
    OpenFootnote(String),
    OpenEmbed { target: String, label: String },
    /// The end of what was opened last.
    Close,
}

/// An [`Op`] as a value.
pub enum Mark {
    Inline { shown: Shown, rtl: bool, bidi: bool },
    Formula { latex: Seq<char>, side: Option<MathMarkerAlign> },
    RawMath(Seq<char>),
    Properties { rows: Seq<RowView>, rtl: bool },
    Image { info: Picture, sized: bool },
    Mermaid(Seq<char>),
    Code { lang: Option<Seq<char>>, value: Seq<char> },
    Rule,
    Html(Seq<char>),
    Plain(Seq<char>),
    OpenColumn,
    OpenHeading { depth: u8, tight: bool, rtl: bool, fold: Option<(Seq<char>, bool)> },
    OpenList { nested: bool },
    OpenItem { marker: Marker<Seq<char>>, lead: u8, guide: bool, rtl: bool },
    OpenCallout { kind: AlertKind, folded: Option<bool>, at: int, live: bool, rtl: bool },
    OpenQuote { rtl: bool },
    OpenTable { style: TableStyle, widths: Option<Seq<Seq<char>>>, columns: int, rtl: bool },
    OpenRow { divider: bool, shaded: bool },
    OpenCell { align: Align, divider: bool, header: bool },
    OpenFootnote(Seq<char>),
    OpenEmbed { target: Seq<char>, label: Seq<char> },
    Close,
}

/// A marker as a value.
pub open spec fn marker_view(m: Marker<String>) -> Marker<Seq<char>> {
    match m {
        Marker::Bullet => Marker::Bullet,
        Marker::Number(s) => Marker::Number(s@),
        Marker::Task { done, at } => Marker::Task { done, at },
    }
}

/// A fold key and state as values.
pub open spec fn fold_view(f: Option<(String, bool)>) -> Option<(Seq<char>, bool)> {
    match f {
        Some((k, b)) => Some((k@, b)),
        None => None,
    }
}

/// Width fields as values.
pub open spec fn widths_view(w: Option<Vec<String>>) -> Option<Seq<Seq<char>>> {
    match w {
        Some(v) => Some(views(v@)),
        None => None,
    }
}

impl View for Op {
    type V = Mark;

    open spec fn view(&self) -> Mark {
        match *self {
            Op::Inline { shown, rtl, bidi } => Mark::Inline { shown: shown@, rtl, bidi },
            Op::Formula { latex, side } => Mark::Formula { latex: latex@, side },
            Op::RawMath(s) => Mark::RawMath(s@),
            Op::Properties { rows, rtl } => Mark::Properties { rows: row_views(rows@), rtl },
            Op::Image { info, sized } => Mark::Image { info: info@, sized },
            Op::Mermaid(s) => Mark::Mermaid(s@),
            Op::Code { lang, value } => Mark::Code { lang: opt_view(lang), value: value@ },
            Op::Rule => Mark::Rule,
            Op::Html(s) => Mark::Html(s@),
            Op::Plain(s) => Mark::Plain(s@),
            Op::OpenColumn => Mark::OpenColumn,
            Op::OpenHeading { depth, tight, rtl, fold } => Mark::OpenHeading {
                depth,
                tight,
                rtl,
                fold: fold_view(fold),
            },
            Op::OpenList { nested } => Mark::OpenList { nested },
            Op::OpenItem { marker, lead, guide, rtl } => Mark::OpenItem {
                marker: marker_view(marker),
                lead,
                guide,
                rtl,
            },
            Op::OpenCallout { kind, folded, at, live, rtl } => Mark::OpenCallout {
                kind,
                folded,
                at: at as int,
                live,
                rtl,
            },
            Op::OpenQuote { rtl } => Mark::OpenQuote { rtl },
            Op::OpenTable { style, widths, columns, rtl } => Mark::OpenTable {
                style,
                widths: widths_view(widths),
                columns: columns as int,
                rtl,
            },
            Op::OpenRow { divider, shaded } => Mark::OpenRow { divider, shaded },
            Op::OpenCell { align, divider, header } => Mark::OpenCell { align, divider, header },
            Op::OpenFootnote(s) => Mark::OpenFootnote(s@),
            Op::OpenEmbed { target, label } => Mark::OpenEmbed { target: target@, label: label@ },
            Op::Close => Mark::Close,
        }
    }
}

/// Steps as values.
pub open spec fn op_views(v: Seq<Op>) -> Seq<Mark> {
    v.map_values(|o: Op| o@)
}

/// A page that is being painted: the steps so far, how many search matches were
/// met, and the reference definitions in force.
#[derive(PartialEq, Eq, Debug)]
pub struct Painter {
    pub ops: Vec<Op>,
    pub seen: usize,
    pub defs: Vec<(String, String)>,
}

/// A [`Painter`] as a value.
pub struct Paint {
    pub ops: Seq<Mark>,
    pub seen: int,
    pub defs: Seq<(Seq<char>, Seq<char>)>,
}

impl View for Painter {
    type V = Paint;

    open spec fn view(&self) -> Paint {
        Paint { ops: op_views(self.ops@), seen: self.seen as int, defs: def_views(self.defs@) }
    }
}

/// Nothing painted.
pub open spec fn blank() -> Paint {
    Paint { ops: seq![], seen: 0, defs: seq![] }
}

/// `p` with one more step.
pub open spec fn put(p: Paint, m: Mark) -> Paint {
    Paint { ops: p.ops.push(m), ..p }
}

impl Painter {
    /// Nothing painted.
    pub fn new() -> (r: Painter)
        ensures
            r@ == blank(),
    {
        let r = Painter { ops: Vec::new(), seen: 0, defs: Vec::new() };
        assert(r@.ops =~= seq![]);
        assert(r@.defs =~= seq![]);
        r
    }

    /// One more step.
    pub fn put(&mut self, op: Op)
        ensures
            final(self)@ == put(old(self)@, op@),
    {
        let ghost before = self@;
        let ghost m = op@;
        self.ops.push(op);
        assert(self@.ops =~= before.ops.push(m));
    }
}

} // verus!
