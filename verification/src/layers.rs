//! What of a board is painted, and in which order: layers of elements from the
//! back to the front, and over them the selection's frame and handles.
use crate::board::{lone, WhiteboardView, BoardState, ConnectPoint, Draft, Ui};
use crate::mindmap::link_style;
use crate::press::{any_rotatable, any_selected};
use crate::scene::{connector_capable, find_element, holds_id, is_boxed, is_closed};
use crate::scene::{is_closed_shape, is_rotatable, item_of};
use crate::scene::{rotatable, Element, ElementKind, Item, MindMapConnectorStyle};
use crate::text::{blank, to_string, trim, trim_range, part, Text};
use vstd::prelude::*;

verus! {

/// Text that is painted with an element.
#[derive(PartialEq, Eq, Debug)]
pub struct Shown<S> {
    pub text: S,
    /// The colour; without one it follows the theme.
    pub color: Option<u32>,
    /// Whether it is being edited, so that the caret and what is selected show.
    pub active: bool,
}

/// An element that is painted on the canvas.
#[derive(PartialEq, Eq, Debug)]
pub struct ElemPaint<S> {
    pub id: u64,
    /// Where it is among all elements.
    pub index: usize,
    pub text: Option<Shown<S>>,
    /// How a line of a mind map is drawn.
    pub link: Option<MindMapConnectorStyle>,
}

/// A layer of a board.
#[derive(PartialEq, Eq, Debug)]
pub enum Layer {
    /// Elements painted on one canvas.
    Band(Vec<ElemPaint<String>>),
    /// A page card or an image, by its place among all elements.
    Overlay { id: u64, index: usize },
}

/// A [`Layer`] as a value.
pub enum LayerView {
    Band(Seq<ElemPaint<Seq<char>>>),
    Overlay { id: u64, index: usize },
}

/// Text as a value.
pub open spec fn shown_view(t: Option<Shown<String>>) -> Option<Shown<Seq<char>>> {
    match t {
        Some(s) => Some(Shown { text: s.text@, color: s.color, active: s.active }),
        None => None,
    }
}

/// A painted element as a value.
pub open spec fn paint_view(p: ElemPaint<String>) -> ElemPaint<Seq<char>> {
    ElemPaint { id: p.id, index: p.index, text: shown_view(p.text), link: p.link }
}

/// Painted elements as values.
pub open spec fn paint_views(v: Seq<ElemPaint<String>>) -> Seq<ElemPaint<Seq<char>>> {
    v.map_values(|p: ElemPaint<String>| paint_view(p))
}

impl View for Layer {
    type V = LayerView;

    open spec fn view(&self) -> LayerView {
        match self {
            Layer::Band(v) => LayerView::Band(paint_views(v@)),
            Layer::Overlay { id, index } => LayerView::Overlay { id: *id, index: *index },
        }
    }
}

/// Layers as values.
pub open spec fn layer_views(v: Seq<Layer>) -> Seq<LayerView> {
    v.map_values(|l: Layer| l@)
}

/// What is over the elements.
#[derive(Clone, Copy, PartialEq, Eq, Debug, Structural)]
pub struct Chrome {
    /// The element that is being drawn.
    pub pending: Option<Draft>,
    /// The one element that has a frame with handles.
    pub single: Option<u64>,
    /// Several elements have a frame.
    pub group: bool,
    /// The side of an element that the end of a line is near.
    pub snap: Option<ConnectPoint>,
    /// The one element has buttons to draw lines from.
    pub connectors: bool,
    /// There is a handle to turn the selection by.
    pub rotate: bool,
    pub marquee: bool,
}

/// What a thumbnail shows.
#[derive(Clone, Copy, PartialEq, Eq, Debug, Structural)]
pub enum LocalThumbnailMode {
    /// The selection, or else what is in view, or else everything.
    Auto,
    Selection,
    Viewport,
    AllContent,
    Element(u64),
}

/// What a thumbnail is centred on, with the element that it is of.
#[derive(Clone, Copy, PartialEq, Eq, Debug, Structural)]
pub enum Focus {
    Selection(Option<u64>),
    Viewport,
    AllContent,
    Element(u64),
}

/// The shape of the pointer.
#[derive(Clone, Copy, PartialEq, Eq, Debug, Structural)]
pub enum Cursor {
    ClosedHand,
    OpenHand,
    Arrow,
}

// --- What is meant ---

/// Whether an element is painted as a layer of its own.
pub open spec fn is_overlay(e: Item) -> bool {
    e.kind is Embed || e.kind is Image
}

/// The text that is painted with an element: a text's content; a closed shape's
/// label, without the space around it, if there is any or it is being edited.
pub open spec fn shown_text(e: Item, editing: Option<u64>) -> Option<Shown<Seq<char>>> {
    let active = editing == Some(e.id);
    match e.kind {
        ElementKind::Text(t) => Some(Shown { text: t, color: e.stroke, active }),
        _ => if is_closed(e.kind) && (active || (e.label matches Some(l) && !blank(l))) {
            Some(
                Shown {
                    text: match e.label {
                        Some(l) => trim(l),
                        None => Seq::empty(),
                    },
                    color: match e.label_color {
                        Some(c) => Some(c),
                        None => e.stroke,
                    },
                    active,
                },
            )
        } else {
            None
        },
    }
}

/// How an element is painted on the canvas.
pub open spec fn painted(b: BoardState, i: int) -> ElemPaint<Seq<char>> {
    let e = b.scene.elements[i];
    ElemPaint {
        id: e.id,
        index: i as usize,
        text: shown_text(e, b.ui.edit.editing),
        link: link_style(b.scene.elements, e.kind),
    }
}

/// The layers of the first `n` elements, of which the last may still grow.
pub open spec fn stacked(b: BoardState, visible: Seq<u64>, n: int) -> (
    Seq<LayerView>,
    Seq<ElemPaint<Seq<char>>>,
)
    decreases n,
{
    if n <= 0 {
        (Seq::empty(), Seq::empty())
    } else {
        let (layers, band) = stacked(b, visible, n - 1);
        let e = b.scene.elements[n - 1];
        if !visible.contains(e.id) {
            (layers, band)
        } else if is_overlay(e) {
            (
                closed_off(layers, band).push(
                    LayerView::Overlay { id: e.id, index: (n - 1) as usize },
                ),
                Seq::empty(),
            )
        } else {
            (layers, band.push(painted(b, n - 1)))
        }
    }
}

/// Layers with the last band closed.
pub open spec fn closed_off(
    layers: Seq<LayerView>,
    band: Seq<ElemPaint<Seq<char>>>,
) -> Seq<LayerView> {
    if band.len() == 0 {
        layers
    } else {
        layers.push(LayerView::Band(band))
    }
}

/// The layers of a board: the elements that are listed, in paint order, those
/// between two cards or images on one canvas.
pub open spec fn board_layers(b: BoardState, visible: Seq<u64>) -> Seq<LayerView> {
    let (layers, band) = stacked(b, visible, b.scene.elements.len() as int);
    closed_off(layers, band)
}

/// The one element that has a frame: the one selected, unless its text is edited.
pub open spec fn framed(b: BoardState) -> Option<Item> {
    match lone(b.selected) {
        Some(id) => if b.ui.edit.editing == Some(id) {
            None
        } else {
            item_of(b.scene.elements, id)
        },
        None => None,
    }
}

/// What is over the elements.
pub open spec fn chrome_of(b: BoardState) -> Chrome {
    let d = b.ui.drag;
    let group = b.selected.len() > 1 && any_selected(b);
    Chrome {
        pending: d.pending,
        single: match framed(b) {
            Some(e) => Some(e.id),
            None => None,
        },
        group,
        snap: match (d.connecting, d.hovered_connector) {
            (Some(from), Some(t)) => if t.id != from.id && item_of(b.scene.elements, t.id) is Some {
                Some(t)
            } else {
                None
            },
            _ => None,
        },
        connectors: (framed(b) matches Some(e) && is_boxed(e.kind)) && d.connecting is None
            && d.pending is None,
        rotate: (framed(b) matches Some(e) && is_rotatable(e.kind)) || (group && any_rotatable(b)),
        marquee: d.marquee,
    }
}

/// What a thumbnail is centred on.
pub open spec fn focus_of(b: BoardState, mode: LocalThumbnailMode, in_view: bool) -> Option<Focus> {
    let content = b.scene.elements.len() > 0;
    match mode {
        LocalThumbnailMode::Auto => if any_selected(b) {
            Some(Focus::Selection(lone(b.selected)))
        } else if in_view {
            Some(Focus::Viewport)
        } else if content {
            Some(Focus::AllContent)
        } else {
            None
        },
        LocalThumbnailMode::Selection => if any_selected(b) {
            Some(Focus::Selection(lone(b.selected)))
        } else {
            None
        },
        LocalThumbnailMode::Viewport => if in_view {
            Some(Focus::Viewport)
        } else {
            None
        },
        LocalThumbnailMode::AllContent => if content {
            Some(Focus::AllContent)
        } else {
            None
        },
        LocalThumbnailMode::Element(id) => if item_of(b.scene.elements, id) is Some {
            Some(Focus::Element(id))
        } else {
            None
        },
    }
}

/// The shape of the pointer: a hand while, or where, a drag moves the canvas.
pub open spec fn cursor_of(u: Ui) -> Cursor {
    if u.drag.panning {
        Cursor::ClosedHand
    } else if u.read_only || u.tool == crate::tools::Tool::Pan {
        Cursor::OpenHand
    } else {
        Cursor::Arrow
    }
}

// --- How it is done ---

proof fn lemma_blank_trim(s: Seq<char>)
    ensures
        blank(s) <==> trim(s).len() == 0,
{
    crate::text::lemma_space_end(s, 0);
    let t = crate::text::trim_start(s);
    crate::text::lemma_space_start(t, t.len() as int);
    let k = crate::text::space_end(s, 0);
    if k < s.len() {
        assert(t[0] == s[k]);
        lemma_some_left(t, t.len() as int);
    }
}

proof fn lemma_some_left(t: Seq<char>, n: int)
    requires
        0 < n <= t.len(),
        !crate::text::is_space(t[0]),
    ensures
        crate::text::space_start(t, n) > 0,
    decreases n,
{
    if n > 1 && crate::text::is_space(t[n - 1]) {
        lemma_some_left(t, n - 1);
    }
}

fn text_shown(e: &Element, editing: Option<u64>) -> (r: Option<Shown<String>>)
    ensures
        shown_view(r) == shown_text(e@, editing),
{
    let active = editing == Some(e.id);
    match &e.kind {
        ElementKind::Text(t) => Some(
            Shown { text: t.as_str().to_owned(), color: e.stroke, active },
        ),
        _ => {
            if !is_closed_shape(&e.kind) {
                return None;
            }
            let text = match &e.label {
                Some(l) => {
                    let t = Text::new(l.as_str());
                    let (a, b) = trim_range(&t.chars);
                    proof {
                        lemma_blank_trim(l@);
                    }
                    to_string(part(&t.chars, a, b))
                },
                None => {
                    let t = String::new();
                    assert(t@ =~= Seq::<char>::empty());
                    t
                },
            };
            let n: usize = text.as_str().unicode_len();
            if !active && n == 0 {
                return None;
            }
            let color = match e.label_color {
                Some(c) => Some(c),
                None => e.stroke,
            };
            Some(Shown { text, color, active })
        },
    }
}

impl WhiteboardView {
    fn paint_one(&self, i: usize) -> (r: ElemPaint<String>)
        requires
            i < self.scene.elements@.len(),
        ensures
            paint_view(r) == painted(self@, i as int),
    {
        assert(self@.scene.elements[i as int] == self.scene.elements@[i as int]@);
        let e = &self.scene.elements[i];
        ElemPaint {
            id: e.id,
            index: i,
            text: text_shown(e, self.ui.edit.editing),
            link: self.mindmap_connector_style_for_element(&e.kind),
        }
    }

    /// The layers of the board, from the back to the front, of the elements
    /// that are in view.
    pub fn layers(&self, visible: &Vec<u64>) -> (r: Vec<Layer>)
        ensures
            layer_views(r@) == board_layers(self@, visible@),
    {
        let mut layers: Vec<Layer> = Vec::new();
        let mut band: Vec<ElemPaint<String>> = Vec::new();
        let mut i: usize = 0;
        proof {
            assert(layer_views(layers@) =~= Seq::<LayerView>::empty());
            assert(paint_views(band@) =~= Seq::<ElemPaint<Seq<char>>>::empty());
        }
        while i < self.scene.elements.len()
            invariant
                i <= self.scene.elements@.len(),
                (layer_views(layers@), paint_views(band@)) == stacked(self@, visible@, i as int),
            decreases self.scene.elements.len() - i,
        {
            assert(self@.scene.elements[i as int] == self.scene.elements@[i as int]@);
            let id: u64 = self.scene.elements[i].id;
            if holds_id(visible, id) {
                let overlay = match self.scene.elements[i].kind {
                    ElementKind::Embed { .. } | ElementKind::Image(_) => true,
                    _ => false,
                };
                if overlay {
                    let ghost a = layers@;
                    let ghost c = band@;
                    if band.len() > 0 {
                        let mut full: Vec<ElemPaint<String>> = Vec::new();
                        std::mem::swap(&mut band, &mut full);
                        let l = Layer::Band(full);
                        layers.push(l);
                        proof {
                            assert(paint_views(c).len() > 0);
                            assert(l@ == LayerView::Band(paint_views(c)));
                            assert(layer_views(layers@) =~= layer_views(a).push(l@));
                        }
                    }
                    assert(paint_views(band@) =~= Seq::<ElemPaint<Seq<char>>>::empty());
                    let ghost m = layers@;
                    let o = Layer::Overlay { id, index: i };
                    layers.push(o);
                    assert(layer_views(layers@) =~= layer_views(m).push(o@));
                } else {
                    let ghost c = band@;
                    let p = self.paint_one(i);
                    band.push(p);
                    assert(paint_views(band@) =~= paint_views(c).push(paint_view(p)));
                }
            }
            i += 1;
        }
        let ghost a = layers@;
        let ghost c = band@;
        assert(self@.scene.elements.len() == self.scene.elements@.len());
        if band.len() > 0 {
            let l = Layer::Band(band);
            layers.push(l);
            proof {
                assert(paint_views(c).len() > 0);
                assert(l@ == LayerView::Band(paint_views(c)));
                assert(layer_views(layers@) =~= layer_views(a).push(l@));
            }
        } else {
            assert(paint_views(c).len() == 0);
        }
        layers
    }

    fn framed_index(&self) -> (r: Option<usize>)
        ensures
            r is Some == framed(self@) is Some,
            r matches Some(i) ==> i < self.scene.elements@.len() && framed(self@) == Some(
                self.scene.elements@[i as int]@,
            ),
    {
        match self.selected_single() {
            Some(id) => if self.ui.edit.editing == Some(id) {
                None
            } else {
                match find_element(&self.scene.elements, id) {
                    Some(i) => {
                        assert(self@.scene.elements[i as int] == self.scene.elements@[i as int]@);
                        Some(i)
                    },
                    None => None,
                }
            },
            None => None,
        }
    }

    /// What is over the elements: what is being drawn, frames and handles.
    pub fn chrome(&self) -> (r: Chrome)
        ensures
            r == chrome_of(self@),
    {
        let d = self.ui.drag;
        let group = self.selected.len() > 1 && self.anything_selected();
        let (single, boxed, turns) = match self.framed_index() {
            Some(i) => {
                let e = &self.scene.elements[i];
                (Some(e.id), connector_capable(&e.kind), rotatable(&e.kind))
            },
            None => (None, false, false),
        };
        let snap = match (d.connecting, d.hovered_connector) {
            (Some(from), Some(t)) => if t.id != from.id && find_element(
                &self.scene.elements,
                t.id,
            ).is_some() {
                Some(t)
            } else {
                None
            },
            _ => None,
        };
        Chrome {
            pending: d.pending,
            single,
            group,
            snap,
            connectors: boxed && d.connecting.is_none() && d.pending.is_none(),
            rotate: turns || (group && self.group_rotatable()),
            marquee: d.marquee,
        }
    }

    /// What a thumbnail is centred on; `None` where there is nothing of it.
    pub fn thumbnail_focus(&self, mode: LocalThumbnailMode, in_view: bool) -> (r: Option<Focus>)
        ensures
            r == focus_of(self@, mode, in_view),
    {
        assert(self@.scene.elements.len() == self.scene.elements@.len());
        let content = self.scene.elements.len() > 0;
        match mode {
            LocalThumbnailMode::Auto => if self.anything_selected() {
                Some(Focus::Selection(self.selected_single()))
            } else if in_view {
                Some(Focus::Viewport)
            } else if content {
                Some(Focus::AllContent)
            } else {
                None
            },
            LocalThumbnailMode::Selection => if self.anything_selected() {
                Some(Focus::Selection(self.selected_single()))
            } else {
                None
            },
            LocalThumbnailMode::Viewport => if in_view {
                Some(Focus::Viewport)
            } else {
                None
            },
            LocalThumbnailMode::AllContent => if content {
                Some(Focus::AllContent)
            } else {
                None
            },
            LocalThumbnailMode::Element(id) => if find_element(&self.scene.elements, id).is_some() {
                Some(Focus::Element(id))
            } else {
                None
            },
        }
    }

    /// The shape of the pointer.
    pub fn cursor(&self) -> (r: Cursor)
        ensures
            r == cursor_of(self@.ui),
    {
        if self.ui.drag.panning {
            Cursor::ClosedHand
        } else if self.ui.read_only || self.ui.tool == crate::tools::Tool::Pan {
            Cursor::OpenHand
        } else {
            Cursor::Arrow
        }
    }
}

// --- What holds of it ---

/// Where the painted elements of a band are among all elements.
pub open spec fn band_places(v: Seq<ElemPaint<Seq<char>>>) -> Seq<int> {
    v.map_values(|p: ElemPaint<Seq<char>>| p.index as int)
}

/// Where the painted elements of layers are among all elements, from the back
/// to the front.
pub open spec fn paint_order(v: Seq<LayerView>) -> Seq<int>
    decreases v.len(),
{
    if v.len() == 0 {
        Seq::empty()
    } else {
        paint_order(v.drop_last()) + match v.last() {
            LayerView::Band(ps) => band_places(ps),
            LayerView::Overlay { id: _, index } => seq![index as int],
        }
    }
}

/// Where the listed elements are among the first `n`.
pub open spec fn places_upto(v: Seq<Item>, visible: Seq<u64>, n: int) -> Seq<int>
    decreases n,
{
    if n <= 0 {
        Seq::empty()
    } else if visible.contains(v[n - 1].id) {
        places_upto(v, visible, n - 1).push(n - 1)
    } else {
        places_upto(v, visible, n - 1)
    }
}

proof fn lemma_order_push(v: Seq<LayerView>, l: LayerView)
    ensures
        paint_order(v.push(l)) == paint_order(v) + match l {
            LayerView::Band(ps) => band_places(ps),
            LayerView::Overlay { id: _, index } => seq![index as int],
        },
{
    assert(v.push(l).drop_last() =~= v);
}

proof fn lemma_stacked_order(b: BoardState, visible: Seq<u64>, n: int)
    requires
        0 <= n <= b.scene.elements.len(),
        b.scene.elements.len() <= usize::MAX,
    ensures
        ({
            let (layers, band) = stacked(b, visible, n);
            paint_order(layers) + band_places(band) == places_upto(b.scene.elements, visible, n)
        }),
    decreases n,
{
    if n > 0 {
        lemma_stacked_order(b, visible, n - 1);
        let (layers, band) = stacked(b, visible, n - 1);
        let e = b.scene.elements[n - 1];
        let before = places_upto(b.scene.elements, visible, n - 1);
        if visible.contains(e.id) {
            if is_overlay(e) {
                let o = LayerView::Overlay { id: e.id, index: (n - 1) as usize };
                lemma_closed_order(layers, band);
                lemma_order_push(closed_off(layers, band), o);
                assert(before.push(n - 1) =~= before + seq![n - 1]);
                assert(band_places(Seq::<ElemPaint<Seq<char>>>::empty()) =~= Seq::<int>::empty());
                assert(paint_order(closed_off(layers, band).push(o)) + Seq::<int>::empty()
                    =~= before.push(n - 1));
            } else {
                let p = painted(b, n - 1);
                assert(band_places(band.push(p)) =~= band_places(band).push(n - 1));
                assert(paint_order(layers) + band_places(band).push(n - 1) =~= before.push(n - 1));
            }
        }
    } else {
        assert(paint_order(Seq::<LayerView>::empty()) + band_places(
            Seq::<ElemPaint<Seq<char>>>::empty(),
        ) =~= Seq::<int>::empty());
    }
}

proof fn lemma_closed_order(layers: Seq<LayerView>, band: Seq<ElemPaint<Seq<char>>>)
    ensures
        paint_order(closed_off(layers, band)) == paint_order(layers) + band_places(band),
{
    if band.len() == 0 {
        assert(paint_order(layers) + band_places(band) =~= paint_order(layers));
    } else {
        lemma_order_push(layers, LayerView::Band(band));
    }
}

/// The layers paint every element that is in view once, in paint order.
pub proof fn law_layers_keep_the_paint_order(b: BoardState, visible: Seq<u64>)
    requires
        b.scene.elements.len() <= usize::MAX,
    ensures
        paint_order(board_layers(b, visible)) == places_upto(
            b.scene.elements,
            visible,
            b.scene.elements.len() as int,
        ),
{
    let n = b.scene.elements.len() as int;
    lemma_stacked_order(b, visible, n);
    let (layers, band) = stacked(b, visible, n);
    lemma_closed_order(layers, band);
}

/// Whether no band is empty and no two bands follow each other.
pub open spec fn is_lean(v: Seq<LayerView>) -> bool {
    forall|i: int|
        0 <= i < v.len() ==> ((#[trigger] v[i]) matches LayerView::Band(ps) ==> ps.len() > 0 && (i
            > 0 ==> v[i - 1] is Overlay))
}

proof fn lemma_stacked_lean(b: BoardState, visible: Seq<u64>, n: int)
    ensures
        is_lean(stacked(b, visible, n).0),
        stacked(b, visible, n).0.len() > 0 ==> stacked(b, visible, n).0.last() is Overlay,
    decreases n,
{
    if n > 0 {
        lemma_stacked_lean(b, visible, n - 1);
        let (layers, band) = stacked(b, visible, n - 1);
        let e = b.scene.elements[n - 1];
        if visible.contains(e.id) && is_overlay(e) {
            let c = closed_off(layers, band);
            let w = c.push(LayerView::Overlay { id: e.id, index: (n - 1) as usize });
            assert forall|i: int| 0 <= i < w.len() implies ((#[trigger] w[i]) matches LayerView::Band(ps)
                ==> ps.len() > 0 && (i > 0 ==> w[i - 1] is Overlay)) by {
                if i < layers.len() {
                    assert(w[i] == layers[i]);
                    if i > 0 {
                        assert(w[i - 1] == layers[i - 1]);
                    }
                }
            }
        }
    }
}

/// Elements that can share a canvas do: no layer is empty, and between two
/// canvases there is a card or an image.
pub proof fn law_layers_are_lean(b: BoardState, visible: Seq<u64>)
    ensures
        is_lean(board_layers(b, visible)),
{
    let n = b.scene.elements.len() as int;
    lemma_stacked_lean(b, visible, n);
    let (layers, band) = stacked(b, visible, n);
    let w = closed_off(layers, band);
    assert forall|i: int| 0 <= i < w.len() implies ((#[trigger] w[i]) matches LayerView::Band(ps)
        ==> ps.len() > 0 && (i > 0 ==> w[i - 1] is Overlay)) by {
        if i < layers.len() {
            assert(w[i] == layers[i]);
            if i > 0 {
                assert(w[i - 1] == layers[i - 1]);
            }
        }
    }
}

} // verus!
