//! What moving the pointer and letting go of a button does to a board.
use crate::board::{flushed, remembered, snapshot, WhiteboardView, BoardState, ConnectPoint, Draft, Drag, Edit, EndpointDrag};
use crate::board::{PickerDrag, Popups, ResizeHandle, Resizing, Ui};
use crate::editing::text_at;
use crate::press::{connector_hit, dragging};
use crate::scene::{copy_ids, find_element, holds_id, index_from, index_of, item_of, items};
use crate::scene::{lemma_index_from, segment_in, with_item, Element};
use crate::scene::{ElementKind, Item, SceneView, Segment, SegmentAnchor};
use crate::segments::{detached, end_tied, ends_in, ends_upto, kept_tie};
use crate::tools::Tool;
use vstd::prelude::*;

verus! {

/// What the pointer drags.
#[derive(Clone, Copy, PartialEq, Eq, Debug, Structural)]
pub enum MoveStep {
    Toolbar,
    /// The selection of the text of an element.
    Text(u64),
    /// A line out of the side of an element.
    Connection(ConnectPoint),
    Control(PickerDrag),
    Rotation,
    /// The frame around several elements, scaled this way.
    GroupResize(Scale),
    /// The frame of one element.
    Resize(Resizing),
    Endpoint(EndpointDrag),
    Selection,
    Marquee,
    Drawing(Draft),
    /// Nothing, or the canvas.
    Hover { panning: bool },
}

/// What a drag of a frame scales.
#[derive(Clone, Copy, PartialEq, Eq, Debug, Structural)]
pub enum Scale {
    /// Both axes alike.
    Proportional,
    /// Each axis by itself.
    Free,
    Width,
    Height,
}

/// Where the end of a line that is dragged goes.
#[derive(Clone, Copy, PartialEq, Eq, Debug, Structural)]
pub enum EndSnap {
    /// To the nearest of the eight directions from the other end.
    Angle,
    Grid,
    /// Where the pointer is.
    Free,
    /// To the side of an element.
    Tied(ConnectPoint),
}

/// What is left to the host after the button was let go.
#[derive(Clone, Copy, PartialEq, Eq, Debug, Structural)]
pub enum Released {
    /// The toolbar was moved, and the host keeps that.
    Toolbar,
    /// The host may have to save.
    Done(bool),
    /// An element was drawn; a line between elements takes the focus. The host
    /// saves.
    Created { id: u64, focus: bool },
}

/// The letting go of the left button.
#[derive(Debug)]
pub struct Release {
    /// Whether what was drawn is large enough to keep.
    pub committable: bool,
    /// The elements that the dragged frame touches.
    pub framed: Vec<u64>,
    /// A key for the place of the element that was drawn.
    pub place: u64,
}

// --- What is decided ---

/// What the pointer drags.
pub open spec fn move_step(b: BoardState) -> MoveStep {
    let d = b.ui.drag;
    let text = match b.ui.edit.editing {
        Some(id) => if b.ui.edit.text_selecting && text_at(b, id) is Some {
            Some(id)
        } else {
            None
        },
        None => None,
    };
    if d.toolbar {
        MoveStep::Toolbar
    } else if text is Some {
        MoveStep::Text(text->0)
    } else if d.connecting is Some {
        MoveStep::Connection(d.connecting->0)
    } else if d.picker is Some {
        MoveStep::Control(d.picker->0)
    } else if d.rotating {
        MoveStep::Rotation
    } else if d.group_resizing is Some {
        MoveStep::GroupResize(
            match d.group_resizing->0 {
                ResizeHandle::Corner => Scale::Proportional,
                ResizeHandle::EdgeX => Scale::Width,
                ResizeHandle::EdgeY => Scale::Height,
            },
        )
    } else if d.resizing is Some {
        MoveStep::Resize(d.resizing->0)
    } else if d.endpoint is Some {
        MoveStep::Endpoint(d.endpoint->0)
    } else if d.moving {
        MoveStep::Selection
    } else if d.marquee {
        MoveStep::Marquee
    } else if d.pending is Some {
        MoveStep::Drawing(d.pending->0)
    } else {
        MoveStep::Hover { panning: d.panning }
    }
}

/// What a drag of the frame of one element scales. A corner scales both axes
/// alike for text and images, for what is turned, and with Shift.
pub open spec fn scale_of(b: BoardState, r: Resizing, shift: bool, tilted: bool) -> Scale {
    match r.handle {
        ResizeHandle::EdgeX => Scale::Width,
        ResizeHandle::EdgeY => Scale::Height,
        ResizeHandle::Corner => {
            let whole = match item_of(b.scene.elements, r.id) {
                Some(e) => e.kind is Text || e.kind is Image,
                None => false,
            };
            if shift || tilted || whole {
                Scale::Proportional
            } else {
                Scale::Free
            }
        },
    }
}

/// What an end is tied to where it snaps.
pub open spec fn snapped_to(target: Option<(ConnectPoint, bool)>) -> Option<SegmentAnchor> {
    match target {
        Some(t) => if t.1 {
            Some(SegmentAnchor { element_id: t.0.id, connector: t.0.index })
        } else {
            None
        },
        None => None,
    }
}

/// A draft of a line with its ends tied.
pub open spec fn draft_tied(d: Draft, from: ConnectPoint, to: Option<SegmentAnchor>) -> Draft {
    let start = Some(SegmentAnchor { element_id: from.id, connector: from.index });
    match d {
        Draft::Line(s) => Draft::Line(Segment { start_anchor: start, end_anchor: to, ..s }),
        Draft::Arrow(s) => Draft::Arrow(Segment { start_anchor: start, end_anchor: to, ..s }),
        _ => d,
    }
}

/// The board while a line is dragged out of the side of an element, near
/// `target` or on it.
pub open spec fn connection_dragged(b: BoardState, target: Option<(ConnectPoint, bool)>) -> BoardState {
    let d = b.ui.drag;
    match d.connecting {
        None => b,
        Some(from) => dragging(
            b,
            Drag {
                hovered_connector: match target {
                    Some(t) => Some(t.0),
                    None => None,
                },
                pending: match d.pending {
                    Some(p) => Some(draft_tied(p, from, snapped_to(target))),
                    None => None,
                },
                ..d
            },
        ),
    }
}

/// How an end snaps: with Shift to a direction, with Option to the grid, else
/// to an element that it is on.
pub open spec fn end_snap(shift: bool, alt: bool, target: Option<(ConnectPoint, bool)>) -> EndSnap {
    if shift {
        EndSnap::Angle
    } else if alt {
        EndSnap::Grid
    } else {
        match target {
            Some(t) => if t.1 {
                EndSnap::Tied(t.0)
            } else {
                EndSnap::Free
            },
            None => EndSnap::Free,
        }
    }
}

/// The board while the end of a line is dragged.
pub open spec fn endpoint_dragged(b: BoardState, ep: EndpointDrag, snap: EndSnap) -> BoardState {
    let loose = end_tied(b.scene.elements, ep.id, ep.which, None);
    let (hover, v) = match snap {
        EndSnap::Tied(t) => (
            Some(t),
            end_tied(
                loose,
                ep.id,
                ep.which,
                Some(SegmentAnchor { element_id: t.id, connector: t.index }),
            ),
        ),
        _ => (None, loose),
    };
    let c = BoardState { scene: SceneView { elements: v, ..b.scene }, ..b };
    dragging(c, Drag { hovered_connector: hover, ..b.ui.drag })
}

/// The board as the selection is dragged: the first time its scene is
/// remembered, and lines leave what stays behind.
pub open spec fn selection_dragged(b: BoardState) -> BoardState {
    let s = if b.ui.drag.moved {
        b
    } else {
        snapshot(b)
    };
    let c = BoardState {
        scene: SceneView {
            elements: b.scene.elements.map_values(|e: Item| detached(e, b.selected)),
            ..b.scene
        },
        ..s
    };
    dragging(c, Drag { moved: true, ..b.ui.drag })
}

/// Whether a connector button can be hovered: with the Select tool, while
/// nothing is dragged or edited.
pub open spec fn can_hover(b: BoardState) -> bool {
    let d = b.ui.drag;
    &&& b.ui.tool == Tool::Select
    &&& b.ui.edit.editing is None
    &&& d.pending is None
    &&& d.connecting is None
    &&& !d.moving
    &&& d.resizing is None
    &&& d.group_resizing is None
    &&& d.endpoint is None
    &&& !d.rotating
    &&& !d.marquee
}

/// The connector button that is hovered.
pub open spec fn hover_at(b: BoardState, button: Option<usize>) -> Option<ConnectPoint> {
    if can_hover(b) {
        connector_hit(b, button)
    } else {
        None
    }
}

/// What a draft is as an element.
pub open spec fn kind_of_draft(d: Draft) -> ElementKind<Seq<char>> {
    match d {
        Draft::Draw => ElementKind::Draw,
        Draft::Rect => ElementKind::Rect,
        Draft::Ellipse => ElementKind::Ellipse,
        Draft::Diamond => ElementKind::Diamond,
        Draft::Triangle => ElementKind::Triangle,
        Draft::RoundRect => ElementKind::RoundRect,
        Draft::Star => ElementKind::Star,
        Draft::Hexagon => ElementKind::Hexagon,
        Draft::Line(s) => ElementKind::Line(s),
        Draft::Arrow(s) => ElementKind::Arrow(s),
    }
}

/// Whether a draft has an inside.
pub open spec fn draft_closed(d: Draft) -> bool {
    crate::scene::is_closed(kind_of_draft(d))
}

/// The element that a draft becomes. Only closed shapes are filled.
pub open spec fn drawn(u: Ui, d: Draft, id: u64, place: u64) -> Item {
    Item {
        id,
        kind: kind_of_draft(d),
        place,
        stroke: u.ink.stroke,
        fill: if draft_closed(d) {
            u.ink.fill
        } else {
            None
        },
        label: None,
        label_color: u.ink.text,
        styles: Seq::empty(),
        mindmap: None,
    }
}

/// The elements of `v` that are listed and not yet selected are selected too.
pub open spec fn framed_upto(v: Seq<Item>, ids: Seq<u64>, sel: Seq<u64>, n: int) -> Seq<u64>
    decreases n,
{
    if n <= 0 {
        sel
    } else {
        let r = framed_upto(v, ids, sel, n - 1);
        if ids.contains(v[n - 1].id) && !r.contains(v[n - 1].id) {
            r.push(v[n - 1].id)
        } else {
            r
        }
    }
}

/// The drags with the first of the frame, group, end and turn drags ended.
pub open spec fn handle_let_go(d: Drag) -> Drag {
    if d.resizing is Some {
        Drag { resizing: None, ..d }
    } else if d.group_resizing is Some {
        Drag { group_resizing: None, ..d }
    } else if d.endpoint is Some {
        Drag { endpoint: None, ..d }
    } else {
        Drag { rotating: false, ..d }
    }
}

/// The board once a draft was let go: kept where it is large enough.
pub open spec fn draft_let_go(b: BoardState, d: Draft, committable: bool, place: u64) -> (
    BoardState,
    Released,
) {
    let linked = b.ui.drag.connecting is Some;
    let c = dragging(b, Drag { pending: None, connecting: None, ..b.ui.drag });
    if committable {
        let s = snapshot(c);
        (
            BoardState {
                scene: SceneView {
                    elements: b.scene.elements.push(drawn(b.ui, d, b.next_id, place)),
                    ..b.scene
                },
                selected: if linked {
                    seq![b.next_id]
                } else {
                    b.selected
                },
                next_id: (b.next_id + 1) as u64,
                ui: Ui { dirty: false, ..c.ui },
                ..s
            },
            Released::Created { id: b.next_id, focus: linked },
        )
    } else {
        (flushed(c), Released::Done(b.ui.dirty))
    }
}

/// What letting go of the left button does.
pub open spec fn left_released(
    b: BoardState,
    committable: bool,
    framed: Seq<u64>,
    place: u64,
) -> (BoardState, Released) {
    let d = b.ui.drag;
    if d.toolbar {
        (dragging(b, Drag { toolbar: false, ..d }), Released::Toolbar)
    } else if b.ui.edit.text_selecting {
        (
            BoardState { ui: Ui { edit: Edit { text_selecting: false, ..b.ui.edit }, ..b.ui }, ..b },
            Released::Done(false),
        )
    } else if d.panning {
        (flushed(dragging(b, Drag { panning: false, ..d })), Released::Done(b.ui.dirty))
    } else if d.picker is Some {
        (flushed(dragging(b, Drag { picker: None, ..d })), Released::Done(b.ui.dirty))
    } else if d.resizing is Some || d.group_resizing is Some || d.endpoint is Some || d.rotating {
        (flushed(dragging(b, handle_let_go(d))), Released::Done(true))
    } else if d.moving {
        (
            flushed(dragging(b, Drag { moving: false, moved: false, ..d })),
            Released::Done(b.ui.dirty || d.moved),
        )
    } else if d.marquee {
        let sel = framed_upto(
            b.scene.elements,
            framed,
            b.selected,
            b.scene.elements.len() as int,
        );
        (
            dragging(BoardState { selected: sel, ..b }, Drag { marquee: false, ..d }),
            Released::Done(false),
        )
    } else {
        match d.pending {
            Some(p) => draft_let_go(b, p, committable, place),
            None => (flushed(b), Released::Done(b.ui.dirty)),
        }
    }
}

/// The controls after a press of the right button.
pub open spec fn right_pressed(b: BoardState, on_picker: bool, can_paste: bool) -> BoardState {
    let p = b.ui.pop;
    let menu = if b.ui.read_only {
        Popups { context_menu: false, ..p }
    } else if p.picker is Some && on_picker {
        p
    } else if b.selected.len() == 0 && !can_paste {
        Popups { context_menu: false, ..p }
    } else {
        Popups { context_menu: true, ctx_text_sub: false, ..p }
    };
    BoardState { ui: Ui { pop: menu, ..b.ui }, ..b }
}

/// Whether something is dragged that a press of the middle button must not
/// disturb.
pub open spec fn is_busy(d: Drag) -> bool {
    d.pending is Some || d.moving || d.resizing is Some || d.group_resizing is Some || d.endpoint is Some
        || d.rotating || d.picker is Some || d.marquee
}

/// The elements with other places.
pub open spec fn with_places(v: Seq<Item>, moved: Seq<(u64, u64)>, i: int) -> Seq<Item>
    decreases moved.len() - i,
{
    if i < 0 || i >= moved.len() {
        v
    } else {
        let w = match item_of(v, moved[i].0) {
            Some(e) => with_item(v, moved[i].0, Item { place: moved[i].1, ..e }),
            None => v,
        };
        with_places(w, moved, i + 1)
    }
}

// --- How it is done ---

fn draft_kind(d: Draft) -> (r: ElementKind<String>)
    ensures
        crate::scene::kind_view(r) == kind_of_draft(d),
{
    match d {
        Draft::Draw => ElementKind::Draw,
        Draft::Rect => ElementKind::Rect,
        Draft::Ellipse => ElementKind::Ellipse,
        Draft::Diamond => ElementKind::Diamond,
        Draft::Triangle => ElementKind::Triangle,
        Draft::RoundRect => ElementKind::RoundRect,
        Draft::Star => ElementKind::Star,
        Draft::Hexagon => ElementKind::Hexagon,
        Draft::Line(s) => ElementKind::Line(s),
        Draft::Arrow(s) => ElementKind::Arrow(s),
    }
}

/// The element that a draft becomes.
fn draw(u: &Ui, d: Draft, id: u64, place: u64) -> (r: Element)
    ensures
        r@ == drawn(*u, d, id, place),
{
    let kind = draft_kind(d);
    let fill = if crate::scene::is_closed_shape(&kind) {
        u.ink.fill
    } else {
        None
    };
    let styles: Vec<crate::styles::StyleSpan> = Vec::new();
    assert(styles@ =~= Seq::<crate::styles::StyleSpan>::empty());
    Element {
        id,
        kind,
        place,
        stroke: u.ink.stroke,
        fill,
        label: None,
        label_color: u.ink.text,
        styles,
        mindmap: None,
    }
}

fn tie_draft(d: Draft, from: ConnectPoint, to: Option<SegmentAnchor>) -> (r: Draft)
    ensures
        r == draft_tied(d, from, to),
{
    let start = Some(SegmentAnchor { element_id: from.id, connector: from.index });
    match d {
        Draft::Line(s) => Draft::Line(
            Segment { style: s.style, start_anchor: start, end_anchor: to },
        ),
        Draft::Arrow(s) => Draft::Arrow(
            Segment { style: s.style, start_anchor: start, end_anchor: to },
        ),
        _ => d,
    }
}

fn let_go(d: Drag) -> (r: Drag)
    ensures
        r == handle_let_go(d),
{
    if d.resizing.is_some() {
        Drag { resizing: None, ..d }
    } else if d.group_resizing.is_some() {
        Drag { group_resizing: None, ..d }
    } else if d.endpoint.is_some() {
        Drag { endpoint: None, ..d }
    } else {
        Drag { rotating: false, ..d }
    }
}

impl WhiteboardView {
    /// What the pointer drags, by what was grabbed.
    pub fn on_move(&self) -> (r: MoveStep)
        ensures
            r == move_step(self@),
    {
        let d = self.ui.drag;
        if d.toolbar {
            return MoveStep::Toolbar;
        }
        if self.ui.edit.text_selecting {
            match self.ui.edit.editing {
                Some(id) => {
                    if self.edit_text(id).is_some() {
                        return MoveStep::Text(id);
                    }
                },
                None => {},
            }
        }
        match d.connecting {
            Some(p) => {
                return MoveStep::Connection(p);
            },
            None => {},
        }
        match d.picker {
            Some(p) => {
                return MoveStep::Control(p);
            },
            None => {},
        }
        if d.rotating {
            return MoveStep::Rotation;
        }
        match d.group_resizing {
            Some(h) => {
                return MoveStep::GroupResize(
                    match h {
                        ResizeHandle::Corner => Scale::Proportional,
                        ResizeHandle::EdgeX => Scale::Width,
                        ResizeHandle::EdgeY => Scale::Height,
                    },
                );
            },
            None => {},
        }
        match d.resizing {
            Some(r) => {
                return MoveStep::Resize(r);
            },
            None => {},
        }
        match d.endpoint {
            Some(e) => {
                return MoveStep::Endpoint(e);
            },
            None => {},
        }
        if d.moving {
            return MoveStep::Selection;
        }
        if d.marquee {
            return MoveStep::Marquee;
        }
        match d.pending {
            Some(p) => MoveStep::Drawing(p),
            None => MoveStep::Hover { panning: d.panning },
        }
    }

    /// What a drag of the frame of one element scales.
    pub fn resize_scale(&self, r: Resizing, shift: bool, tilted: bool) -> (s: Scale)
        ensures
            s == scale_of(self@, r, shift, tilted),
    {
        match r.handle {
            ResizeHandle::EdgeX => Scale::Width,
            ResizeHandle::EdgeY => Scale::Height,
            ResizeHandle::Corner => {
                let whole = match find_element(&self.scene.elements, r.id) {
                    Some(i) => {
                        assert(items(self.scene.elements@)[i as int]
                            == self.scene.elements@[i as int]@);
                        match self.scene.elements[i].kind {
                            ElementKind::Text(_) | ElementKind::Image(_) => true,
                            _ => false,
                        }
                    },
                    None => false,
                };
                if shift || tilted || whole {
                    Scale::Proportional
                } else {
                    Scale::Free
                }
            },
        }
    }

    /// Drags the selection of the text being edited to byte `idx`.
    pub fn drag_caret(&mut self, idx: usize)
        ensures
            final(self)@ == (BoardState {
                ui: Ui { edit: Edit { caret: idx, ..old(self)@.ui.edit }, ..old(self)@.ui },
                ..old(self)@
            }),
    {
        self.ui.edit.caret = idx;
    }

    /// Drags a line out of the side of an element: near a side of another
    /// element, or on it, or over nothing.
    pub fn drag_connection(&mut self, target: Option<(ConnectPoint, bool)>)
        ensures
            final(self)@ == connection_dragged(old(self)@, target),
    {
        let d = self.ui.drag;
        let from = match d.connecting {
            Some(p) => p,
            None => {
                return;
            },
        };
        let (hovered, end) = match target {
            Some((t, on)) => (
                Some(t),
                if on {
                    Some(SegmentAnchor { element_id: t.id, connector: t.index })
                } else {
                    None
                },
            ),
            None => (None, None),
        };
        let pending = match d.pending {
            Some(p) => Some(tie_draft(p, from, end)),
            None => None,
        };
        self.set_drag(Drag { hovered_connector: hovered, pending, ..d });
    }

    /// Drags the end of a line, and returns where it goes.
    pub fn drag_endpoint(
        &mut self,
        ep: EndpointDrag,
        shift: bool,
        alt: bool,
        target: Option<(ConnectPoint, bool)>,
    ) -> (r: EndSnap)
        ensures
            r == end_snap(shift, alt, target),
            final(self)@ == endpoint_dragged(old(self)@, ep, end_snap(shift, alt, target)),
    {
        let snap = if shift {
            EndSnap::Angle
        } else if alt {
            EndSnap::Grid
        } else {
            match target {
                Some((t, on)) => if on {
                    EndSnap::Tied(t)
                } else {
                    EndSnap::Free
                },
                None => EndSnap::Free,
            }
        };
        let d = self.ui.drag;
        let _moves = self.set_segment_endpoint_anchor(ep.id, ep.which, None);
        let hovered = match snap {
            EndSnap::Tied(t) => {
                let _moves = self.set_segment_endpoint_anchor(
                    ep.id,
                    ep.which,
                    Some(SegmentAnchor { element_id: t.id, connector: t.index }),
                );
                Some(t)
            },
            _ => None,
        };
        self.set_drag(Drag { hovered_connector: hovered, ..d });
        snap
    }

    /// Takes note that the selection was dragged, and returns it.
    pub fn drag_selection(&mut self) -> (r: Vec<u64>)
        ensures
            r@ == old(self)@.selected,
            final(self)@ == selection_dragged(old(self)@),
    {
        if !self.ui.drag.moved {
            self.push_undo();
        }
        let ids = copy_ids(&self.selected);
        self.detach_segment_bindings_for_move(&ids);
        let d = self.ui.drag;
        self.set_drag(Drag { moved: true, ..d });
        ids
    }

    /// Takes note of the connector button under the pointer; returns whether
    /// that is another one than before.
    pub fn update_hover_connector(&mut self, button: Option<usize>) -> (changed: bool)
        ensures
            final(self)@ == dragging(
                old(self)@,
                Drag { hovered_connector: hover_at(old(self)@, button), ..old(self)@.ui.drag },
            ),
            changed == (old(self)@.ui.drag.hovered_connector != hover_at(old(self)@, button)),
    {
        let d = self.ui.drag;
        let free = self.ui.tool == Tool::Select && self.ui.edit.editing.is_none() && d.pending.is_none()
            && d.connecting.is_none() && !d.moving && d.resizing.is_none()
            && d.group_resizing.is_none() && d.endpoint.is_none() && !d.rotating && !d.marquee;
        let next = if free {
            self.connector_at(button)
        } else {
            None
        };
        let changed = d.hovered_connector != next;
        self.set_drag(Drag { hovered_connector: next, ..d });
        changed
    }

    /// Gives elements other places, after the host moved, scaled or turned them.
    pub fn set_places(&mut self, moved: &Vec<(u64, u64)>)
        ensures
            final(self)@ == (BoardState {
                scene: SceneView {
                    elements: with_places(old(self)@.scene.elements, moved@, 0),
                    ..old(self)@.scene
                },
                ..old(self)@
            }),
    {
        let ghost want = with_places(items(self.scene.elements@), moved@, 0);
        let ghost rest = self@;
        let mut i: usize = 0;
        while i < moved.len()
            invariant
                i <= moved@.len(),
                want == with_places(items(self.scene.elements@), moved@, i as int),
                rest == old(self)@,
                self@ == (BoardState {
                    scene: SceneView { elements: items(self.scene.elements@), ..rest.scene },
                    ..rest
                }),
            decreases moved.len() - i,
        {
            let (id, place) = moved[i];
            match find_element(&self.scene.elements, id) {
                Some(k) => {
                    let ghost v = self.scene.elements@;
                    assert(items(v)[k as int] == v[k as int]@);
                    self.scene.elements[k].place = place;
                    assert(items(self.scene.elements@) =~= items(v).update(
                        k as int,
                        Item { place, ..v[k as int]@ },
                    ));
                },
                None => {},
            }
            i += 1;
        }
    }

    /// Takes note of another view of the scene.
    pub fn set_camera(&mut self, camera: u64)
        ensures
            final(self)@ == (BoardState {
                scene: SceneView { camera, ..old(self)@.scene },
                ui: Ui { dirty: true, ..old(self)@.ui },
                ..old(self)@
            }),
    {
        self.scene.camera = camera;
        self.ui.dirty = true;
    }

    fn release_draft(&mut self, p: Draft, committable: bool, place: u64) -> (r: Released)
        requires
            old(self)@.next_id < u64::MAX,
        ensures
            (final(self)@, r) == draft_let_go(old(self)@, p, committable, place),
    {
        let d = self.ui.drag;
        let linked = d.connecting.is_some();
        self.set_drag(Drag { pending: None, connecting: None, ..d });
        if !committable {
            let save = self.flush();
            return Released::Done(save);
        }
        let ui = self.ui;
        self.push_undo();
        let id = self.take_id();
        self.push_element(draw(&ui, p, id, place));
        if linked {
            self.select_one(id);
        }
        self.ui.dirty = false;
        Released::Created { id, focus: linked }
    }

    fn select_framed(&mut self, framed: &Vec<u64>)
        ensures
            final(self)@ == (BoardState {
                selected: framed_upto(
                    old(self)@.scene.elements,
                    framed@,
                    old(self)@.selected,
                    old(self)@.scene.elements.len() as int,
                ),
                ..old(self)@
            }),
    {
        let ghost v = self@.scene.elements;
        let ghost sel = self.selected@;
        let ghost rest = self@;
        let mut i: usize = 0;
        while i < self.scene.elements.len()
            invariant
                i <= self.scene.elements@.len(),
                v == items(self.scene.elements@),
                rest == old(self)@,
                v == rest.scene.elements,
                sel == rest.selected,
                self.selected@ == framed_upto(v, framed@, sel, i as int),
                self@ == (BoardState { selected: self.selected@, ..rest }),
            decreases self.scene.elements.len() - i,
        {
            assert(v[i as int] == self.scene.elements@[i as int]@);
            let id: u64 = self.scene.elements[i].id;
            if holds_id(framed, id) && !holds_id(&self.selected, id) {
                self.selected.push(id);
            }
            i += 1;
        }
        assert(v.len() == self.scene.elements@.len());
    }

    /// What letting go of the left button does: ends what was dragged, and
    /// keeps what was drawn.
    pub fn on_left_up(&mut self, u: &Release) -> (r: Released)
        requires
            old(self)@.next_id < u64::MAX,
        ensures
            (final(self)@, r) == left_released(old(self)@, u.committable, u.framed@, u.place),
    {
        let d = self.ui.drag;
        if d.toolbar {
            self.set_drag(Drag { toolbar: false, ..d });
            return Released::Toolbar;
        }
        if self.ui.edit.text_selecting {
            self.ui.edit.text_selecting = false;
            return Released::Done(false);
        }
        if d.panning {
            self.set_drag(Drag { panning: false, ..d });
            let save = self.flush();
            return Released::Done(save);
        }
        if d.picker.is_some() {
            self.set_drag(Drag { picker: None, ..d });
            let save = self.flush();
            return Released::Done(save);
        }
        if d.resizing.is_some() || d.group_resizing.is_some() || d.endpoint.is_some() || d.rotating {
            self.set_drag(let_go(d));
            let _save = self.flush();
            return Released::Done(true);
        }
        if d.moving {
            self.set_drag(Drag { moving: false, moved: false, ..d });
            let save = self.flush();
            return Released::Done(save || d.moved);
        }
        if d.marquee {
            self.select_framed(&u.framed);
            self.set_drag(Drag { marquee: false, ..d });
            return Released::Done(false);
        }
        match d.pending {
            Some(p) => self.release_draft(p, u.committable, u.place),
            None => {
                let save = self.flush();
                Released::Done(save)
            },
        }
    }

    /// What a press of the right button does: opens the menu where there is a
    /// selection or something to paste, or closes it.
    pub fn on_right_down(&mut self, on_picker: bool, can_paste: bool)
        ensures
            final(self)@ == right_pressed(old(self)@, on_picker, can_paste),
    {
        if self.ui.read_only {
            self.ui.pop.context_menu = false;
            return;
        }
        if self.ui.pop.picker.is_some() && on_picker {
            return;
        }
        if self.selected.len() == 0 && !can_paste {
            self.ui.pop.context_menu = false;
        } else {
            self.ui.pop.context_menu = true;
            self.ui.pop.ctx_text_sub = false;
        }
    }

    /// What a press of the middle button does: drags the canvas, unless
    /// something else is dragged. Returns whether it does.
    pub fn on_middle_down(&mut self) -> (pans: bool)
        ensures
            pans == !is_busy(old(self)@.ui.drag),
            final(self)@ == if pans {
                dragging(old(self)@, Drag { panning: true, ..old(self)@.ui.drag })
            } else {
                old(self)@
            },
    {
        let d = self.ui.drag;
        if d.pending.is_some() || d.moving || d.resizing.is_some() || d.group_resizing.is_some()
            || d.endpoint.is_some() || d.rotating || d.picker.is_some() || d.marquee {
            return false;
        }
        self.set_drag(Drag { panning: true, ..d });
        true
    }

    /// What letting go of the middle button does; returns whether the host has
    /// to save.
    pub fn on_middle_up(&mut self) -> (save: bool)
        ensures
            save == old(self)@.ui.dirty,
            final(self)@ == flushed(
                dragging(old(self)@, Drag { panning: false, ..old(self)@.ui.drag }),
            ),
    {
        let d = self.ui.drag;
        self.set_drag(Drag { panning: false, ..d });
        self.flush()
    }
}

// --- What holds of it ---

/// A drag that was begun and let go is over: the next move only hovers.
pub proof fn law_letting_go_ends_the_drag(b: BoardState, committable: bool, framed: Seq<u64>, place: u64)
    requires
        b.ui.drag.connecting is None || b.ui.drag.pending is Some,
        one_drag(b),
    ensures
        move_step(left_released(b, committable, framed, place).0) is Hover,
{
}

/// Whether at most one thing is dragged; a line out of an element is drawn too.
pub open spec fn one_drag(b: BoardState) -> bool {
    let d = b.ui.drag;
    (if d.toolbar { 1int } else { 0 }) + (if b.ui.edit.text_selecting { 1int } else { 0 }) + (
    if d.panning { 1int } else { 0 }) + (if d.picker is Some { 1int } else { 0 }) + (
    if d.resizing is Some { 1int } else { 0 }) + (if d.group_resizing is Some { 1int } else { 0 }) + (
    if d.endpoint is Some { 1int } else { 0 }) + (if d.rotating { 1int } else { 0 }) + (
    if d.moving { 1int } else { 0 }) + (if d.marquee { 1int } else { 0 }) + (
    if d.pending is Some { 1int } else { 0 }) <= 1
}

/// A frame only adds to the selection, and never twice.
pub proof fn law_frame_adds_once(v: Seq<Item>, ids: Seq<u64>, sel: Seq<u64>, n: int)
    requires
        0 <= n <= v.len(),
        sel.no_duplicates(),
    ensures
        framed_upto(v, ids, sel, n).no_duplicates(),
        sel.is_prefix_of(framed_upto(v, ids, sel, n)),
        forall|k: int|
            0 <= k < n && ids.contains((#[trigger] v[k]).id) ==> framed_upto(v, ids, sel, n).contains(
                v[k].id,
            ),
    decreases n,
{
    if n > 0 {
        law_frame_adds_once(v, ids, sel, n - 1);
        let r = framed_upto(v, ids, sel, n - 1);
        let q = framed_upto(v, ids, sel, n);
        let x = v[n - 1].id;
        if ids.contains(x) && !r.contains(x) {
            assert(q == r.push(x));
            assert(q.take(r.len() as int) =~= r);
            assert forall|k: int| 0 <= k < n && ids.contains((#[trigger] v[k]).id) implies q.contains(
                v[k].id,
            ) by {
                if k < n - 1 {
                    let i = r.index_of(v[k].id);
                    assert(q[i] == v[k].id);
                } else {
                    assert(q[r.len() as int] == x);
                }
            }
        }
    }
}

/// The board after one frame of dragging the selection: the drag is noted, and
/// what the host moved has other places.
pub open spec fn drag_frame(b: BoardState, moved: Seq<(u64, u64)>) -> BoardState {
    let c = selection_dragged(b);
    BoardState {
        scene: SceneView { elements: with_places(c.scene.elements, moved, 0), ..c.scene },
        ..c
    }
}

/// The board after the first `n` frames of a drag.
pub open spec fn drag_frames(b: BoardState, frames: Seq<Seq<(u64, u64)>>, n: int) -> BoardState
    decreases n,
{
    if n <= 0 {
        b
    } else {
        drag_frame(drag_frames(b, frames, n - 1), frames[n - 1])
    }
}

/// Whether a line is tied to one of the listed elements.
pub open spec fn follows(e: Item, ids: Seq<u64>) -> bool {
    match segment_in(e.kind) {
        Some(s) => kept_tie(ids, s.start_anchor) is Some || kept_tie(ids, s.end_anchor) is Some,
        None => false,
    }
}

/// Whether a drag of the listed elements may move an element: one of them, or a
/// line that is tied to one.
pub open spec fn may_move(v: Seq<Item>, ids: Seq<u64>, id: u64) -> bool {
    ids.contains(id) || (item_of(v, id) matches Some(e) && follows(e, ids))
}

/// Whether two scenes hold the same ids in the same order.
pub open spec fn same_ids(v: Seq<Item>, w: Seq<Item>) -> bool {
    v.len() == w.len() && forall|k: int| 0 <= k < v.len() ==> (#[trigger] v[k]).id == w[k].id
}

proof fn lemma_same_index(v: Seq<Item>, w: Seq<Item>, id: u64, i: int)
    requires
        same_ids(v, w),
        0 <= i,
    ensures
        index_from(v, id, i) == index_from(w, id, i),
    decreases v.len() - i,
{
    if i < v.len() {
        assert(v[i].id == w[i].id);
        lemma_same_index(v, w, id, i + 1);
    }
}

proof fn lemma_places(v: Seq<Item>, moved: Seq<(u64, u64)>, i: int)
    requires
        0 <= i,
    ensures
        ({
            let r = with_places(v, moved, i);
            &&& same_ids(v, r)
            &&& forall|k: int|
                0 <= k < v.len() ==> #[trigger] r[k] == (Item { place: r[k].place, ..v[k] })
            &&& forall|k: int|
                0 <= k < v.len() && (forall|j: int|
                    i <= j < moved.len() ==> index_of(v, (#[trigger] moved[j]).0) != Some(k))
                    ==> #[trigger] r[k] == v[k]
        }),
    decreases moved.len() - i,
{
    if i < moved.len() {
        let (id, place) = moved[i];
        lemma_index_from(v, id, 0);
        let w = match item_of(v, id) {
            Some(e) => with_item(v, id, Item { place, ..e }),
            None => v,
        };
        assert(same_ids(v, w));
        lemma_places(w, moved, i + 1);
        let r = with_places(w, moved, i + 1);
        assert(r == with_places(v, moved, i));
        assert forall|k: int| 0 <= k < v.len() implies #[trigger] r[k] == (Item {
            place: r[k].place,
            ..v[k]
        }) by {
            assert(w[k] == (Item { place: w[k].place, ..v[k] }));
        }
        assert forall|k: int|
            0 <= k < v.len() && (forall|j: int|
                i <= j < moved.len() ==> index_of(v, (#[trigger] moved[j]).0) != Some(
                    k,
                )) implies #[trigger] r[k] == v[k] by {
            assert(moved[i].0 == id);
            assert(w[k] == v[k]);
            assert forall|j: int| i + 1 <= j < moved.len() implies index_of(
                w,
                (#[trigger] moved[j]).0,
            ) != Some(k) by {
                lemma_same_index(v, w, moved[j].0, 0);
            }
        }
        assert(same_ids(v, r)) by {
            assert forall|k: int| 0 <= k < v.len() implies (#[trigger] v[k]).id == r[k].id by {
                assert(w[k].id == r[k].id);
            }
        }
    }
}

/// Whether no two elements share an id.
pub open spec fn ids_differ(v: Seq<Item>) -> bool {
    forall|i: int, j: int|
        #![trigger v[i], v[j]]
        0 <= i < j < v.len() ==> v[i].id != v[j].id
}

/// The ends that follow a drag are those of lines that may move: no other
/// element does.
pub proof fn law_only_tied_lines_follow(v: Seq<Item>, ids: Seq<u64>, n: int, j: int)
    requires
        ids_differ(v),
        0 <= n <= v.len(),
        0 <= j < ends_upto(v, ids, n).len(),
    ensures
        may_move(v, ids, ends_upto(v, ids, n)[j].id),
    decreases n,
{
    if n > 0 {
        let before = ends_upto(v, ids, n - 1);
        let e = v[n - 1];
        if j < before.len() {
            law_only_tied_lines_follow(v, ids, n - 1, j);
        } else {
            let t = ends_in(v, ids, e)[j - before.len()];
            assert(ends_upto(v, ids, n)[j] == t);
            assert(t.id == e.id && follows(e, ids));
            lemma_index_from(v, e.id, 0);
            assert(item_of(v, e.id) == Some(e));
        }
    }
}

/// Dragging a selection is one step to undo, however long the drag: whatever
/// number of frames it takes, the scene at the grab is remembered, once. The
/// elements and their order stay, nothing of an element that is not selected
/// changes but the place of a line that is tied to a selected one.
pub proof fn law_one_step_per_drag(b: BoardState, frames: Seq<Seq<(u64, u64)>>, n: int)
    requires
        !b.ui.drag.moved,
        0 < n <= frames.len(),
        forall|f: int, j: int|
            0 <= f < frames.len() && 0 <= j < frames[f].len() ==> may_move(
                b.scene.elements,
                b.selected,
                (#[trigger] frames[f][j]).0,
            ),
    ensures
        ({
            let v = b.scene.elements;
            let t = drag_frames(b, frames, n);
            let w = t.scene.elements;
            &&& t.history == remembered(b.history, b.scene)
            &&& t.redo == Seq::<SceneView>::empty()
            &&& t.selected == b.selected
            &&& t.ui.drag.moved
            &&& same_ids(v, w)
            &&& forall|k: int|
                0 <= k < v.len() && !b.selected.contains(v[k].id) ==> #[trigger] w[k] == (Item {
                    place: w[k].place,
                    ..v[k]
                })
            &&& forall|k: int|
                0 <= k < v.len() && !b.selected.contains(v[k].id) && !follows(v[k], b.selected)
                    ==> #[trigger] w[k] == v[k]
        }),
    decreases n,
{
    let v = b.scene.elements;
    let p = drag_frames(b, frames, n - 1);
    if n > 1 {
        law_one_step_per_drag(b, frames, n - 1);
    }
    let u = p.scene.elements;
    let sel = b.selected;
    let moved = frames[n - 1];
    let d = u.map_values(|e: Item| detached(e, sel));
    let t = drag_frames(b, frames, n);
    let w = t.scene.elements;
    assert(t == drag_frame(p, moved));
    assert(w == with_places(d, moved, 0));
    assert(same_ids(v, u));
    assert forall|k: int| 0 <= k < v.len() implies (#[trigger] v[k]).id == d[k].id && (!sel.contains(
        v[k].id,
    ) ==> d[k] == u[k]) by {
        assert(v[k].id == u[k].id);
        assert(d[k] == detached(u[k], sel));
    }
    assert(same_ids(v, d));
    lemma_places(d, moved, 0);
    assert forall|k: int| 0 <= k < v.len() && !sel.contains(v[k].id) implies #[trigger] w[k] == (
    Item { place: w[k].place, ..v[k] }) by {
        assert(d[k] == u[k]);
        assert(u[k] == (Item { place: u[k].place, ..v[k] }));
        assert(w[k] == (Item { place: w[k].place, ..d[k] }));
    }
    assert forall|k: int|
        0 <= k < v.len() && !sel.contains(v[k].id) && !follows(
            v[k],
            sel,
        ) implies #[trigger] w[k] == v[k] by {
        assert(v[k].id == d[k].id);
        assert(u[k] == v[k]);
        assert forall|j: int| 0 <= j < moved.len() implies index_of(d, (#[trigger] moved[j]).0)
            != Some(k) by {
            let id = frames[n - 1][j].0;
            assert(may_move(v, sel, id));
            lemma_same_index(v, d, id, 0);
            lemma_index_from(v, id, 0);
        }
    }
    assert forall|k: int| 0 <= k < v.len() implies (#[trigger] v[k]).id == w[k].id by {
        assert(d[k].id == w[k].id);
    }
}

} // verus!
