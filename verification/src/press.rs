//! What a press of the left button on a board does.
//!
//! The host says what lies under the pointer; which of the controls, elements
//! and handles takes the press is decided here.
use crate::board::{lone, snapshot, WhiteboardView, BoardState, ConnectPoint, Draft, Drag, Edit, EndpointDrag};
use crate::board::{PickerDrag, Popups, ResizeHandle, Resizing, Ui};
use crate::editing::{committed, edit_begun};
use crate::scene::{connector_capable, find_element, holds_id, is_boxed, is_closed, is_closed_shape};
use crate::scene::{is_rotatable, item_of, items, rotatable, segment_in, segment_of};
use crate::scene::{Element, ElementKind, Item, SceneView, Segment, SegmentAnchor, SegmentStyle};
use crate::tools::Tool;
use vstd::prelude::*;

verus! {

/// The handles of the selection's frame that the pointer is near.
#[derive(Clone, Copy, PartialEq, Eq, Debug, Structural)]
pub struct Grips {
    pub rotate: bool,
    /// The first corner that it is near.
    pub corner: Option<usize>,
    pub top: bool,
    pub right: bool,
    pub bottom: bool,
    pub left: bool,
    /// The first end of the line that it is near.
    pub endpoint: Option<usize>,
    /// Whether the one selected element is turned.
    pub tilted: bool,
}

/// A press of the left button.
#[derive(Debug)]
pub struct Press {
    pub on_grip: bool,
    pub on_toolbar: bool,
    pub on_width_slider: bool,
    pub on_width_panel: bool,
    pub on_sv: bool,
    pub on_hue: bool,
    pub on_alpha: bool,
    pub on_picker: bool,
    pub control: bool,
    pub shift: bool,
    pub double: bool,
    /// The elements under the pointer.
    pub under: Vec<u64>,
    /// The connector button of the selected element that the pointer is on.
    pub button: Option<usize>,
    pub grips: Grips,
    /// A key for the place of an element that the press creates.
    pub place: u64,
}

/// A [`Press`] as a value.
pub struct PressView {
    pub on_grip: bool,
    pub on_toolbar: bool,
    pub on_width_slider: bool,
    pub on_width_panel: bool,
    pub on_sv: bool,
    pub on_hue: bool,
    pub on_alpha: bool,
    pub on_picker: bool,
    pub control: bool,
    pub shift: bool,
    pub double: bool,
    pub under: Seq<u64>,
    pub button: Option<usize>,
    pub grips: Grips,
    pub place: u64,
}

impl View for Press {
    type V = PressView;

    open spec fn view(&self) -> PressView {
        PressView {
            on_grip: self.on_grip,
            on_toolbar: self.on_toolbar,
            on_width_slider: self.on_width_slider,
            on_width_panel: self.on_width_panel,
            on_sv: self.on_sv,
            on_hue: self.on_hue,
            on_alpha: self.on_alpha,
            on_picker: self.on_picker,
            control: self.control,
            shift: self.shift,
            double: self.double,
            under: self.under@,
            button: self.button,
            grips: self.grips,
            place: self.place,
        }
    }
}

/// What is left to the host after a press on a control.
#[derive(Clone, Copy, PartialEq, Eq, Debug, Structural)]
pub enum PanelPress {
    /// No control took the press: it is for the text being edited and the canvas.
    Canvas,
    /// A control took it.
    Handled,
    /// The canvas is dragged.
    Pan,
    /// The toolbar is dragged.
    DragToolbar,
    /// The toolbar goes back to its place, and the host keeps that.
    ResetToolbar,
    /// The host reads the control and applies what it says.
    Slide(PickerDrag),
}

/// What is left to the host after a press, as far as the text being edited goes.
#[derive(Clone, Copy, PartialEq, Eq, Debug, Structural)]
pub enum TextPress {
    /// No text was edited.
    Nothing,
    /// The caret goes where the press is.
    PlaceCaret(u64),
    /// The editing ended, and the host saves.
    Committed,
}

/// The edge of a frame.
#[derive(Clone, Copy, PartialEq, Eq, Debug, Structural)]
pub enum Edge {
    Top,
    Right,
    Bottom,
    Left,
}

/// A handle that was grabbed.
#[derive(Clone, Copy, PartialEq, Eq, Debug, Structural)]
pub enum HandleGrab {
    /// A corner or an edge of one element.
    Corner(u64, usize),
    Side(u64, Edge),
    /// One end of a line.
    Endpoint(u64, usize),
    Rotate,
    /// A corner or an edge of the frame around several.
    GroupCorner(usize),
    GroupSide(Edge),
}

/// What is left to the host after a press on the canvas.
#[derive(Clone, Copy, PartialEq, Eq, Debug, Structural)]
pub enum CanvasPress {
    /// The canvas is dragged.
    Pan,
    /// The text of an element is edited, with the caret where the press is.
    Edit(u64),
    /// The host opens a page.
    OpenPage(i64),
    /// The view goes back to the origin.
    ResetView,
    /// The selection changed, or a frame around elements is dragged.
    Selected,
    /// A new text was put here.
    NewText(u64),
    /// A diagram is put here.
    SeedMindMap,
    SeedFlowchart,
    /// The host asks what to put here.
    PlaceEmbed,
    PlaceImage,
    /// A line is dragged out of the side of an element.
    Connect(ConnectPoint),
    /// A handle is dragged.
    Grab(HandleGrab),
    /// The selection is dragged, by its first element.
    Move,
    /// An element is drawn.
    Draw(Draft),
    Nothing,
}

// --- What is decided ---

/// Remembers the scene where there is a selection to change.
pub open spec fn snapshot_selected(b: BoardState) -> BoardState {
    if b.selected.len() == 0 {
        b
    } else {
        snapshot(b)
    }
}

/// The board with other popups.
pub open spec fn popped(b: BoardState, p: Popups) -> BoardState {
    BoardState { ui: Ui { pop: p, ..b.ui }, ..b }
}

/// The board with other drags.
pub open spec fn dragging(b: BoardState, d: Drag) -> BoardState {
    BoardState { ui: Ui { drag: d, ..b.ui }, ..b }
}

/// The board with a control being dragged.
pub open spec fn sliding(b: BoardState, d: PickerDrag) -> BoardState {
    let s = snapshot_selected(b);
    dragging(s, Drag { picker: Some(d), ..s.ui.drag })
}

/// What the controls make of a press.
pub open spec fn panel_press(b: BoardState, p: PressView) -> (BoardState, PanelPress) {
    let pop = b.ui.pop;
    if b.ui.drag.panning {
        (b, PanelPress::Handled)
    } else if b.ui.read_only {
        (dragging(b, Drag { panning: true, ..b.ui.drag }), PanelPress::Pan)
    } else if p.on_grip {
        if p.double {
            (dragging(b, Drag { toolbar: false, ..b.ui.drag }), PanelPress::ResetToolbar)
        } else {
            let q = Popups {
                picker: None,
                open_group: None,
                width_open: false,
                font_open: false,
                templates_open: false,
                context_menu: false,
                ..pop
            };
            (popped(dragging(b, Drag { toolbar: true, ..b.ui.drag }), q), PanelPress::DragToolbar)
        }
    } else if p.on_toolbar {
        (b, PanelPress::Handled)
    } else if pop.context_menu {
        (popped(b, Popups { context_menu: false, ..pop }), PanelPress::Handled)
    } else if pop.open_group is Some {
        (popped(b, Popups { open_group: None, ..pop }), PanelPress::Handled)
    } else if pop.font_open {
        (popped(b, Popups { font_open: false, ..pop }), PanelPress::Handled)
    } else if pop.width_open {
        if p.on_width_slider {
            (sliding(b, PickerDrag::Width), PanelPress::Slide(PickerDrag::Width))
        } else if p.on_width_panel {
            (b, PanelPress::Handled)
        } else {
            (popped(b, Popups { width_open: false, ..pop }), PanelPress::Handled)
        }
    } else if pop.picker is Some {
        if p.on_sv {
            (sliding(b, PickerDrag::Sv), PanelPress::Slide(PickerDrag::Sv))
        } else if p.on_hue {
            (sliding(b, PickerDrag::Hue), PanelPress::Slide(PickerDrag::Hue))
        } else if p.on_alpha {
            (sliding(b, PickerDrag::Alpha), PanelPress::Slide(PickerDrag::Alpha))
        } else if p.on_picker {
            (b, PanelPress::Handled)
        } else {
            (popped(b, Popups { picker: None, ..pop }), PanelPress::Handled)
        }
    } else {
        (b, PanelPress::Canvas)
    }
}

/// What the text being edited makes of a press.
pub open spec fn text_press(b: BoardState, in_text: bool) -> (BoardState, TextPress) {
    match b.ui.edit.editing {
        None => (b, TextPress::Nothing),
        Some(id) => if in_text {
            (b, TextPress::PlaceCaret(id))
        } else {
            (committed(b), TextPress::Committed)
        },
    }
}

/// What can be looked for under the pointer.
#[derive(Clone, Copy, PartialEq, Eq, Debug, Structural)]
pub enum Sort {
    Any,
    Text,
    Closed,
    Card,
}

/// Whether an element is of a sort.
pub open spec fn is_sort(e: Item, sort: Sort) -> bool {
    match sort {
        Sort::Any => true,
        Sort::Text => e.kind is Text,
        Sort::Closed => is_closed(e.kind),
        Sort::Card => e.kind is Embed,
    }
}

/// The element of a sort that is painted last among the first `n` of those listed.
pub open spec fn topmost(v: Seq<Item>, ids: Seq<u64>, sort: Sort, n: int) -> Option<Item>
    decreases n,
{
    if n <= 0 {
        None
    } else if ids.contains(v[n - 1].id) && is_sort(v[n - 1], sort) {
        Some(v[n - 1])
    } else {
        topmost(v, ids, sort, n - 1)
    }
}

/// The element of a sort that a press hits.
pub open spec fn hit(b: BoardState, p: PressView, sort: Sort) -> Option<Item> {
    topmost(b.scene.elements, p.under, sort, b.scene.elements.len() as int)
}

/// A selection with an element taken in or out.
pub open spec fn toggled(sel: Seq<u64>, id: u64) -> Seq<u64> {
    if sel.contains(id) {
        sel.remove(sel.index_of_first(id)->0)
    } else {
        sel.push(id)
    }
}

/// Whether one of the selected elements can be turned.
pub open spec fn any_rotatable(b: BoardState) -> bool {
    exists|i: int|
        0 <= i < b.scene.elements.len() && b.selected.contains((#[trigger] b.scene.elements[i]).id)
            && is_rotatable(b.scene.elements[i].kind)
}

/// Whether one of the selected elements is there.
pub open spec fn any_selected(b: BoardState) -> bool {
    exists|i: int|
        0 <= i < b.scene.elements.len() && b.selected.contains((#[trigger] b.scene.elements[i]).id)
}

/// The handle that is grabbed: of the frame around several elements, or of the
/// one that is selected. Lines are grabbed by their ends. A turned element has
/// no edges to grab, nor has a text.
pub open spec fn handle_grab(b: BoardState, g: Grips) -> Option<HandleGrab> {
    if b.selected.len() > 1 {
        if !any_selected(b) {
            None
        } else if any_rotatable(b) && g.rotate {
            Some(HandleGrab::Rotate)
        } else if g.corner is Some {
            Some(HandleGrab::GroupCorner(g.corner->0))
        } else if g.left {
            Some(HandleGrab::GroupSide(Edge::Left))
        } else if g.right {
            Some(HandleGrab::GroupSide(Edge::Right))
        } else if g.top {
            Some(HandleGrab::GroupSide(Edge::Top))
        } else if g.bottom {
            Some(HandleGrab::GroupSide(Edge::Bottom))
        } else {
            None
        }
    } else {
        match lone(b.selected) {
            None => None,
            Some(id) => match item_of(b.scene.elements, id) {
                None => None,
                Some(e) => if is_rotatable(e.kind) && g.rotate {
                    Some(HandleGrab::Rotate)
                } else if segment_in(e.kind) is Some {
                    match g.endpoint {
                        Some(w) => Some(HandleGrab::Endpoint(id, w)),
                        None => None,
                    }
                } else if g.corner is Some {
                    Some(HandleGrab::Corner(id, g.corner->0))
                } else if is_boxed(e.kind) && (g.tilted || e.kind is Text) {
                    None
                } else if g.top {
                    Some(HandleGrab::Side(id, Edge::Top))
                } else if g.bottom {
                    Some(HandleGrab::Side(id, Edge::Bottom))
                } else if g.right {
                    Some(HandleGrab::Side(id, Edge::Right))
                } else if g.left {
                    Some(HandleGrab::Side(id, Edge::Left))
                } else {
                    None
                },
            },
        }
    }
}

/// What an edge scales.
pub open spec fn edge_handle(e: Edge) -> ResizeHandle {
    match e {
        Edge::Left | Edge::Right => ResizeHandle::EdgeX,
        Edge::Top | Edge::Bottom => ResizeHandle::EdgeY,
    }
}

/// The drags once a handle was grabbed.
pub open spec fn grabbed(d: Drag, g: HandleGrab) -> Drag {
    match g {
        HandleGrab::Corner(id, _) => Drag {
            resizing: Some(Resizing { id, handle: ResizeHandle::Corner }),
            ..d
        },
        HandleGrab::Side(id, e) => Drag {
            resizing: Some(Resizing { id, handle: edge_handle(e) }),
            ..d
        },
        HandleGrab::Endpoint(id, which) => Drag {
            endpoint: Some(EndpointDrag { id, which }),
            ..d
        },
        HandleGrab::Rotate => Drag { rotating: true, ..d },
        HandleGrab::GroupCorner(_) => Drag { group_resizing: Some(ResizeHandle::Corner), ..d },
        HandleGrab::GroupSide(e) => Drag { group_resizing: Some(edge_handle(e)), ..d },
    }
}

/// The connector button that is pressed: one of the selected element, where
/// lines can be tied to it.
pub open spec fn connector_hit(b: BoardState, button: Option<usize>) -> Option<ConnectPoint> {
    match (lone(b.selected), button) {
        (Some(id), Some(index)) => match first_boxed(b.scene.elements, id, 0) {
            Some(_) => Some(ConnectPoint { id, index }),
            None => None,
        },
        _ => None,
    }
}

/// The first element of an id, from `i` on, that lines can be tied to.
pub open spec fn first_boxed(v: Seq<Item>, id: u64, i: int) -> Option<int>
    decreases v.len() - i,
{
    if i < 0 || i >= v.len() {
        None
    } else if v[i].id == id && is_boxed(v[i].kind) {
        Some(i)
    } else {
        first_boxed(v, id, i + 1)
    }
}

/// A line out of the side of an element.
pub open spec fn line_from(p: ConnectPoint) -> Segment {
    Segment {
        style: SegmentStyle::Solid,
        start_anchor: Some(SegmentAnchor { element_id: p.id, connector: p.index }),
        end_anchor: None,
    }
}

/// What a tool draws.
pub open spec fn draft_of(t: Tool) -> Option<Draft> {
    let loose = Segment { style: SegmentStyle::Solid, start_anchor: None, end_anchor: None };
    match t {
        Tool::Pen => Some(Draft::Draw),
        Tool::Rect => Some(Draft::Rect),
        Tool::Ellipse => Some(Draft::Ellipse),
        Tool::Diamond => Some(Draft::Diamond),
        Tool::Triangle => Some(Draft::Triangle),
        Tool::RoundRect => Some(Draft::RoundRect),
        Tool::Star => Some(Draft::Star),
        Tool::Hexagon => Some(Draft::Hexagon),
        Tool::Line => Some(Draft::Line(loose)),
        Tool::Arrow => Some(Draft::Arrow(loose)),
        Tool::DashedArrow => Some(Draft::Arrow(Segment { style: SegmentStyle::Dashed, ..loose })),
        _ => None,
    }
}

/// A text that is about to be typed.
pub open spec fn fresh_text(id: u64, place: u64, stroke: Option<u32>) -> Item {
    Item {
        id,
        kind: ElementKind::Text(Seq::empty()),
        place,
        stroke,
        fill: None,
        label: None,
        label_color: None,
        styles: Seq::empty(),
        mindmap: None,
    }
}

/// The board with a new text being edited.
pub open spec fn text_added(b: BoardState, place: u64) -> BoardState {
    let s = snapshot(b);
    let u = edit_begun(b.ui, b.next_id, 0);
    BoardState {
        scene: SceneView {
            elements: b.scene.elements.push(fresh_text(b.next_id, place, b.ui.ink.stroke)),
            ..b.scene
        },
        selected: seq![b.next_id],
        next_id: (b.next_id + 1) as u64,
        ui: Ui { dirty: true, ..u },
        ..s
    }
}

/// What a double press on the canvas does.
pub open spec fn double_press(b: BoardState, p: PressView) -> (BoardState, CanvasPress) {
    let c = dragging(b, Drag { pending: None, ..b.ui.drag });
    let edited = match hit(b, p, Sort::Text) {
        Some(e) => Some(e.id),
        None => match hit(b, p, Sort::Closed) {
            Some(e) => Some(e.id),
            None => None,
        },
    };
    match edited {
        Some(id) => (
            BoardState {
                selected: seq![id],
                ui: Ui { edit: Edit { editing: Some(id), ..c.ui.edit }, ..c.ui },
                ..c
            },
            CanvasPress::Edit(id),
        ),
        None => match (b.ui.tool, hit(b, p, Sort::Card)) {
            (Tool::Select, Some(e)) => (
                BoardState { selected: seq![e.id], ..c },
                CanvasPress::OpenPage(e.kind->page_id),
            ),
            _ => (BoardState { ui: Ui { dirty: true, ..c.ui }, ..c }, CanvasPress::ResetView),
        },
    }
}

/// What a press with the Select tool does.
pub open spec fn select_press(b: BoardState, p: PressView) -> (BoardState, CanvasPress) {
    if connector_hit(b, p.button) is Some {
        let cp = connector_hit(b, p.button)->0;
        (
            dragging(
                b,
                Drag {
                    pending: Some(Draft::Arrow(line_from(cp))),
                    connecting: Some(cp),
                    hovered_connector: Some(cp),
                    ..b.ui.drag
                },
            ),
            CanvasPress::Connect(cp),
        )
    } else if handle_grab(b, p.grips) is Some {
        let g = handle_grab(b, p.grips)->0;
        let s = snapshot(b);
        (dragging(s, grabbed(s.ui.drag, g)), CanvasPress::Grab(g))
    } else {
        match hit(b, p, Sort::Any) {
            Some(e) => if p.shift {
                (
                    dragging(
                        BoardState { selected: toggled(b.selected, e.id), ..b },
                        Drag { moving: false, ..b.ui.drag },
                    ),
                    CanvasPress::Selected,
                )
            } else {
                (
                    dragging(
                        BoardState {
                            selected: if b.selected.contains(e.id) {
                                b.selected
                            } else {
                                seq![e.id]
                            },
                            ..b
                        },
                        Drag { moving: true, moved: false, ..b.ui.drag },
                    ),
                    CanvasPress::Move,
                )
            },
            None => (
                dragging(
                    BoardState {
                        selected: if p.shift {
                            b.selected
                        } else {
                            Seq::empty()
                        },
                        ..b
                    },
                    Drag { marquee: true, moving: false, ..b.ui.drag },
                ),
                CanvasPress::Selected,
            ),
        }
    }
}

/// What a press on the canvas does.
pub open spec fn canvas_press(b: BoardState, p: PressView) -> (BoardState, CanvasPress) {
    let tool = b.ui.tool;
    if p.control {
        (dragging(b, Drag { panning: true, ..b.ui.drag }), CanvasPress::Pan)
    } else if p.double {
        double_press(b, p)
    } else if tool == Tool::Select {
        select_press(b, p)
    } else if hit(b, p, Sort::Any) is Some {
        let id = (hit(b, p, Sort::Any)->0).id;
        let c = dragging(b, Drag { moving: false, ..b.ui.drag });
        (
            BoardState {
                selected: if p.shift {
                    toggled(b.selected, id)
                } else {
                    seq![id]
                },
                ui: Ui { tool: Tool::Select, ..c.ui },
                ..c
            },
            CanvasPress::Selected,
        )
    } else if tool == Tool::Pan {
        (dragging(b, Drag { panning: true, ..b.ui.drag }), CanvasPress::Pan)
    } else if tool == Tool::Text {
        (text_added(b, p.place), CanvasPress::NewText(b.next_id))
    } else if tool == Tool::MindMap {
        (b, CanvasPress::SeedMindMap)
    } else if tool == Tool::Flowchart {
        (b, CanvasPress::SeedFlowchart)
    } else if tool == Tool::Embed {
        (b, CanvasPress::PlaceEmbed)
    } else if tool == Tool::Image {
        (b, CanvasPress::PlaceImage)
    } else {
        match draft_of(tool) {
            Some(d) => (
                dragging(b, Drag { pending: Some(d), ..b.ui.drag }),
                CanvasPress::Draw(d),
            ),
            None => (b, CanvasPress::Nothing),
        }
    }
}

// --- How it is done ---

fn find_topmost(v: &Vec<Element>, ids: &Vec<u64>, sort: Sort) -> (r: Option<usize>)
    ensures
        r is None ==> topmost(items(v@), ids@, sort, v@.len() as int) is None,
        r matches Some(i) ==> i < v@.len() && topmost(items(v@), ids@, sort, v@.len() as int) == Some(
            v@[i as int]@,
        ) && is_sort(v@[i as int]@, sort),
{
    let mut n: usize = v.len();
    while n > 0
        invariant
            n <= v@.len(),
            topmost(items(v@), ids@, sort, v@.len() as int) == topmost(items(v@), ids@, sort, n as int),
        decreases n,
    {
        assert(items(v@)[n - 1] == v@[n - 1]@);
        let of_sort = match sort {
            Sort::Any => true,
            Sort::Text => match v[n - 1].kind {
                ElementKind::Text(_) => true,
                _ => false,
            },
            Sort::Closed => is_closed_shape(&v[n - 1].kind),
            Sort::Card => match v[n - 1].kind {
                ElementKind::Embed { .. } => true,
                _ => false,
            },
        };
        if holds_id(ids, v[n - 1].id) && of_sort {
            return Some(n - 1);
        }
        n -= 1;
    }
    None
}

/// Takes an element in or out of a selection.
fn toggle(sel: &mut Vec<u64>, id: u64)
    ensures
        final(sel)@ == toggled(old(sel)@, id),
{
    let ghost v = sel@;
    let mut i: usize = 0;
    while i < sel.len()
        invariant
            i <= sel@.len(),
            sel@ == v,
            v == old(sel)@,
            forall|k: int| 0 <= k < i ==> v[k] != id,
        decreases sel.len() - i,
    {
        if sel[i] == id {
            proof {
                v.index_of_first_ensures(id);
                assert(v.contains(id));
                let f = v.index_of_first(id)->0;
                assert(f == i);
            }
            sel.remove(i);
            return;
        }
        i += 1;
    }
    sel.push(id);
}

fn one(id: u64) -> (r: Vec<u64>)
    ensures
        r@ == seq![id],
{
    let mut v: Vec<u64> = Vec::new();
    v.push(id);
    assert(v@ =~= seq![id]);
    v
}

fn handle_for(e: Edge) -> (r: ResizeHandle)
    ensures
        r == edge_handle(e),
{
    match e {
        Edge::Left | Edge::Right => ResizeHandle::EdgeX,
        Edge::Top | Edge::Bottom => ResizeHandle::EdgeY,
    }
}

fn grab_drag(d: Drag, g: HandleGrab) -> (r: Drag)
    ensures
        r == grabbed(d, g),
{
    match g {
        HandleGrab::Corner(id, _) => Drag {
            resizing: Some(Resizing { id, handle: ResizeHandle::Corner }),
            ..d
        },
        HandleGrab::Side(id, e) => Drag {
            resizing: Some(Resizing { id, handle: handle_for(e) }),
            ..d
        },
        HandleGrab::Endpoint(id, which) => Drag {
            endpoint: Some(EndpointDrag { id, which }),
            ..d
        },
        HandleGrab::Rotate => Drag { rotating: true, ..d },
        HandleGrab::GroupCorner(_) => Drag { group_resizing: Some(ResizeHandle::Corner), ..d },
        HandleGrab::GroupSide(e) => Drag { group_resizing: Some(handle_for(e)), ..d },
    }
}

fn draft_for(t: Tool) -> (r: Option<Draft>)
    ensures
        r == draft_of(t),
{
    let loose = Segment { style: SegmentStyle::Solid, start_anchor: None, end_anchor: None };
    match t {
        Tool::Pen => Some(Draft::Draw),
        Tool::Rect => Some(Draft::Rect),
        Tool::Ellipse => Some(Draft::Ellipse),
        Tool::Diamond => Some(Draft::Diamond),
        Tool::Triangle => Some(Draft::Triangle),
        Tool::RoundRect => Some(Draft::RoundRect),
        Tool::Star => Some(Draft::Star),
        Tool::Hexagon => Some(Draft::Hexagon),
        Tool::Line => Some(Draft::Line(loose)),
        Tool::Arrow => Some(Draft::Arrow(loose)),
        Tool::DashedArrow => Some(
            Draft::Arrow(
                Segment { style: SegmentStyle::Dashed, start_anchor: None, end_anchor: None },
            ),
        ),
        _ => None,
    }
}

impl WhiteboardView {
    fn slide(&mut self, d: PickerDrag)
        ensures
            final(self)@ == sliding(old(self)@, d),
    {
        if self.selected.len() > 0 {
            self.push_undo();
        }
        self.ui.drag.picker = Some(d);
    }

    fn start_panning(&mut self)
        ensures
            final(self)@ == dragging(
                old(self)@,
                Drag { panning: true, ..old(self)@.ui.drag },
            ),
    {
        self.ui.drag.panning = true;
    }

    /// What the controls make of a press: the toolbar, the menus and flyouts,
    /// the thickness slider and the colour picker, in this order.
    pub fn press_panels(&mut self, p: &Press) -> (r: PanelPress)
        ensures
            (final(self)@, r) == panel_press(old(self)@, p@),
    {
        if self.ui.drag.panning {
            return PanelPress::Handled;
        }
        if self.ui.read_only {
            self.start_panning();
            return PanelPress::Pan;
        }
        let pop = self.ui.pop;
        if p.on_grip {
            if p.double {
                self.ui.drag.toolbar = false;
                return PanelPress::ResetToolbar;
            }
            self.ui.drag.toolbar = true;
            self.ui.pop = Popups {
                picker: None,
                open_group: None,
                width_open: false,
                font_open: false,
                templates_open: false,
                context_menu: false,
                ..pop
            };
            return PanelPress::DragToolbar;
        }
        if p.on_toolbar {
            return PanelPress::Handled;
        }
        if pop.context_menu {
            self.ui.pop.context_menu = false;
            return PanelPress::Handled;
        }
        if pop.open_group.is_some() {
            self.ui.pop.open_group = None;
            return PanelPress::Handled;
        }
        if pop.font_open {
            self.ui.pop.font_open = false;
            return PanelPress::Handled;
        }
        if pop.width_open {
            if p.on_width_slider {
                self.slide(PickerDrag::Width);
                return PanelPress::Slide(PickerDrag::Width);
            }
            if !p.on_width_panel {
                self.ui.pop.width_open = false;
            }
            return PanelPress::Handled;
        }
        if pop.picker.is_some() {
            if p.on_sv {
                self.slide(PickerDrag::Sv);
                return PanelPress::Slide(PickerDrag::Sv);
            }
            if p.on_hue {
                self.slide(PickerDrag::Hue);
                return PanelPress::Slide(PickerDrag::Hue);
            }
            if p.on_alpha {
                self.slide(PickerDrag::Alpha);
                return PanelPress::Slide(PickerDrag::Alpha);
            }
            if !p.on_picker {
                self.ui.pop.picker = None;
            }
            return PanelPress::Handled;
        }
        PanelPress::Canvas
    }

    /// What the text being edited makes of a press: inside it the caret moves,
    /// outside the editing ends.
    pub fn press_text(&mut self, in_text: bool) -> (r: TextPress)
        ensures
            (final(self)@, r) == text_press(old(self)@, in_text),
    {
        match self.ui.edit.editing {
            None => TextPress::Nothing,
            Some(id) => if in_text {
                TextPress::PlaceCaret(id)
            } else {
                let _save = self.commit_text();
                TextPress::Committed
            },
        }
    }

    /// Whether several elements are selected, one of which can be turned.
    pub fn group_rotatable(&self) -> (r: bool)
        ensures
            r == (self@.selected.len() > 1 && any_rotatable(self@)),
    {
        if self.selected.len() <= 1 {
            return false;
        }
        let ghost v = self@.scene.elements;
        let mut i: usize = 0;
        while i < self.scene.elements.len()
            invariant
                i <= self.scene.elements@.len(),
                v == items(self.scene.elements@),
                v == self@.scene.elements,
                self@.selected.len() > 1,
                forall|k: int|
                    0 <= k < i ==> !(self@.selected.contains((#[trigger] v[k]).id) && is_rotatable(
                        v[k].kind,
                    )),
            decreases self.scene.elements.len() - i,
        {
            assert(v[i as int] == self.scene.elements@[i as int]@);
            if self.is_selected(self.scene.elements[i].id) && rotatable(&self.scene.elements[i].kind) {
                return true;
            }
            i += 1;
        }
        false
    }

    pub(crate) fn anything_selected(&self) -> (r: bool)
        ensures
            r == any_selected(self@),
    {
        let ghost v = self@.scene.elements;
        let mut i: usize = 0;
        while i < self.scene.elements.len()
            invariant
                i <= self.scene.elements@.len(),
                v == items(self.scene.elements@),
                v == self@.scene.elements,
                forall|k: int| 0 <= k < i ==> !self@.selected.contains((#[trigger] v[k]).id),
            decreases self.scene.elements.len() - i,
        {
            assert(v[i as int] == self.scene.elements@[i as int]@);
            if self.is_selected(self.scene.elements[i].id) {
                return true;
            }
            i += 1;
        }
        false
    }

    /// The handle that is grabbed, by what the pointer is near.
    pub fn handle_hit(&self, g: &Grips) -> (r: Option<HandleGrab>)
        ensures
            r == handle_grab(self@, *g),
    {
        if self.selected.len() > 1 {
            if !self.anything_selected() {
                return None;
            }
            if g.rotate && self.group_rotatable() {
                return Some(HandleGrab::Rotate);
            }
            return match g.corner {
                Some(i) => Some(HandleGrab::GroupCorner(i)),
                None => if g.left {
                    Some(HandleGrab::GroupSide(Edge::Left))
                } else if g.right {
                    Some(HandleGrab::GroupSide(Edge::Right))
                } else if g.top {
                    Some(HandleGrab::GroupSide(Edge::Top))
                } else if g.bottom {
                    Some(HandleGrab::GroupSide(Edge::Bottom))
                } else {
                    None
                },
            };
        }
        let id = match self.selected_single() {
            Some(id) => id,
            None => {
                return None;
            },
        };
        let i: usize = match find_element(&self.scene.elements, id) {
            Some(i) => i,
            None => {
                return None;
            },
        };
        assert(self@.scene.elements[i as int] == self.scene.elements@[i as int]@);
        let e = &self.scene.elements[i];
        if rotatable(&e.kind) && g.rotate {
            return Some(HandleGrab::Rotate);
        }
        if segment_of(&e.kind).is_some() {
            return match g.endpoint {
                Some(w) => Some(HandleGrab::Endpoint(id, w)),
                None => None,
            };
        }
        let is_text = match e.kind {
            ElementKind::Text(_) => true,
            _ => false,
        };
        match g.corner {
            Some(k) => Some(HandleGrab::Corner(id, k)),
            None => if connector_capable(&e.kind) && (g.tilted || is_text) {
                None
            } else if g.top {
                Some(HandleGrab::Side(id, Edge::Top))
            } else if g.bottom {
                Some(HandleGrab::Side(id, Edge::Bottom))
            } else if g.right {
                Some(HandleGrab::Side(id, Edge::Right))
            } else if g.left {
                Some(HandleGrab::Side(id, Edge::Left))
            } else {
                None
            },
        }
    }

    /// The connector button of the selected element that is pressed.
    pub fn connector_at(&self, button: Option<usize>) -> (r: Option<ConnectPoint>)
        ensures
            r == connector_hit(self@, button),
    {
        let (id, index) = match (self.selected_single(), button) {
            (Some(id), Some(index)) => (id, index),
            _ => {
                return None;
            },
        };
        let ghost v = self@.scene.elements;
        let mut i: usize = 0;
        while i < self.scene.elements.len()
            invariant
                i <= self.scene.elements@.len(),
                v == items(self.scene.elements@),
                first_boxed(v, id, 0) == first_boxed(v, id, i as int),
                v == self@.scene.elements,
                lone(self@.selected) == Some(id),
                button == Some(index),
            decreases self.scene.elements.len() - i,
        {
            assert(v[i as int] == self.scene.elements@[i as int]@);
            if self.scene.elements[i].id == id && connector_capable(&self.scene.elements[i].kind) {
                return Some(ConnectPoint { id, index });
            }
            i += 1;
        }
        None
    }

    fn grab(&mut self, g: HandleGrab)
        ensures
            final(self)@ == dragging(
                snapshot(old(self)@),
                grabbed(snapshot(old(self)@).ui.drag, g),
            ),
    {
        self.push_undo();
        let d = grab_drag(self.ui.drag, g);
        self.set_drag(d);
    }

    /// Replaces what is dragged.
    pub(crate) fn set_drag(&mut self, d: Drag)
        ensures
            final(self)@ == dragging(old(self)@, d),
    {
        self.ui.drag = d;
    }

    /// Replaces the selection by one element.
    pub(crate) fn select_one(&mut self, id: u64)
        ensures
            final(self)@ == (BoardState { selected: seq![id], ..old(self)@ }),
    {
        self.selected = one(id);
    }

    fn toggle_selected(&mut self, id: u64)
        ensures
            final(self)@ == (BoardState { selected: toggled(old(self)@.selected, id), ..old(self)@ }),
    {
        toggle(&mut self.selected, id);
    }

    fn select_none(&mut self)
        ensures
            final(self)@ == (BoardState { selected: Seq::empty(), ..old(self)@ }),
    {
        self.selected.clear();
        assert(self.selected@ =~= Seq::<u64>::empty());
    }

    fn press_twice(&mut self, p: &Press) -> (r: CanvasPress)
        ensures
            (final(self)@, r) == double_press(old(self)@, p@),
    {
        let d = self.ui.drag;
        self.set_drag(Drag { pending: None, ..d });
        assert(items(self.scene.elements@).len() == self.scene.elements@.len());
        let text = find_topmost(&self.scene.elements, &p.under, Sort::Text);
        let edited = match text {
            Some(i) => Some(i),
            None => find_topmost(&self.scene.elements, &p.under, Sort::Closed),
        };
        match edited {
            Some(i) => {
                let id: u64 = self.scene.elements[i].id;
                self.select_one(id);
                self.ui.edit.editing = Some(id);
                CanvasPress::Edit(id)
            },
            None => {
                if self.ui.tool == Tool::Select {
                    match find_topmost(&self.scene.elements, &p.under, Sort::Card) {
                        Some(i) => {
                            let id: u64 = self.scene.elements[i].id;
                            match self.scene.elements[i].kind {
                                ElementKind::Embed { page_id, .. } => {
                                    self.select_one(id);
                                    return CanvasPress::OpenPage(page_id);
                                },
                                _ => {},
                            }
                        },
                        None => {},
                    }
                }
                self.ui.dirty = true;
                CanvasPress::ResetView
            },
        }
    }

    fn press_select(&mut self, p: &Press) -> (r: CanvasPress)
        ensures
            (final(self)@, r) == select_press(old(self)@, p@),
    {
        match self.connector_at(p.button) {
            Some(cp) => {
                let s = Segment {
                    style: SegmentStyle::Solid,
                    start_anchor: Some(SegmentAnchor { element_id: cp.id, connector: cp.index }),
                    end_anchor: None,
                };
                let d = self.ui.drag;
                self.set_drag(
                    Drag {
                        pending: Some(Draft::Arrow(s)),
                        connecting: Some(cp),
                        hovered_connector: Some(cp),
                        ..d
                    },
                );
                return CanvasPress::Connect(cp);
            },
            None => {},
        }
        match self.handle_hit(&p.grips) {
            Some(g) => {
                self.grab(g);
                return CanvasPress::Grab(g);
            },
            None => {},
        }
        assert(items(self.scene.elements@).len() == self.scene.elements@.len());
        match find_topmost(&self.scene.elements, &p.under, Sort::Any) {
            Some(i) => {
                let id: u64 = self.scene.elements[i].id;
                let d = self.ui.drag;
                if p.shift {
                    self.toggle_selected(id);
                    self.set_drag(Drag { moving: false, ..d });
                    CanvasPress::Selected
                } else {
                    if !self.is_selected(id) {
                        self.select_one(id);
                    }
                    self.set_drag(Drag { moving: true, moved: false, ..d });
                    CanvasPress::Move
                }
            },
            None => {
                if !p.shift {
                    self.select_none();
                }
                let d = self.ui.drag;
                self.set_drag(Drag { marquee: true, moving: false, ..d });
                CanvasPress::Selected
            },
        }
    }

    fn add_text(&mut self, place: u64) -> (id: u64)
        requires
            old(self)@.next_id < u64::MAX,
        ensures
            final(self)@ == text_added(old(self)@, place),
            id == old(self)@.next_id,
    {
        self.push_undo();
        let id = self.take_id();
        let content = String::new();
        let e = Element {
            id,
            kind: ElementKind::Text(content),
            place,
            stroke: self.ui.ink.stroke,
            fill: None,
            label: None,
            label_color: None,
            styles: Vec::new(),
            mindmap: None,
        };
        proof {
            assert(content@ =~= Seq::<char>::empty());
            assert(e@ == fresh_text(id, place, self.ui.ink.stroke));
        }
        self.push_element(e);
        self.select_one(id);
        self.begin_text_edit(id, 0);
        self.ui.dirty = true;
        id
    }

    /// What a press on the canvas does, by the tool and what it hits.
    pub fn press_canvas(&mut self, p: &Press) -> (r: CanvasPress)
        requires
            old(self)@.next_id < u64::MAX,
        ensures
            (final(self)@, r) == canvas_press(old(self)@, p@),
    {
        let tool = self.ui.tool;
        if p.control {
            self.start_panning();
            return CanvasPress::Pan;
        }
        if p.double {
            return self.press_twice(p);
        }
        if tool == Tool::Select {
            return self.press_select(p);
        }
        assert(items(self.scene.elements@).len() == self.scene.elements@.len());
        match find_topmost(&self.scene.elements, &p.under, Sort::Any) {
            Some(i) => {
                let id: u64 = self.scene.elements[i].id;
                self.ui.tool = Tool::Select;
                if p.shift {
                    self.toggle_selected(id);
                } else {
                    self.select_one(id);
                }
                self.ui.drag.moving = false;
                return CanvasPress::Selected;
            },
            None => {},
        }
        match tool {
            Tool::Pan => {
                self.start_panning();
                CanvasPress::Pan
            },
            Tool::Text => {
                let id = self.add_text(p.place);
                CanvasPress::NewText(id)
            },
            Tool::MindMap => CanvasPress::SeedMindMap,
            Tool::Flowchart => CanvasPress::SeedFlowchart,
            Tool::Embed => CanvasPress::PlaceEmbed,
            Tool::Image => CanvasPress::PlaceImage,
            _ => match draft_for(tool) {
                Some(d) => {
                    self.ui.drag.pending = Some(d);
                    CanvasPress::Draw(d)
                },
                None => CanvasPress::Nothing,
            },
        }
    }
}

// --- What holds of it ---

/// A press on an element never draws over it: whatever the tool, it selects.
pub proof fn law_press_on_an_element_selects(b: BoardState, p: PressView)
    requires
        !p.control,
        !p.double,
        b.ui.tool != Tool::Select,
        hit(b, p, Sort::Any) is Some,
    ensures
        canvas_press(b, p).1 == CanvasPress::Selected,
        canvas_press(b, p).0.ui.tool == Tool::Select,
        canvas_press(b, p).0.scene == b.scene,
        !p.shift ==> canvas_press(b, p).0.selected == seq![(hit(b, p, Sort::Any)->0).id],
{
}

/// On a read-only board a press drags the canvas and does nothing else: apart
/// from that drag the whole board stays as it is.
pub proof fn law_read_only_only_pans(b: BoardState, p: PressView)
    requires
        b.ui.read_only,
    ensures
        panel_press(b, p).1 == PanelPress::Pan || panel_press(b, p).1 == PanelPress::Handled,
        panel_press(b, p).0 == dragging(b, Drag { panning: true, ..b.ui.drag }),
        panel_press(b, p).1 == PanelPress::Handled <==> b.ui.drag.panning,
{
}

/// Text is edited after a double press alone, or where a new text is put.
pub proof fn law_editing_takes_a_double_press(b: BoardState, p: PressView)
    requires
        b.ui.edit.editing is None,
        canvas_press(b, p).0.ui.edit.editing is Some,
    ensures
        p.double || canvas_press(b, p).1 is NewText,
{
}

/// The element that a press hits is the one painted last of those under it.
pub proof fn law_the_topmost_is_hit(v: Seq<Item>, ids: Seq<u64>, sort: Sort, n: int, k: int)
    requires
        0 <= k < n <= v.len(),
        ids.contains(v[k].id),
        is_sort(v[k], sort),
    ensures
        topmost(v, ids, sort, n) is Some,
        exists|j: int|
            k <= j < n && topmost(v, ids, sort, n) == Some(#[trigger] v[j]) && ids.contains(v[j].id)
                && is_sort(v[j], sort),
    decreases n,
{
    if ids.contains(v[n - 1].id) && is_sort(v[n - 1], sort) {
        assert(topmost(v, ids, sort, n) == Some(v[n - 1]));
    } else {
        law_the_topmost_is_hit(v, ids, sort, n - 1, k);
    }
}

} // verus!
