//! What holds of the pointer: what a press, a drag and letting go lead to.
use crate::board::{law_undo_restores, undone, BoardState, ConnectPoint, Drag, EndpointDrag, Resizing};
use crate::board::{PickerDrag, ResizeHandle};
use crate::drags::{connection_dragged, framed_upto, left_released, move_step, scale_of, MoveStep};
use crate::drags::{law_frame_adds_once, Released, Scale};
use crate::press::{canvas_press, first_boxed, hit, is_sort, panel_press, text_press, toggled};
use crate::press::{topmost, CanvasPress, PanelPress, PressView, Sort, TextPress};
use crate::scene::{index_of, is_boxed, item_of, lemma_index_from, ElementKind, Item, Segment};
use crate::scene::{SegmentAnchor, SegmentStyle};
use crate::tools::Tool;
use vstd::prelude::*;

verus! {

/// Whether nothing is dragged.
pub open spec fn is_idle(b: BoardState) -> bool {
    let d = b.ui.drag;
    &&& !b.ui.edit.text_selecting
    &&& d.pending is None
    &&& d.connecting is None
    &&& !d.moving
    &&& d.resizing is None
    &&& d.group_resizing is None
    &&& d.endpoint is None
    &&& !d.rotating
    &&& !d.marquee
    &&& d.picker is None
    &&& !d.toolbar
    &&& !d.panning
}

/// Whether a press meets no element.
pub open spec fn is_on_nothing(b: BoardState, p: PressView) -> bool {
    forall|i: int|
        0 <= i < b.scene.elements.len() ==> !p.under.contains((#[trigger] b.scene.elements[i]).id)
}

/// Whether a press is a single one, without Control.
pub open spec fn is_single(p: PressView) -> bool {
    !p.control && !p.double
}

/// Whether `e` is the element painted last of those under a press.
pub open spec fn is_on(b: BoardState, p: PressView, e: Item) -> bool {
    exists|i: int|
        0 <= i < b.scene.elements.len() && #[trigger] b.scene.elements[i] == e && p.under.contains(
            e.id,
        ) && forall|j: int|
            i < j < b.scene.elements.len() ==> !p.under.contains(
                (#[trigger] b.scene.elements[j]).id,
            )
}

proof fn lemma_none_hit(v: Seq<Item>, ids: Seq<u64>, sort: Sort, n: int)
    requires
        0 <= n <= v.len(),
        forall|i: int| 0 <= i < n ==> !ids.contains((#[trigger] v[i]).id),
    ensures
        topmost(v, ids, sort, n) is None,
    decreases n,
{
    if n > 0 {
        lemma_none_hit(v, ids, sort, n - 1);
    }
}

proof fn lemma_hit(v: Seq<Item>, ids: Seq<u64>, n: int, i: int)
    requires
        0 <= i < n <= v.len(),
        ids.contains(v[i].id),
        forall|j: int| i < j < n ==> !ids.contains((#[trigger] v[j]).id),
    ensures
        topmost(v, ids, Sort::Any, n) == Some(v[i]),
    decreases n,
{
    if i < n - 1 {
        assert(!ids.contains(v[n - 1].id));
        lemma_hit(v, ids, n - 1, i);
    }
}

proof fn lemma_on(b: BoardState, p: PressView, e: Item)
    requires
        is_on(b, p, e),
    ensures
        hit(b, p, Sort::Any) == Some(e),
{
    let v = b.scene.elements;
    let i = choose|i: int|
        0 <= i < v.len() && #[trigger] v[i] == e && p.under.contains(e.id) && forall|j: int|
            i < j < v.len() ==> !p.under.contains((#[trigger] v[j]).id);
    lemma_hit(v, p.under, v.len() as int, i);
}

// --- Drawing ---

/// Whether a kind is the shape that a tool is named after.
pub open spec fn is_named_after(t: Tool, k: ElementKind<Seq<char>>) -> bool {
    match k {
        ElementKind::Draw => t == Tool::Pen,
        ElementKind::Rect => t == Tool::Rect,
        ElementKind::Ellipse => t == Tool::Ellipse,
        ElementKind::Diamond => t == Tool::Diamond,
        ElementKind::Triangle => t == Tool::Triangle,
        ElementKind::RoundRect => t == Tool::RoundRect,
        ElementKind::Star => t == Tool::Star,
        ElementKind::Hexagon => t == Tool::Hexagon,
        ElementKind::Line(s) => t == Tool::Line && s.style == SegmentStyle::Solid,
        ElementKind::Arrow(s) => match s.style {
            SegmentStyle::Solid => t == Tool::Arrow,
            SegmentStyle::Dashed => t == Tool::DashedArrow,
        },
        _ => false,
    }
}

/// Whether a tool draws by dragging.
pub open spec fn draws(t: Tool) -> bool {
    match t {
        Tool::Pen | Tool::Rect | Tool::Ellipse | Tool::Diamond | Tool::Triangle => true,
        Tool::RoundRect | Tool::Star | Tool::Hexagon => true,
        Tool::Line | Tool::Arrow | Tool::DashedArrow => true,
        _ => false,
    }
}

/// Whether a tool draws a line.
pub open spec fn draws_lines(t: Tool) -> bool {
    t == Tool::Line || t == Tool::Arrow || t == Tool::DashedArrow
}

/// A drag over the empty canvas with a tool that draws adds one element, on top
/// of all others: of the kind that the tool is named after, with a new id, at
/// the place given, in the colours for new elements, tied to nothing. It can be
/// undone. A drag that is too short adds nothing.
pub proof fn law_a_drag_draws_the_shape_of_the_tool(
    b: BoardState,
    p: PressView,
    framed: Seq<u64>,
    place: u64,
)
    requires
        is_idle(b),
        is_single(p),
        is_on_nothing(b, p),
        draws(b.ui.tool),
        b.next_id < u64::MAX,
    ensures
        ({
            let drawing = canvas_press(b, p).0;
            let r = left_released(drawing, true, framed, place);
            let v = b.scene.elements;
            let w = r.0.scene.elements;
            let e = w.last();
            &&& canvas_press(b, p).1 is Draw
            &&& drawing.scene == b.scene
            &&& move_step(drawing) is Drawing
            &&& r.1 == (Released::Created { id: b.next_id, focus: false })
            &&& w.len() == v.len() + 1
            &&& w.drop_last() == v
            &&& is_named_after(b.ui.tool, e.kind)
            &&& e.id == b.next_id
            &&& e.place == place
            &&& e.stroke == b.ui.ink.stroke
            &&& e.label is None
            &&& e.label_color == b.ui.ink.text
            &&& e.mindmap is None
            &&& e.styles.len() == 0
            &&& e.fill == if draws_lines(b.ui.tool) || b.ui.tool == Tool::Pen {
                None
            } else {
                b.ui.ink.fill
            }
            &&& e.kind matches ElementKind::Line(s) ==> s.start_anchor is None && s.end_anchor is None
            &&& e.kind matches ElementKind::Arrow(s) ==> s.start_anchor is None && s.end_anchor is None
            &&& r.0.selected == b.selected
            &&& r.0.next_id == b.next_id + 1
            &&& undone(r.0).scene == b.scene
            &&& left_released(drawing, false, framed, place).0.scene == b.scene
            &&& left_released(drawing, false, framed, place).0.history == b.history
            &&& left_released(drawing, false, framed, place).0.ui.drag.pending is None
        }),
{
    let v = b.scene.elements;
    lemma_none_hit(v, p.under, Sort::Any, v.len() as int);
    let r = left_released(canvas_press(b, p).0, true, framed, place);
    law_undo_restores(b, r.0);
    assert(r.0.scene.elements.drop_last() =~= v);
}

/// Tools of different names draw different kinds.
pub proof fn law_tools_draw_apart(s: Tool, t: Tool, k: ElementKind<Seq<char>>)
    requires
        is_named_after(s, k),
        is_named_after(t, k),
    ensures
        s == t,
        draws(s),
{
}

/// A line that is dragged out of the side of the one selected element and let go
/// on the side of another is an arrow between the two, and is then selected.
pub proof fn law_a_dragged_connector_ties_two_elements(
    b: BoardState,
    p: PressView,
    side: usize,
    e: Item,
    to: ConnectPoint,
    framed: Seq<u64>,
    place: u64,
)
    requires
        is_idle(b),
        is_single(p),
        b.ui.tool == Tool::Select,
        b.selected == seq![e.id],
        item_of(b.scene.elements, e.id) == Some(e),
        e.kind is Rect || e.kind is Ellipse || e.kind is Diamond || e.kind is Triangle || e.kind is RoundRect
            || e.kind is Star || e.kind is Hexagon || e.kind is Text || e.kind is Image,
        p.button == Some(side),
        b.next_id < u64::MAX,
    ensures
        ({
            let pressed = canvas_press(b, p);
            let from = ConnectPoint { id: e.id, index: side };
            let dragged = connection_dragged(pressed.0, Some((to, true)));
            let r = left_released(dragged, true, framed, place);
            let w = r.0.scene.elements;
            &&& pressed.1 == CanvasPress::Connect(from)
            &&& move_step(pressed.0) == MoveStep::Connection(from)
            &&& dragged.ui.drag.hovered_connector == Some(to)
            &&& r.1 == (Released::Created { id: b.next_id, focus: true })
            &&& w.len() == b.scene.elements.len() + 1
            &&& w.drop_last() == b.scene.elements
            &&& w.last().id == b.next_id
            &&& w.last().kind == ElementKind::<Seq<char>>::Arrow(
                Segment {
                    style: SegmentStyle::Solid,
                    start_anchor: Some(SegmentAnchor { element_id: e.id, connector: side }),
                    end_anchor: Some(SegmentAnchor { element_id: to.id, connector: to.index }),
                },
            )
            &&& r.0.selected == seq![b.next_id]
            &&& undone(r.0).scene == b.scene
        }),
{
    let v = b.scene.elements;
    let i = index_of(v, e.id)->0;
    lemma_index_from(v, e.id, 0);
    lemma_first_boxed(v, e.id, 0, i);
    let pressed = canvas_press(b, p);
    let dragged = connection_dragged(pressed.0, Some((to, true)));
    let r = left_released(dragged, true, framed, place);
    law_undo_restores(b, r.0);
    assert(r.0.scene.elements.drop_last() =~= v);
}

proof fn lemma_first_boxed(v: Seq<Item>, id: u64, from: int, i: int)
    requires
        0 <= from <= i < v.len(),
        v[i].id == id,
        is_boxed(v[i].kind),
    ensures
        first_boxed(v, id, from) is Some,
    decreases i - from,
{
    if from < i && !(v[from].id == id && is_boxed(v[from].kind)) {
        lemma_first_boxed(v, id, from + 1, i);
    }
}

// --- Selecting ---

/// Whether a press with the Select tool meets no handle and no connector button.
pub open spec fn is_off_handles(b: BoardState, p: PressView) -> bool {
    let g = p.grips;
    p.button is None && !g.rotate && g.corner is None && !g.top && !g.right && !g.bottom && !g.left
        && g.endpoint is None
}

/// A press with the Select tool on an element selects it, unless it is selected,
/// and drags the selection; with Shift it takes the element in or out. The scene
/// stays as it is.
pub proof fn law_a_press_selects_the_topmost(b: BoardState, p: PressView, e: Item)
    requires
        is_idle(b),
        is_single(p),
        b.ui.tool == Tool::Select,
        is_off_handles(b, p),
        is_on(b, p, e),
    ensures
        ({
            let r = canvas_press(b, p);
            &&& r.0.scene == b.scene
            &&& r.0.history == b.history
            &&& !p.shift ==> {
                &&& r.1 == CanvasPress::Move
                &&& move_step(r.0) == MoveStep::Selection || b.ui.edit.editing is Some
                &&& r.0.selected == if b.selected.contains(e.id) {
                    b.selected
                } else {
                    seq![e.id]
                }
            }
            &&& p.shift ==> {
                &&& r.1 == CanvasPress::Selected
                &&& !r.0.ui.drag.moving
                &&& b.selected.no_duplicates() ==> {
                    &&& r.0.selected.contains(e.id) != b.selected.contains(e.id)
                    &&& forall|x: u64|
                        x != e.id ==> (#[trigger] r.0.selected.contains(x) <==> b.selected.contains(
                            x,
                        ))
                }
            }
        }),
{
    lemma_on(b, p, e);
    let r = canvas_press(b, p);
    if p.shift && b.selected.no_duplicates() {
        lemma_toggled(b.selected, e.id);
    }
}

proof fn lemma_toggled(sel: Seq<u64>, id: u64)
    requires
        sel.no_duplicates(),
    ensures
        toggled(sel, id).contains(id) != sel.contains(id),
        forall|x: u64|
            x != id ==> (#[trigger] toggled(sel, id).contains(x) <==> sel.contains(x)),
{
    let t = toggled(sel, id);
    if sel.contains(id) {
        sel.index_of_first_ensures(id);
        let f = sel.index_of_first(id)->0;
        assert(t == sel.remove(f));
        assert forall|x: u64| x != id implies (#[trigger] t.contains(x) <==> sel.contains(x)) by {
            if sel.contains(x) {
                let i = sel.index_of(x);
                if i < f {
                    assert(t[i] == x);
                } else {
                    assert(t[i - 1] == x);
                }
            }
            if t.contains(x) {
                let i = t.index_of(x);
                if i < f {
                    assert(sel[i] == x);
                } else {
                    assert(sel[i + 1] == x);
                }
            }
        }
        if t.contains(id) {
            let i = t.index_of(id);
            if i < f {
                assert(sel[i] == id);
            } else {
                assert(sel[i + 1] == id);
            }
        }
    } else {
        assert(t == sel.push(id));
        assert(t[sel.len() as int] == id);
        assert forall|x: u64| x != id implies (#[trigger] t.contains(x) <==> sel.contains(x)) by {
            if sel.contains(x) {
                let i = sel.index_of(x);
                assert(t[i] == x);
            }
            if t.contains(x) {
                let i = t.index_of(x);
                assert(sel[i] == x);
            }
        }
    }
}

/// A drag with the Select tool over the empty canvas selects what its frame
/// touches; with Shift, what was selected stays. Nothing else changes.
pub proof fn law_a_frame_selects_what_it_touches(
    b: BoardState,
    p: PressView,
    framed: Seq<u64>,
    committable: bool,
    place: u64,
    x: u64,
)
    requires
        is_idle(b),
        is_single(p),
        b.ui.tool == Tool::Select,
        is_off_handles(b, p),
        is_on_nothing(b, p),
        b.selected.no_duplicates(),
    ensures
        ({
            let r = canvas_press(b, p).0;
            let q = left_released(r, committable, framed, place);
            let there = exists|i: int|
                0 <= i < b.scene.elements.len() && (#[trigger] b.scene.elements[i]).id == x;
            &&& move_step(r) == MoveStep::Marquee || b.ui.edit.editing is Some
            &&& q.0.scene == b.scene
            &&& q.0.history == b.history
            &&& !q.0.ui.drag.marquee
            &&& q.1 == Released::Done(false)
            &&& q.0.selected.contains(x) <==> (p.shift && b.selected.contains(x)) || (there
                && framed.contains(x))
        }),
{
    let v = b.scene.elements;
    lemma_none_hit(v, p.under, Sort::Any, v.len() as int);
    let r = canvas_press(b, p).0;
    let start = r.selected;
    assert(Seq::<u64>::empty().no_duplicates());
    law_frame_adds_once(v, framed, start, v.len() as int);
    lemma_framed(v, framed, start, v.len() as int, x);
    let q = left_released(r, committable, framed, place);
    assert(q.0.selected == framed_upto(v, framed, start, v.len() as int));
}

proof fn lemma_framed(v: Seq<Item>, ids: Seq<u64>, sel: Seq<u64>, n: int, x: u64)
    requires
        0 <= n <= v.len(),
    ensures
        framed_upto(v, ids, sel, n).contains(x) <==> sel.contains(x) || (ids.contains(x)
            && exists|i: int| 0 <= i < n && (#[trigger] v[i]).id == x),
    decreases n,
{
    if n > 0 {
        lemma_framed(v, ids, sel, n - 1, x);
        let r = framed_upto(v, ids, sel, n - 1);
        let q = framed_upto(v, ids, sel, n);
        let y = v[n - 1].id;
        if ids.contains(y) && !r.contains(y) {
            assert(q == r.push(y));
            assert(q[r.len() as int] == y);
            if r.contains(x) {
                assert(q[r.index_of(x)] == x);
            }
            if q.contains(x) && x != y {
                assert(r[q.index_of(x)] == x);
            }
        }
        if ids.contains(x) && exists|i: int| 0 <= i < n && (#[trigger] v[i]).id == x {
            let i = choose|i: int| 0 <= i < n && (#[trigger] v[i]).id == x;
            if i < n - 1 {
                assert(exists|i: int| 0 <= i < n - 1 && (#[trigger] v[i]).id == x);
            }
        }
    }
}

// --- Handles ---

/// The handles of the one selected element, where no connector button is
/// pressed: the handle above it turns it, unless it is a page card; an end of a
/// line is dragged by itself; a corner resizes, and an edge its width or its
/// height alone, unless the element is turned or a text.
pub proof fn law_handles_of_one_element(b: BoardState, p: PressView, e: Item)
    requires
        is_idle(b),
        b.ui.edit.editing is None,
        is_single(p),
        b.ui.tool == Tool::Select,
        p.button is None,
        b.selected == seq![e.id],
        item_of(b.scene.elements, e.id) == Some(e),
    ensures
        ({
            let g = p.grips;
            let r = canvas_press(b, p);
            let step = move_step(r.0);
            let edge = g.top || g.right || g.bottom || g.left;
            let is_line = e.kind is Line || e.kind is Arrow;
            let turns = g.rotate && !(e.kind is Embed);
            &&& turns ==> step == MoveStep::Rotation
            &&& !turns && is_line && g.endpoint is Some ==> step == MoveStep::Endpoint(
                EndpointDrag { id: e.id, which: g.endpoint->0 },
            )
            &&& !turns && !is_line && g.corner is Some ==> step == MoveStep::Resize(
                Resizing { id: e.id, handle: ResizeHandle::Corner },
            )
            &&& !turns && !is_line && g.corner is None && edge && !g.tilted && !(e.kind is Text) ==> step
                == MoveStep::Resize(
                Resizing {
                    id: e.id,
                    handle: if g.top || g.bottom {
                        ResizeHandle::EdgeY
                    } else {
                        ResizeHandle::EdgeX
                    },
                },
            )
            &&& r.1 is Grab ==> {
                &&& undone(r.0).scene == b.scene
                &&& r.0.scene == b.scene
                &&& r.0.selected == b.selected
            }
        }),
{
    let r = canvas_press(b, p);
    if r.1 is Grab {
        law_undo_restores(b, r.0);
    }
}

/// The handles of the frame around several elements, where no connector button
/// is pressed: the handle above it turns them, a corner scales both axes alike,
/// an edge the width or the height.
pub proof fn law_handles_of_a_group(b: BoardState, p: PressView, i: int)
    requires
        is_idle(b),
        b.ui.edit.editing is None,
        is_single(p),
        b.ui.tool == Tool::Select,
        b.selected.len() > 1,
        0 <= i < b.scene.elements.len(),
        b.selected.contains(b.scene.elements[i].id),
        !(b.scene.elements[i].kind is Embed),
    ensures
        ({
            let g = p.grips;
            let r = canvas_press(b, p);
            let step = move_step(r.0);
            &&& g.rotate ==> step == MoveStep::Rotation
            &&& !g.rotate && g.corner is Some ==> step == MoveStep::GroupResize(
                Scale::Proportional,
            )
            &&& !g.rotate && g.corner is None && (g.left || g.right) ==> step
                == MoveStep::GroupResize(Scale::Width)
            &&& !g.rotate && g.corner is None && !g.left && !g.right && (g.top || g.bottom) ==> step
                == MoveStep::GroupResize(Scale::Height)
            &&& r.1 is Grab ==> undone(r.0).scene == b.scene && r.0.scene == b.scene
        }),
{
    let r = canvas_press(b, p);
    let e = b.scene.elements[i];
    if r.1 is Grab {
        law_undo_restores(b, r.0);
    }
}

/// What a resize scales: an edge one axis; a corner both alike for texts and
/// images, for what is turned and with Shift, and else each by itself.
pub proof fn law_what_a_resize_scales(b: BoardState, e: Item, shift: bool, tilted: bool)
    requires
        item_of(b.scene.elements, e.id) == Some(e),
    ensures
        scale_of(b, Resizing { id: e.id, handle: ResizeHandle::EdgeX }, shift, tilted) == Scale::Width,
        scale_of(b, Resizing { id: e.id, handle: ResizeHandle::EdgeY }, shift, tilted) == Scale::Height,
        scale_of(b, Resizing { id: e.id, handle: ResizeHandle::Corner }, shift, tilted) == (if shift
            || tilted || e.kind is Text || e.kind is Image {
            Scale::Proportional
        } else {
            Scale::Free
        }),
{
}

// --- Other presses ---

/// A press with the Text tool on the empty canvas puts an empty text there, on
/// top, and starts to edit it; it can be undone.
pub proof fn law_the_text_tool_puts_a_text(b: BoardState, p: PressView)
    requires
        is_single(p),
        b.ui.tool == Tool::Text,
        is_on_nothing(b, p),
        b.next_id < u64::MAX,
    ensures
        ({
            let r = canvas_press(b, p);
            let w = r.0.scene.elements;
            &&& r.1 == CanvasPress::NewText(b.next_id)
            &&& w.len() == b.scene.elements.len() + 1
            &&& w.drop_last() == b.scene.elements
            &&& w.last().id == b.next_id
            &&& w.last().kind == ElementKind::Text(Seq::<char>::empty())
            &&& w.last().place == p.place
            &&& w.last().stroke == b.ui.ink.stroke
            &&& r.0.selected == seq![b.next_id]
            &&& r.0.ui.edit.editing == Some(b.next_id)
            &&& r.0.ui.edit.caret == 0
            &&& r.0.ui.edit.sel_anchor == 0
            &&& r.0.next_id == b.next_id + 1
            &&& undone(r.0).scene == b.scene
        }),
{
    let v = b.scene.elements;
    lemma_none_hit(v, p.under, Sort::Any, v.len() as int);
    let r = canvas_press(b, p);
    law_undo_restores(b, r.0);
    assert(r.0.scene.elements.drop_last() =~= v);
}

/// A press with one of the other tools on the empty canvas changes nothing but
/// the drag of the canvas; the host puts the diagram, card or image.
pub proof fn law_the_other_tools(b: BoardState, p: PressView)
    requires
        is_single(p),
        is_on_nothing(b, p),
    ensures
        b.ui.tool == Tool::MindMap ==> canvas_press(b, p) == (b, CanvasPress::SeedMindMap),
        b.ui.tool == Tool::Flowchart ==> canvas_press(b, p) == (b, CanvasPress::SeedFlowchart),
        b.ui.tool == Tool::Embed ==> canvas_press(b, p) == (b, CanvasPress::PlaceEmbed),
        b.ui.tool == Tool::Image ==> canvas_press(b, p) == (b, CanvasPress::PlaceImage),
        b.ui.tool == Tool::Pan ==> {
            let r = canvas_press(b, p);
            &&& r.1 == CanvasPress::Pan
            &&& r.0.ui.drag.panning
            &&& r.0.scene == b.scene
            &&& r.0.selected == b.selected
        },
{
    let v = b.scene.elements;
    lemma_none_hit(v, p.under, Sort::Any, v.len() as int);
}

/// With Control a press drags the canvas, whatever it is on and whatever the
/// tool.
pub proof fn law_control_drags_the_canvas(b: BoardState, p: PressView)
    requires
        p.control,
    ensures
        ({
            let r = canvas_press(b, p);
            &&& r.1 == CanvasPress::Pan
            &&& r.0.ui.drag == (Drag { panning: true, ..b.ui.drag })
            &&& r.0.scene == b.scene
            &&& r.0.selected == b.selected
        }),
{
}

/// Whether `e` is painted last of the elements of a sort that lie under a press.
pub open spec fn is_last_of(b: BoardState, p: PressView, e: Item, of: spec_fn(Item) -> bool) -> bool {
    exists|i: int|
        0 <= i < b.scene.elements.len() && #[trigger] b.scene.elements[i] == e && p.under.contains(
            e.id,
        ) && of(e) && forall|j: int|
            i < j < b.scene.elements.len() ==> !(p.under.contains(
                (#[trigger] b.scene.elements[j]).id,
            ) && of(b.scene.elements[j]))
}

proof fn lemma_last_of(v: Seq<Item>, ids: Seq<u64>, sort: Sort, n: int, i: int)
    requires
        0 <= i < n <= v.len(),
        ids.contains(v[i].id),
        is_sort(v[i], sort),
        forall|j: int|
            i < j < n ==> !(ids.contains((#[trigger] v[j]).id) && is_sort(v[j], sort)),
    ensures
        topmost(v, ids, sort, n) == Some(v[i]),
    decreases n,
{
    if i < n - 1 {
        lemma_last_of(v, ids, sort, n - 1, i);
    }
}

/// A double press on a text edits the topmost text, whatever lies over it, and
/// selects it alone.
pub proof fn law_a_double_press_edits_text(b: BoardState, p: PressView, e: Item)
    requires
        !p.control,
        p.double,
        is_last_of(b, p, e, |x: Item| x.kind is Text),
    ensures
        ({
            let r = canvas_press(b, p);
            &&& r.1 == CanvasPress::Edit(e.id)
            &&& r.0.ui.edit.editing == Some(e.id)
            &&& r.0.selected == seq![e.id]
            &&& r.0.scene == b.scene
        }),
{
    let v = b.scene.elements;
    let of = |x: Item| x.kind is Text;
    let i = choose|i: int|
        0 <= i < v.len() && #[trigger] v[i] == e && p.under.contains(e.id) && of(e) && forall|j: int|
            i < j < v.len() ==> !(p.under.contains((#[trigger] v[j]).id) && of(v[j]));
    assert forall|j: int| i < j < v.len() implies !(p.under.contains((#[trigger] v[j]).id)
        && is_sort(v[j], Sort::Text)) by {
        assert(!(p.under.contains(v[j].id) && of(v[j])));
    }
    lemma_last_of(v, p.under, Sort::Text, v.len() as int, i);
}

/// A double press that meets no element takes the view back to the origin.
pub proof fn law_a_double_press_on_nothing_resets_the_view(b: BoardState, p: PressView)
    requires
        !p.control,
        p.double,
        is_on_nothing(b, p),
    ensures
        canvas_press(b, p).1 == CanvasPress::ResetView,
        canvas_press(b, p).0.scene == b.scene,
        canvas_press(b, p).0.selected == b.selected,
        canvas_press(b, p).0.ui.edit == b.ui.edit,
{
    let v = b.scene.elements;
    lemma_none_hit(v, p.under, Sort::Text, v.len() as int);
    lemma_none_hit(v, p.under, Sort::Closed, v.len() as int);
    lemma_none_hit(v, p.under, Sort::Card, v.len() as int);
}

/// A press outside the text being edited ends the editing; one inside moves the
/// caret and leaves the board.
pub proof fn law_a_press_outside_ends_the_editing(b: BoardState, id: u64)
    requires
        b.ui.edit.editing == Some(id),
    ensures
        text_press(b, true) == (b, TextPress::PlaceCaret(id)),
        text_press(b, false).1 == TextPress::Committed,
        text_press(b, false).0.ui.edit.editing is None,
        text_press(b, false).0.selected == b.selected,
{
}

/// A press on a slider of an open panel drags that slider, and what it changes
/// can be undone; a press beside the panel closes it.
pub proof fn law_panels_take_the_press(b: BoardState, p: PressView)
    requires
        !b.ui.read_only,
        !b.ui.drag.panning,
        !p.on_grip,
        !p.on_toolbar,
        !b.ui.pop.context_menu,
        b.ui.pop.open_group is None,
        !b.ui.pop.font_open,
    ensures
        ({
            let r = panel_press(b, p);
            let q = b.ui.pop;
            &&& r.0.scene == b.scene
            &&& r.0.selected == b.selected
            &&& q.width_open && p.on_width_slider ==> r.1 == PanelPress::Slide(PickerDrag::Width)
            &&& q.width_open && !p.on_width_slider && !p.on_width_panel ==> !r.0.ui.pop.width_open
            &&& !q.width_open && q.picker is Some && p.on_sv ==> r.1 == PanelPress::Slide(
                PickerDrag::Sv,
            )
            &&& !q.width_open && q.picker is Some && !p.on_sv && p.on_hue ==> r.1
                == PanelPress::Slide(PickerDrag::Hue)
            &&& !q.width_open && q.picker is Some && !p.on_sv && !p.on_hue && p.on_alpha ==> r.1
                == PanelPress::Slide(PickerDrag::Alpha)
            &&& !q.width_open && q.picker is Some && !p.on_sv && !p.on_hue && !p.on_alpha
                && !p.on_picker ==> r.0.ui.pop.picker is None
            &&& !q.width_open && q.picker is None ==> r == (b, PanelPress::Canvas)
            &&& r.1 matches PanelPress::Slide(d) ==> {
                &&& r.0.ui.drag.picker == Some(d)
                &&& b.selected.len() > 0 ==> undone(r.0).scene == b.scene
                &&& b.selected.len() == 0 ==> r.0.history == b.history
            }
        }),
{
    let r = panel_press(b, p);
    if r.1 is Slide && b.selected.len() > 0 {
        law_undo_restores(b, r.0);
    }
}

} // verus!
