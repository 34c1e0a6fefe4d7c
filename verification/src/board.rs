//! A whiteboard: its scene, its history and the state of its controls.
use crate::scene::{copy_elements, copy_scene, find_element, holds_id, index_of, is_closed};
use crate::scene::{is_closed_shape, item_of, items, scene_views, Element};
use crate::scene::{Item, Scene, SceneView, Segment, Template};
use crate::styles::RunStyle;
use crate::tools::{Tool, ToolGroup};
use crate::tree::Span;
use vstd::prelude::*;

verus! {

/// How many steps can be undone.
pub const UNDO_CAP: usize = 50;

/// The colour that the picker opens with where nothing else gives one.
pub const PICKER_DEFAULT: u32 = 0x4080f0ff;

/// An element that a drag is drawing.
#[derive(Clone, Copy, PartialEq, Eq, Debug, Structural)]
pub enum Draft {
    Draw,
    Rect,
    Ellipse,
    Diamond,
    Triangle,
    RoundRect,
    Star,
    Hexagon,
    Line(Segment),
    Arrow(Segment),
}

/// A point on the side of an element that a line can be tied to.
#[derive(Clone, Copy, PartialEq, Eq, Debug, Structural)]
pub struct ConnectPoint {
    pub id: u64,
    pub index: usize,
}

/// What of a selection's frame is dragged to resize it.
#[derive(Clone, Copy, PartialEq, Eq, Debug, Structural)]
pub enum ResizeHandle {
    /// A corner, about the opposite one.
    Corner,
    /// A left or right edge, which scales the width alone.
    EdgeX,
    /// A top or bottom edge, which scales the height alone.
    EdgeY,
}

/// A resize of one element.
#[derive(Clone, Copy, PartialEq, Eq, Debug, Structural)]
pub struct Resizing {
    pub id: u64,
    pub handle: ResizeHandle,
}

/// A drag of one end of a line: the first or the second.
#[derive(Clone, Copy, PartialEq, Eq, Debug, Structural)]
pub struct EndpointDrag {
    pub id: u64,
    pub which: usize,
}

/// The property that the colour picker edits.
#[derive(Clone, Copy, PartialEq, Eq, Debug, Structural)]
pub enum PickerTarget {
    Stroke,
    Fill,
    Text,
}

/// A control that is being dragged.
#[derive(Clone, Copy, PartialEq, Eq, Debug, Structural)]
pub enum PickerDrag {
    /// Saturation and brightness.
    Sv,
    Hue,
    Alpha,
    /// The thickness slider.
    Width,
}

/// The text that is edited, and where in it the caret is.
#[derive(Clone, Copy, PartialEq, Eq, Debug, Structural)]
pub struct Edit {
    /// The element whose text is edited.
    pub editing: Option<u64>,
    /// The caret, as a byte offset into that text.
    pub caret: usize,
    /// The other end of the selected text.
    pub sel_anchor: usize,
    /// Whether a drag is selecting text.
    pub text_selecting: bool,
    /// The text that an input method is composing.
    pub marked_range: Option<Span>,
    /// The style of the next text that is typed.
    pub pending_style: Option<RunStyle>,
}

/// What is being dragged.
#[derive(Clone, Copy, PartialEq, Eq, Debug, Structural)]
pub struct Drag {
    /// The element that is being drawn.
    pub pending: Option<Draft>,
    pub hovered_connector: Option<ConnectPoint>,
    /// The point that a line is being dragged out of.
    pub connecting: Option<ConnectPoint>,
    /// Whether a drag moves the selection.
    pub moving: bool,
    /// Whether that drag has moved it.
    pub moved: bool,
    pub resizing: Option<Resizing>,
    pub group_resizing: Option<ResizeHandle>,
    pub endpoint: Option<EndpointDrag>,
    pub rotating: bool,
    pub marquee: bool,
    pub picker: Option<PickerDrag>,
    pub toolbar: bool,
    pub panning: bool,
}

/// What is open.
#[derive(Clone, Copy, PartialEq, Eq, Debug, Structural)]
pub struct Popups {
    pub picker: Option<PickerTarget>,
    pub open_group: Option<ToolGroup>,
    pub width_open: bool,
    pub font_open: bool,
    pub templates_open: bool,
    pub context_menu: bool,
    /// The text submenu of the context menu.
    pub ctx_text_sub: bool,
    pub format_flyout: bool,
}

/// The colours of new elements.
#[derive(Clone, Copy, PartialEq, Eq, Debug, Structural)]
pub struct Ink {
    pub stroke: Option<u32>,
    pub fill: Option<u32>,
    pub text: Option<u32>,
}

/// The state of the controls.
#[derive(Clone, Copy, PartialEq, Eq, Debug, Structural)]
pub struct Ui {
    pub read_only: bool,
    pub tool: Tool,
    pub edit: Edit,
    pub drag: Drag,
    pub pop: Popups,
    pub ink: Ink,
    pub toolbar_vertical: bool,
    /// Whether there are changes that the host was not told of.
    pub dirty: bool,
}

/// A whiteboard.
#[derive(Debug)]
pub struct WhiteboardView {
    pub scene: Scene,
    pub selected: Vec<u64>,
    pub history: Vec<Scene>,
    pub redo: Vec<Scene>,
    /// The id of the next element.
    pub next_id: u64,
    pub saved_colors: Vec<u32>,
    pub templates: Vec<Template>,
    pub ui: Ui,
}

/// A [`Template`] as a value.
pub struct TemplateView {
    pub id: i64,
    pub name: Seq<char>,
    pub elements: Seq<Item>,
}

impl View for Template {
    type V = TemplateView;

    open spec fn view(&self) -> TemplateView {
        TemplateView { id: self.id, name: self.name@, elements: items(self.elements@) }
    }
}

/// Templates as values.
pub open spec fn template_views(v: Seq<Template>) -> Seq<TemplateView> {
    v.map_values(|t: Template| t@)
}

/// A [`WhiteboardView`] as a value.
pub struct BoardState {
    pub scene: SceneView,
    pub selected: Seq<u64>,
    pub history: Seq<SceneView>,
    pub redo: Seq<SceneView>,
    pub next_id: u64,
    pub saved_colors: Seq<u32>,
    pub templates: Seq<TemplateView>,
    pub ui: Ui,
}

impl View for WhiteboardView {
    type V = BoardState;

    open spec fn view(&self) -> BoardState {
        BoardState {
            scene: self.scene@,
            selected: self.selected@,
            history: scene_views(self.history@),
            redo: scene_views(self.redo@),
            next_id: self.next_id,
            saved_colors: self.saved_colors@,
            templates: template_views(self.templates@),
            ui: self.ui,
        }
    }
}

// --- What the operations do ---

/// No text is edited.
pub open spec fn no_edit() -> Edit {
    Edit {
        editing: None,
        caret: 0,
        sel_anchor: 0,
        text_selecting: false,
        marked_range: None,
        pending_style: None,
    }
}

/// Nothing is dragged.
pub open spec fn no_drag() -> Drag {
    Drag {
        pending: None,
        hovered_connector: None,
        connecting: None,
        moving: false,
        moved: false,
        resizing: None,
        group_resizing: None,
        endpoint: None,
        rotating: false,
        marquee: false,
        picker: None,
        toolbar: false,
        panning: false,
    }
}

/// Nothing is open.
pub open spec fn no_popups() -> Popups {
    Popups {
        picker: None,
        open_group: None,
        width_open: false,
        font_open: false,
        templates_open: false,
        context_menu: false,
        ctx_text_sub: false,
        format_flyout: false,
    }
}

/// The controls of a board that was just opened.
pub open spec fn closed_ui() -> Ui {
    Ui {
        read_only: false,
        tool: Tool::Pan,
        edit: no_edit(),
        drag: no_drag(),
        pop: no_popups(),
        ink: Ink { stroke: None, fill: None, text: None },
        toolbar_vertical: false,
        dirty: false,
    }
}

/// Whether `n` is the first id above those of all elements.
pub open spec fn is_fresh(v: Seq<Item>, n: int) -> bool {
    &&& forall|i: int| 0 <= i < v.len() ==> (#[trigger] v[i]).id < n
    &&& n > 0 ==> exists|i: int| 0 <= i < v.len() && (#[trigger] v[i]).id == n - 1
    &&& n >= 0
}

/// The controls once a board is read-only, or no longer.
pub open spec fn locked(u: Ui, read_only: bool) -> Ui {
    if read_only {
        Ui {
            read_only: true,
            tool: Tool::Pan,
            edit: Edit { editing: None, text_selecting: false, marked_range: None, ..u.edit },
            drag: Drag { pending: None, connecting: None, hovered_connector: None, ..u.drag },
            pop: Popups { ctx_text_sub: u.pop.ctx_text_sub, ..no_popups() },
            ..u
        }
    } else {
        Ui { read_only: false, ..u }
    }
}

/// The controls with other popups.
pub open spec fn with_pop(u: Ui, pop: Popups) -> Ui {
    Ui { pop, ..u }
}

/// A list of snapshots with one more: the oldest leaves a full list.
pub open spec fn remembered(h: Seq<SceneView>, s: SceneView) -> Seq<SceneView> {
    let t = h.push(s);
    if t.len() > UNDO_CAP {
        t.remove(0)
    } else {
        t
    }
}

/// The board with its scene remembered, ready for a change.
pub open spec fn snapshot(b: BoardState) -> BoardState {
    BoardState {
        history: remembered(b.history, b.scene),
        redo: Seq::empty(),
        ..b
    }
}

/// The board with one element more, on top of all others.
pub open spec fn with_element(b: BoardState, e: Item) -> BoardState {
    BoardState { scene: SceneView { elements: b.scene.elements.push(e), ..b.scene }, ..b }
}

/// The board after the host was told of its changes.
pub open spec fn flushed(b: BoardState) -> BoardState {
    BoardState { ui: Ui { dirty: false, ..b.ui }, ..b }
}

/// The board after a step back.
pub open spec fn undone(b: BoardState) -> BoardState {
    if b.history.len() == 0 {
        b
    } else {
        BoardState {
            scene: b.history.last(),
            history: b.history.drop_last(),
            redo: b.redo.push(b.scene),
            selected: Seq::empty(),
            ui: Ui { dirty: false, ..b.ui },
            ..b
        }
    }
}

/// The board after a step forward.
pub open spec fn redone(b: BoardState) -> BoardState {
    if b.redo.len() == 0 {
        b
    } else {
        BoardState {
            scene: b.redo.last(),
            redo: b.redo.drop_last(),
            history: b.history.push(b.scene),
            selected: Seq::empty(),
            ui: Ui { dirty: false, ..b.ui },
            ..b
        }
    }
}

/// The elements whose ids are not listed.
pub open spec fn without(v: Seq<Item>, ids: Seq<u64>) -> Seq<Item> {
    v.filter(|e: Item| !ids.contains(e.id))
}

/// The elements whose ids are listed.
pub open spec fn only(v: Seq<Item>, ids: Seq<u64>) -> Seq<Item> {
    v.filter(|e: Item| ids.contains(e.id))
}

/// The board without its selection.
pub open spec fn deleted(b: BoardState) -> BoardState {
    if b.selected.len() == 0 {
        b
    } else {
        let s = snapshot(b);
        BoardState {
            scene: SceneView { elements: without(b.scene.elements, b.selected), ..b.scene },
            selected: Seq::empty(),
            ui: Ui { edit: Edit { editing: None, ..b.ui.edit }, dirty: false, ..b.ui },
            ..s
        }
    }
}

/// The one element that is selected.
pub open spec fn lone(selected: Seq<u64>) -> Option<u64> {
    if selected.len() == 1 {
        Some(selected[0])
    } else {
        None
    }
}

/// The controls and selection once a tool was picked.
pub open spec fn with_tool(b: BoardState, tool: Tool) -> BoardState {
    if b.ui.read_only {
        BoardState {
            selected: Seq::empty(),
            ui: Ui { tool: Tool::Pan, pop: Popups { open_group: None, ..b.ui.pop }, ..b.ui },
            ..b
        }
    } else {
        BoardState {
            selected: if b.ui.tool != tool && tool != Tool::Select {
                Seq::empty()
            } else {
                b.selected
            },
            ui: Ui { tool, pop: Popups { open_group: None, ..b.ui.pop }, ..b.ui },
            ..b
        }
    }
}

/// An element with another id.
pub open spec fn renamed(e: Item, id: u64) -> Item {
    Item { id, ..e }
}

/// `v` with the ids counted from `first`.
pub open spec fn renumbered(v: Seq<Item>, first: int) -> Seq<Item> {
    Seq::new(v.len(), |i: int| renamed(v[i], (first + i) as u64))
}

/// `n` ids from `first` on.
pub open spec fn ids_from(first: int, n: nat) -> Seq<u64> {
    Seq::new(n, |i: int| (first + i) as u64)
}

/// The board with a group of elements put on it, under new ids, and selected.
pub open spec fn stamped(b: BoardState, v: Seq<Item>) -> BoardState {
    if v.len() == 0 {
        b
    } else {
        let s = snapshot(b);
        BoardState {
            scene: SceneView {
                elements: b.scene.elements + renumbered(v, b.next_id as int),
                ..b.scene
            },
            selected: ids_from(b.next_id as int, v.len()),
            next_id: (b.next_id + v.len()) as u64,
            ui: Ui {
                tool: Tool::Select,
                pop: Popups { open_group: None, ..b.ui.pop },
                dirty: false,
                ..b.ui
            },
            ..s
        }
    }
}

/// The board with the template of an index put on it.
pub open spec fn template_applied(b: BoardState, index: int) -> BoardState {
    if index >= b.templates.len() {
        b
    } else {
        stamped(
            BoardState {
                ui: with_pop(b.ui, Popups { templates_open: false, ..b.ui.pop }),
                ..b
            },
            b.templates[index].elements,
        )
    }
}

/// The colour of an element that a target edits.
pub open spec fn color_in(e: Item, target: PickerTarget) -> Option<u32> {
    match target {
        PickerTarget::Stroke => e.stroke,
        PickerTarget::Fill => e.fill,
        PickerTarget::Text => e.label_color,
    }
}

/// The colour that new elements get.
pub open spec fn active_color(u: Ui, target: PickerTarget) -> Option<u32> {
    match target {
        PickerTarget::Stroke => u.ink.stroke,
        PickerTarget::Fill => u.ink.fill,
        PickerTarget::Text => u.ink.text,
    }
}

/// The colour that a tab of the picker shows: that of the one selected element,
/// or else the one for new elements.
pub open spec fn shown_color(b: BoardState, target: PickerTarget) -> Option<u32> {
    let own = match lone(b.selected) {
        Some(id) => match item_of(b.scene.elements, id) {
            Some(e) => color_in(e, target),
            None => None,
        },
        None => None,
    };
    match own {
        Some(c) => Some(c),
        None => active_color(b.ui, target),
    }
}

/// The colour that the picker starts from.
pub open spec fn first_color(b: BoardState, target: PickerTarget) -> u32 {
    match shown_color(b, target) {
        Some(c) => c,
        None => PICKER_DEFAULT,
    }
}

/// The property that the picker edits; the stroke while it is closed.
pub open spec fn target_of(u: Ui) -> PickerTarget {
    match u.pop.picker {
        Some(t) => t,
        None => PickerTarget::Stroke,
    }
}

/// An element in another colour. Fill and label colour are for closed shapes.
pub open spec fn colored(e: Item, target: PickerTarget, color: Option<u32>) -> Item {
    match target {
        PickerTarget::Stroke => Item { stroke: color, ..e },
        PickerTarget::Fill => if is_closed(e.kind) {
            Item { fill: color, ..e }
        } else {
            e
        },
        PickerTarget::Text => if is_closed(e.kind) {
            Item { label_color: color, ..e }
        } else {
            e
        },
    }
}

/// The elements with those listed in another colour.
pub open spec fn all_colored(
    v: Seq<Item>,
    ids: Seq<u64>,
    target: PickerTarget,
    color: Option<u32>,
) -> Seq<Item> {
    Seq::new(
        v.len(),
        |i: int|
            if ids.contains(v[i].id) {
                colored(v[i], target, color)
            } else {
                v[i]
            },
    )
}

/// The board while a colour is being picked.
pub open spec fn recolored(b: BoardState, color: Option<u32>) -> BoardState {
    let target = target_of(b.ui);
    let ui = match target {
        PickerTarget::Stroke => Ui { ink: Ink { stroke: color, ..b.ui.ink }, ..b.ui },
        PickerTarget::Fill => Ui { ink: Ink { fill: color, ..b.ui.ink }, ..b.ui },
        PickerTarget::Text => Ui { ink: Ink { text: color, ..b.ui.ink }, ..b.ui },
    };
    if b.selected.len() == 0 {
        BoardState { ui, ..b }
    } else {
        BoardState {
            scene: SceneView {
                elements: all_colored(b.scene.elements, b.selected, target, color),
                ..b.scene
            },
            ui: Ui { dirty: true, ..ui },
            ..b
        }
    }
}

/// The board as a colour was picked: a step that can be undone.
pub open spec fn color_picked(b: BoardState, color: Option<u32>) -> BoardState {
    let s = if b.selected.len() == 0 {
        b
    } else {
        snapshot(b)
    };
    flushed(recolored(s, color))
}

/// The palette with one colour more, unless it is there.
pub open spec fn with_color(v: Seq<u32>, c: u32) -> Seq<u32> {
    if v.contains(c) {
        v
    } else {
        v.push(c)
    }
}

// --- The operations ---

impl WhiteboardView {
    /// A board over `scene`, with nothing selected or open.
    pub fn new(scene: Scene) -> (r: WhiteboardView)
        requires
            forall|i: int| 0 <= i < scene@.elements.len() ==> (#[trigger] scene@.elements[i]).id < u64::MAX,
        ensures
            r@.scene == scene@,
            r@.selected == Seq::<u64>::empty(),
            r@.history == Seq::<SceneView>::empty(),
            r@.redo == Seq::<SceneView>::empty(),
            is_fresh(scene@.elements, r@.next_id as int),
            r@.saved_colors == Seq::<u32>::empty(),
            r@.templates == Seq::<TemplateView>::empty(),
            r@.ui == closed_ui(),
    {
        let ghost v = scene@.elements;
        let mut next: u64 = 0;
        let mut i: usize = 0;
        while i < scene.elements.len()
            invariant
                v == items(scene.elements@),
                i <= scene.elements@.len(),
                forall|k: int| 0 <= k < v.len() ==> (#[trigger] v[k]).id < u64::MAX,
                forall|k: int| 0 <= k < i ==> (#[trigger] v[k]).id < next,
                next > 0 ==> exists|k: int| 0 <= k < i && (#[trigger] v[k]).id == next - 1,
            decreases scene.elements.len() - i,
        {
            let id: u64 = scene.elements[i].id;
            assert(v[i as int].id == id);
            if id >= next {
                next = id + 1;
            }
            i += 1;
        }
        let r = WhiteboardView {
            scene,
            selected: Vec::new(),
            history: Vec::new(),
            redo: Vec::new(),
            next_id: next,
            saved_colors: Vec::new(),
            templates: Vec::new(),
            ui: Ui {
                read_only: false,
                tool: Tool::Pan,
                edit: Edit {
                    editing: None,
                    caret: 0,
                    sel_anchor: 0,
                    text_selecting: false,
                    marked_range: None,
                    pending_style: None,
                },
                drag: Drag {
                    pending: None,
                    hovered_connector: None,
                    connecting: None,
                    moving: false,
                    moved: false,
                    resizing: None,
                    group_resizing: None,
                    endpoint: None,
                    rotating: false,
                    marquee: false,
                    picker: None,
                    toolbar: false,
                    panning: false,
                },
                pop: Popups {
                    picker: None,
                    open_group: None,
                    width_open: false,
                    font_open: false,
                    templates_open: false,
                    context_menu: false,
                    ctx_text_sub: false,
                    format_flyout: false,
                },
                ink: Ink { stroke: None, fill: None, text: None },
                toolbar_vertical: false,
                dirty: false,
            },
        };
        assert(r@.history =~= Seq::<SceneView>::empty());
        assert(r@.redo =~= Seq::<SceneView>::empty());
        assert(r@.templates =~= Seq::<TemplateView>::empty());
        r
    }

    /// A board that can only be looked at.
    pub fn new_read_only(scene: Scene) -> (r: WhiteboardView)
        requires
            forall|i: int| 0 <= i < scene@.elements.len() ==> (#[trigger] scene@.elements[i]).id < u64::MAX,
        ensures
            r@.scene == scene@,
            r@.selected == Seq::<u64>::empty(),
            r@.history == Seq::<SceneView>::empty(),
            r@.redo == Seq::<SceneView>::empty(),
            is_fresh(scene@.elements, r@.next_id as int),
            r@.saved_colors == Seq::<u32>::empty(),
            r@.templates == Seq::<TemplateView>::empty(),
            r@.ui == (Ui { read_only: true, ..closed_ui() }),
    {
        let mut r = WhiteboardView::new(scene);
        r.ui.read_only = true;
        r
    }

    /// Locks the board to looking and panning, or unlocks it.
    pub fn set_read_only(&mut self, read_only: bool)
        ensures
            final(self)@ == (BoardState {
                ui: locked(old(self)@.ui, read_only),
                selected: if read_only {
                    Seq::empty()
                } else {
                    old(self)@.selected
                },
                ..old(self)@
            }),
    {
        let u = self.ui;
        if read_only {
            self.selected.clear();
            self.ui = Ui {
                read_only: true,
                tool: Tool::Pan,
                edit: Edit { editing: None, text_selecting: false, marked_range: None, ..u.edit },
                drag: Drag { pending: None, connecting: None, hovered_connector: None, ..u.drag },
                pop: Popups {
                    picker: None,
                    open_group: None,
                    width_open: false,
                    font_open: false,
                    templates_open: false,
                    context_menu: false,
                    ctx_text_sub: u.pop.ctx_text_sub,
                    format_flyout: false,
                },
                ..u
            };
        } else {
            self.ui = Ui { read_only: false, ..u };
        }
    }

    /// Whether the board can only be looked at.
    pub fn read_only(&self) -> (r: bool)
        ensures
            r == self@.ui.read_only,
    {
        self.ui.read_only
    }

    /// The scene, for the host to keep.
    pub fn scene(&self) -> (r: &Scene)
        ensures
            r@ == self@.scene,
    {
        &self.scene
    }

    /// The active tool.
    pub fn tool(&self) -> (r: Tool)
        ensures
            r == self@.ui.tool,
    {
        self.ui.tool
    }

    /// Picks a tool and closes the flyout. A tool other than Select drops the
    /// selection; on a read-only board only Pan can be picked.
    pub fn set_tool(&mut self, tool: Tool)
        ensures
            final(self)@ == with_tool(old(self)@, tool),
    {
        self.ui.pop.open_group = None;
        if self.ui.read_only {
            self.ui.tool = Tool::Pan;
            self.selected.clear();
            return;
        }
        if self.ui.tool != tool {
            self.ui.tool = tool;
            if tool != Tool::Select {
                self.selected.clear();
            }
        }
    }

    /// The one element that is selected.
    pub fn selected_single(&self) -> (r: Option<u64>)
        ensures
            r == lone(self@.selected),
    {
        if self.selected.len() == 1 {
            Some(self.selected[0])
        } else {
            None
        }
    }

    /// Whether an element is selected.
    pub fn is_selected(&self, id: u64) -> (r: bool)
        ensures
            r == self@.selected.contains(id),
    {
        holds_id(&self.selected, id)
    }

    /// Remembers the scene before a change.
    pub fn push_undo(&mut self)
        ensures
            final(self)@ == snapshot(old(self)@),
    {
        let s = copy_scene(&self.scene);
        self.remember(s);
    }

    /// Remembers `s` as the scene before a change.
    pub(crate) fn remember(&mut self, s: Scene)
        ensures
            final(self)@ == (BoardState {
                history: remembered(old(self)@.history, s@),
                redo: Seq::empty(),
                ..old(self)@
            }),
    {
        let ghost h = self.history@;
        self.history.push(s);
        proof {
            assert(scene_views(h.push(s)) =~= scene_views(h).push(s@));
        }
        if self.history.len() > UNDO_CAP {
            let ghost t = self.history@;
            self.history.remove(0);
            proof {
                assert(scene_views(t.remove(0)) =~= scene_views(t).remove(0));
            }
        }
        self.redo.clear();
        assert(scene_views(self.redo@) =~= Seq::<SceneView>::empty());
    }

    /// Puts an element on top of all others.
    pub(crate) fn push_element(&mut self, e: Element)
        ensures
            final(self)@ == with_element(old(self)@, e@),
    {
        let ghost v = self.scene.elements@;
        self.scene.elements.push(e);
        assert(items(v.push(e)) =~= items(v).push(e@));
    }

    /// An id that no element has.
    pub(crate) fn take_id(&mut self) -> (id: u64)
        requires
            old(self)@.next_id < u64::MAX,
        ensures
            id == old(self)@.next_id,
            final(self)@ == (BoardState { next_id: (id + 1) as u64, ..old(self)@ }),
    {
        let id: u64 = self.next_id;
        self.next_id = id + 1;
        id
    }

    /// Takes note that the host is told of the changes; returns whether there
    /// were any.
    pub fn flush(&mut self) -> (save: bool)
        ensures
            save == old(self)@.ui.dirty,
            final(self)@ == flushed(old(self)@),
    {
        let save = self.ui.dirty;
        self.ui.dirty = false;
        save
    }

    /// Takes back the last change; returns whether the host has to save.
    pub fn undo(&mut self) -> (save: bool)
        ensures
            final(self)@ == undone(old(self)@),
            save == (old(self)@.history.len() > 0),
    {
        let ghost h = self.history@;
        let ghost r = self.redo@;
        match self.history.pop() {
            Some(prev) => {
                let mut cur = prev;
                std::mem::swap(&mut self.scene, &mut cur);
                proof {
                    assert(scene_views(h.drop_last()) =~= scene_views(h).drop_last());
                    assert(scene_views(r.push(cur)) =~= scene_views(r).push(cur@));
                }
                self.redo.push(cur);
                self.selected.clear();
                self.ui.dirty = true;
                self.flush()
            },
            None => false,
        }
    }

    /// Makes the last change that was taken back again; returns whether the
    /// host has to save.
    pub fn redo(&mut self) -> (save: bool)
        ensures
            final(self)@ == redone(old(self)@),
            save == (old(self)@.redo.len() > 0),
    {
        let ghost h = self.history@;
        let ghost r = self.redo@;
        match self.redo.pop() {
            Some(next) => {
                let mut cur = next;
                std::mem::swap(&mut self.scene, &mut cur);
                proof {
                    assert(scene_views(r.drop_last()) =~= scene_views(r).drop_last());
                    assert(scene_views(h.push(cur)) =~= scene_views(h).push(cur@));
                }
                self.history.push(cur);
                self.selected.clear();
                self.ui.dirty = true;
                self.flush()
            },
            None => false,
        }
    }

    /// Removes the selection; returns whether the host has to save.
    pub fn delete_selected(&mut self) -> (save: bool)
        ensures
            final(self)@ == deleted(old(self)@),
            save == (old(self)@.selected.len() > 0),
    {
        if self.selected.len() == 0 {
            return false;
        }
        self.push_undo();
        let mut gone: Vec<u64> = Vec::new();
        std::mem::swap(&mut self.selected, &mut gone);
        keep_without(&mut self.scene.elements, &gone);
        self.ui.edit.editing = None;
        self.ui.dirty = true;
        self.flush()
    }

    /// The selected elements in paint order; `None` where there are none.
    pub fn selection(&self) -> (r: Option<Vec<Element>>)
        ensures
            r is None <==> only(self@.scene.elements, self@.selected).len() == 0,
            r matches Some(v) ==> items(v@) == only(self@.scene.elements, self@.selected),
    {
        let v = copy_only(&self.scene.elements, &self.selected);
        if v.len() == 0 {
            None
        } else {
            Some(v)
        }
    }

    /// Puts a group of elements on the board, under new ids, and selects it;
    /// returns whether the host has to save.
    pub fn stamp_elements(&mut self, elems: Vec<Element>) -> (save: bool)
        requires
            old(self)@.next_id + elems@.len() <= u64::MAX,
        ensures
            final(self)@ == stamped(old(self)@, items(elems@)),
            save == (elems@.len() > 0),
    {
        if elems.len() == 0 {
            return false;
        }
        self.ui.pop.open_group = None;
        self.push_undo();
        let ghost v = items(elems@);
        let ghost first = self.next_id as int;
        let ghost base = self.scene.elements@;
        let ghost before = self@;
        let mut ids: Vec<u64> = Vec::new();
        let ghost mut n: int = 0;
        for e in it: elems
            invariant
                it.seq() == elems@,
                n == it.index(),
                0 <= n <= elems@.len(),
                v == items(elems@),
                first + elems@.len() <= u64::MAX,
                self.next_id == first + n,
                items(self.scene.elements@) == items(base) + renumbered(v, first).take(n),
                ids@ == ids_from(first, v.len()).take(n),
                self@ == (BoardState {
                    scene: SceneView { elements: items(self.scene.elements@), ..before.scene },
                    next_id: self.next_id,
                    ..before
                }),
        {
            let mut c = e;
            c.id = self.next_id;
            ids.push(self.next_id);
            let ghost now = self.scene.elements@;
            self.scene.elements.push(c);
            proof {
                assert(v[n] == elems@[n]@);
                assert(c@ == renamed(v[n], (first + n) as u64));
                assert(items(now.push(c)) =~= items(now).push(c@));
                let r = renumbered(v, first);
                assert(r.take(n + 1) =~= r.take(n).push(r[n]));
                assert(items(base) + r.take(n + 1) =~= (items(base) + r.take(n)).push(r[n]));
                let q = ids_from(first, v.len());
                assert(q.take(n + 1) =~= q.take(n).push(q[n]));
                n = n + 1;
            }
            self.next_id = self.next_id + 1;
        }
        proof {
            assert(renumbered(v, first).take(v.len() as int) =~= renumbered(v, first));
            assert(ids_from(first, v.len()).take(v.len() as int) =~= ids_from(first, v.len()));
        }
        self.selected = ids;
        self.ui.tool = Tool::Select;
        self.ui.dirty = true;
        self.flush()
    }

    /// Puts the template of an index on the board and closes the gallery;
    /// returns whether the host has to save.
    pub fn apply_template(&mut self, index: usize) -> (save: bool)
        requires
            index < old(self)@.templates.len() ==> old(self)@.next_id
                + old(self)@.templates[index as int].elements.len() <= u64::MAX,
        ensures
            final(self)@ == template_applied(old(self)@, index as int),
            save == (index < old(self)@.templates.len() && old(self)@.templates[index as int].elements.len()
                > 0),
    {
        if index >= self.templates.len() {
            return false;
        }
        assert(self@.templates[index as int] == self.templates@[index as int]@);
        let elems = copy_elements(&self.templates[index].elements);
        assert(items(elems@).len() == elems@.len());
        self.ui.pop.templates_open = false;
        self.stamp_elements(elems)
    }

    /// Replaces the templates of the gallery.
    pub fn set_templates(&mut self, templates: Vec<Template>)
        ensures
            final(self)@ == (BoardState { templates: template_views(templates@), ..old(self)@ }),
    {
        self.templates = templates;
    }

    /// The colour that a tab of the picker shows.
    pub fn tab_color(&self, target: PickerTarget) -> (r: Option<u32>)
        ensures
            r == shown_color(self@, target),
    {
        let own: Option<u32> = match self.selected_single() {
            Some(id) => match find_element(&self.scene.elements, id) {
                Some(i) => {
                    let e = &self.scene.elements[i];
                    match target {
                        PickerTarget::Stroke => e.stroke,
                        PickerTarget::Fill => e.fill,
                        PickerTarget::Text => e.label_color,
                    }
                },
                None => None,
            },
            None => None,
        };
        match own {
            Some(c) => Some(c),
            None => match target {
                PickerTarget::Stroke => self.ui.ink.stroke,
                PickerTarget::Fill => self.ui.ink.fill,
                PickerTarget::Text => self.ui.ink.text,
            },
        }
    }

    /// The colour that the picker starts from.
    pub fn seed_color(&self, target: PickerTarget) -> (r: u32)
        ensures
            r == first_color(self@, target),
    {
        match self.tab_color(target) {
            Some(c) => c,
            None => PICKER_DEFAULT,
        }
    }

    /// Opens or closes the colour picker, closing what else is open. Returns
    /// the colour that an opened picker starts from.
    pub fn toggle_picker(&mut self) -> (r: Option<u32>)
        ensures
            final(self)@ == (BoardState {
                ui: with_pop(old(self)@.ui, picker_toggled(old(self)@.ui.pop)),
                ..old(self)@
            }),
            r == if old(self)@.ui.pop.picker is Some {
                None
            } else {
                Some(first_color(old(self)@, PickerTarget::Stroke))
            },
    {
        let c = self.seed_color(PickerTarget::Stroke);
        self.ui.pop.open_group = None;
        self.ui.pop.templates_open = false;
        self.ui.pop.width_open = false;
        self.ui.pop.font_open = false;
        match self.ui.pop.picker {
            Some(_) => {
                self.ui.pop.picker = None;
                None
            },
            None => {
                self.ui.pop.picker = Some(PickerTarget::Stroke);
                Some(c)
            },
        }
    }

    /// Opens or closes the thickness flyout, closing what else is open.
    pub fn toggle_width(&mut self)
        ensures
            final(self)@ == (BoardState {
                ui: with_pop(old(self)@.ui, width_toggled(old(self)@.ui.pop)),
                ..old(self)@
            }),
    {
        self.ui.pop.picker = None;
        self.ui.pop.open_group = None;
        self.ui.pop.templates_open = false;
        self.ui.pop.context_menu = false;
        self.ui.pop.font_open = false;
        self.ui.pop.width_open = !self.ui.pop.width_open;
    }

    /// Opens or closes a group's flyout, closing what else is open.
    pub fn toggle_group(&mut self, group: ToolGroup)
        ensures
            final(self)@ == (BoardState {
                ui: with_pop(old(self)@.ui, group_toggled(old(self)@.ui.pop, group)),
                ..old(self)@
            }),
    {
        self.ui.pop.picker = None;
        self.ui.pop.templates_open = false;
        self.ui.pop.width_open = false;
        self.ui.pop.font_open = false;
        self.ui.pop.open_group = if self.ui.pop.open_group == Some(group) {
            None
        } else {
            Some(group)
        };
    }

    /// Opens or closes the template gallery, closing what else is open.
    pub fn toggle_templates(&mut self)
        ensures
            final(self)@ == (BoardState {
                ui: with_pop(old(self)@.ui, templates_toggled(old(self)@.ui.pop)),
                ..old(self)@
            }),
    {
        self.ui.pop.picker = None;
        self.ui.pop.open_group = None;
        self.ui.pop.width_open = false;
        self.ui.pop.context_menu = false;
        self.ui.pop.font_open = false;
        self.ui.pop.templates_open = !self.ui.pop.templates_open;
    }

    /// Opens or closes the font flyout, closing what else is open.
    pub fn toggle_font(&mut self)
        ensures
            final(self)@ == (BoardState {
                ui: with_pop(old(self)@.ui, font_toggled(old(self)@.ui.pop)),
                ..old(self)@
            }),
    {
        self.ui.pop.picker = None;
        self.ui.pop.open_group = None;
        self.ui.pop.width_open = false;
        self.ui.pop.templates_open = false;
        self.ui.pop.context_menu = false;
        self.ui.pop.font_open = !self.ui.pop.font_open;
    }

    /// Turns the picker to another property. Returns the colour to start from
    /// where it was not there already.
    pub fn set_picker_target(&mut self, target: PickerTarget) -> (r: Option<u32>)
        ensures
            final(self)@ == (BoardState {
                ui: with_pop(
                    old(self)@.ui,
                    Popups { picker: Some(target), ..old(self)@.ui.pop },
                ),
                ..old(self)@
            }),
            r == if old(self)@.ui.pop.picker == Some(target) {
                None
            } else {
                Some(first_color(old(self)@, target))
            },
    {
        if self.ui.pop.picker == Some(target) {
            return None;
        }
        let c = self.seed_color(target);
        self.ui.pop.picker = Some(target);
        Some(c)
    }

    /// Gives a colour to new elements and to the selection, while it is picked.
    pub fn set_color_live(&mut self, color: Option<u32>)
        ensures
            final(self)@ == recolored(old(self)@, color),
    {
        let target = match self.ui.pop.picker {
            Some(t) => t,
            None => PickerTarget::Stroke,
        };
        match target {
            PickerTarget::Stroke => {
                self.ui.ink.stroke = color;
            },
            PickerTarget::Fill => {
                self.ui.ink.fill = color;
            },
            PickerTarget::Text => {
                self.ui.ink.text = color;
            },
        }
        if self.selected.len() > 0 {
            color_elements(&mut self.scene.elements, &self.selected, target, color);
            self.ui.dirty = true;
        }
    }

    /// Picks a colour, as a step that can be undone; returns whether the host
    /// has to save.
    pub fn pick_color(&mut self, color: Option<u32>) -> (save: bool)
        ensures
            final(self)@ == color_picked(old(self)@, color),
            save == (old(self)@.selected.len() > 0 || old(self)@.ui.dirty),
    {
        if self.selected.len() > 0 {
            self.push_undo();
        }
        self.set_color_live(color);
        self.flush()
    }

    /// Replaces the palette.
    pub fn set_saved_colors(&mut self, colors: Vec<u32>)
        ensures
            final(self)@ == (BoardState { saved_colors: colors@, ..old(self)@ }),
    {
        self.saved_colors = colors;
    }

    /// Adds the picker's colour to the palette; returns whether the host has to
    /// keep the palette.
    pub fn save_current_color(&mut self, color: u32) -> (save: bool)
        ensures
            final(self)@ == (BoardState {
                saved_colors: if old(self)@.ui.pop.picker is Some {
                    with_color(old(self)@.saved_colors, color)
                } else {
                    old(self)@.saved_colors
                },
                ..old(self)@
            }),
            save == (old(self)@.ui.pop.picker is Some && !old(self)@.saved_colors.contains(color)),
    {
        match self.ui.pop.picker {
            Some(_) => {
                let mut i: usize = 0;
                while i < self.saved_colors.len()
                    invariant
                        i <= self.saved_colors@.len(),
                        *self == *old(self),
                        self.ui.pop.picker is Some,
                        forall|k: int| 0 <= k < i ==> self.saved_colors@[k] != color,
                    decreases self.saved_colors.len() - i,
                {
                    if self.saved_colors[i] == color {
                        return false;
                    }
                    i += 1;
                }
                self.saved_colors.push(color);
                true
            },
            None => false,
        }
    }

    /// Removes a colour from the palette.
    pub fn remove_saved_color(&mut self, color: u32)
        ensures
            final(self)@ == (BoardState {
                saved_colors: old(self)@.saved_colors.filter(|c: u32| c != color),
                ..old(self)@
            }),
    {
        let ghost v = self.saved_colors@;
        let mut kept: Vec<u32> = Vec::new();
        let mut i: usize = 0;
        while i < self.saved_colors.len()
            invariant
                i <= self.saved_colors@.len(),
                v == self.saved_colors@,
                *self == *old(self),
                kept@ == v.take(i as int).filter(|c: u32| c != color),
            decreases self.saved_colors.len() - i,
        {
            let c: u32 = self.saved_colors[i];
            proof {
                assert(v.take(i + 1).drop_last() =~= v.take(i as int));
                reveal_with_fuel(Seq::filter, 2);
            }
            if c != color {
                kept.push(c);
            }
            i += 1;
        }
        assert(v.take(v.len() as int) =~= v);
        self.saved_colors = kept;
    }

    /// The selected elements that a thickness applies to while it is picked.
    pub fn set_width_live(&mut self) -> (r: Vec<u64>)
        ensures
            r@ == old(self)@.selected,
            final(self)@ == (BoardState {
                ui: Ui {
                    dirty: old(self)@.ui.dirty || old(self)@.selected.len() > 0,
                    ..old(self)@.ui
                },
                ..old(self)@
            }),
    {
        if self.selected.len() > 0 {
            self.ui.dirty = true;
        }
        crate::scene::copy_ids(&self.selected)
    }

    /// Picks a thickness, as a step that can be undone, and closes the flyout.
    /// Returns the elements that it applies to and whether the host has to save.
    pub fn set_width(&mut self) -> (r: (Vec<u64>, bool))
        ensures
            r.0@ == old(self)@.selected,
            r.1 == (old(self)@.ui.dirty || old(self)@.selected.len() > 0),
            ({
                let b = if old(self)@.selected.len() == 0 {
                    old(self)@
                } else {
                    snapshot(old(self)@)
                };
                final(self)@ == (BoardState {
                    ui: Ui {
                        pop: Popups { width_open: false, ..old(self)@.ui.pop },
                        dirty: false,
                        ..old(self)@.ui
                    },
                    ..b
                })
            }),
    {
        self.ui.pop.width_open = false;
        if self.selected.len() > 0 {
            self.push_undo();
        }
        let ids = self.set_width_live();
        let save = self.flush();
        (ids, save)
    }
}

/// Keeps the elements whose ids are not listed.
fn keep_without(v: &mut Vec<Element>, ids: &Vec<u64>)
    ensures
        items(final(v)@) == without(items(old(v)@), ids@),
{
    let ghost all = items(v@);
    let ghost p = |e: Item| !ids@.contains(e.id);
    let mut rest: Vec<Element> = Vec::new();
    std::mem::swap(v, &mut rest);
    let ghost src = rest@;
    let ghost mut n: int = 0;
    for e in it: rest
        invariant
            it.seq() == src,
            n == it.index(),
            0 <= n <= src.len(),
            all == items(src),
            p == (|e: Item| !ids@.contains(e.id)),
            items(v@) == all.take(n).filter(p),
    {
        let ghost now = v@;
        let ghost x = e@;
        proof {
            assert(all[n] == x);
            assert(all.take(n + 1).drop_last() =~= all.take(n));
            reveal_with_fuel(Seq::filter, 2);
            assert(items(now.push(e)) =~= items(now).push(e@));
        }
        if !holds_id(ids, e.id) {
            v.push(e);
        }
        proof {
            n = n + 1;
        }
    }
    assert(all.take(all.len() as int) =~= all);
}

/// Copies of the elements whose ids are listed.
fn copy_only(v: &Vec<Element>, ids: &Vec<u64>) -> (r: Vec<Element>)
    ensures
        items(r@) == only(items(v@), ids@),
{
    let ghost all = items(v@);
    let ghost p = |e: Item| ids@.contains(e.id);
    let mut r: Vec<Element> = Vec::new();
    let mut i: usize = 0;
    while i < v.len()
        invariant
            i <= v@.len(),
            all == items(v@),
            p == (|e: Item| ids@.contains(e.id)),
            items(r@) == all.take(i as int).filter(p),
        decreases v.len() - i,
    {
        proof {
            assert(all[i as int] == v@[i as int]@);
            assert(all.take(i + 1).drop_last() =~= all.take(i as int));
            reveal_with_fuel(Seq::filter, 2);
        }
        if holds_id(ids, v[i].id) {
            let e = crate::scene::copy_element(&v[i]);
            let ghost now = r@;
            r.push(e);
            proof {
                assert(items(now.push(e)) =~= items(now).push(e@));
            }
        }
        i += 1;
    }
    assert(all.take(all.len() as int) =~= all);
    r
}

/// Gives the elements whose ids are listed another colour.
fn color_elements(v: &mut Vec<Element>, ids: &Vec<u64>, target: PickerTarget, color: Option<u32>)
    ensures
        items(final(v)@) == all_colored(items(old(v)@), ids@, target, color),
{
    let ghost all = items(v@);
    let mut i: usize = 0;
    while i < v.len()
        invariant
            i <= v@.len(),
            v@.len() == all.len(),
            forall|k: int| #![trigger items(v@)[k]]
                0 <= k < all.len() ==> items(v@)[k] == if k < i {
                    all_colored(all, ids@, target, color)[k]
                } else {
                    all[k]
                },
        decreases v.len() - i,
    {
        let ghost before = v@;
        assert(items(v@)[i as int] == v@[i as int]@);
        if holds_id(ids, v[i].id) {
            match target {
                PickerTarget::Stroke => {
                    v[i].stroke = color;
                },
                PickerTarget::Fill => {
                    if is_closed_shape(&v[i].kind) {
                        v[i].fill = color;
                    }
                },
                PickerTarget::Text => {
                    if is_closed_shape(&v[i].kind) {
                        v[i].label_color = color;
                    }
                },
            }
        }
        proof {
            assert forall|k: int| #![trigger items(v@)[k]]
                0 <= k < all.len() implies items(v@)[k] == if k < i + 1 {
                all_colored(all, ids@, target, color)[k]
            } else {
                all[k]
            } by {
                assert(items(before)[k] == before[k]@);
                assert(items(v@)[k] == v@[k]@);
            }
        }
        i += 1;
    }
    assert(items(v@) =~= all_colored(all, ids@, target, color));
}

// --- What holds of them ---

/// A step back and a step forward lead to the same scene and history.
pub proof fn law_redo_undoes_undo(b: BoardState)
    requires
        b.history.len() > 0,
    ensures
        redone(undone(b)).scene == b.scene,
        redone(undone(b)).history == b.history,
        redone(undone(b)).redo == b.redo,
{
    assert(b.redo.push(b.scene).drop_last() =~= b.redo);
    assert(b.history.drop_last().push(b.history.last()) =~= b.history);
}

/// A step forward and a step back lead to the same scene and history.
pub proof fn law_undo_undoes_redo(b: BoardState)
    requires
        b.redo.len() > 0,
    ensures
        undone(redone(b)).scene == b.scene,
        undone(redone(b)).history == b.history,
        undone(redone(b)).redo == b.redo,
{
    assert(b.history.push(b.scene).drop_last() =~= b.history);
    assert(b.redo.drop_last().push(b.redo.last()) =~= b.redo);
}

/// Whatever a change made of the scene, a step back restores it.
pub proof fn law_undo_restores(b: BoardState, changed: BoardState)
    requires
        changed.history == snapshot(b).history,
    ensures
        undone(changed).scene == b.scene,
{
    let t = b.history.push(b.scene);
    if t.len() > UNDO_CAP {
        assert(t.remove(0).last() == t.last());
    }
}

/// Removing a selection leaves none of it, and everything else as it was.
pub proof fn law_delete_removes_the_selection(b: BoardState, e: Item)
    requires
        b.selected.len() > 0,
    ensures
        deleted(b).scene.elements.contains(e) <==> b.scene.elements.contains(e)
            && !b.selected.contains(e.id),
        undone(deleted(b)).scene == b.scene,
{
    let p = |x: Item| !b.selected.contains(x.id);
    let v = b.scene.elements;
    let w = v.filter(p);
    assert(w == without(v, b.selected));
    if w.contains(e) {
        let i = w.index_of(e);
        v.lemma_filter_pred(p, i);
        assert(p(w[i]));
        v.lemma_filter_contains_rev(p, e);
    }
    if v.contains(e) && p(e) {
        v.lemma_filter_contains(p, v.index_of(e));
    }
    law_undo_restores(b, deleted(b));
}

/// Whether no more steps are remembered than there is room for.
pub open spec fn is_bounded(b: BoardState) -> bool {
    b.history.len() + b.redo.len() <= UNDO_CAP
}

/// The steps that are remembered stay within bounds.
pub proof fn law_history_is_bounded(b: BoardState, v: Seq<Item>, color: Option<u32>)
    requires
        is_bounded(b),
    ensures
        is_bounded(snapshot(b)),
        is_bounded(undone(b)),
        is_bounded(redone(b)),
        is_bounded(deleted(b)),
        is_bounded(stamped(b, v)),
        is_bounded(color_picked(b, color)),
{
}

/// The elements that are put on a board get ids of their own.
pub proof fn law_stamped_ids_are_new(b: BoardState, v: Seq<Item>, i: int, j: int)
    requires
        forall|k: int| 0 <= k < b.scene.elements.len() ==> (#[trigger] b.scene.elements[k]).id < b.next_id,
        b.next_id + v.len() <= u64::MAX,
        0 <= i < stamped(b, v).scene.elements.len(),
        b.scene.elements.len() <= j < stamped(b, v).scene.elements.len(),
        i != j,
    ensures
        stamped(b, v).scene.elements[i].id != stamped(b, v).scene.elements[j].id,
        stamped(b, v).scene.elements[j].id < stamped(b, v).next_id,
        stamped(b, v).selected.contains(stamped(b, v).scene.elements[j].id),
{
    let s = stamped(b, v);
    let n = b.scene.elements.len() as int;
    if v.len() > 0 {
        assert(s.scene.elements[j].id == (b.next_id + (j - n)) as u64);
        if i < n {
            assert(s.scene.elements[i] == b.scene.elements[i]);
        } else {
            assert(s.scene.elements[i].id == (b.next_id + (i - n)) as u64);
        }
        assert(s.selected[j - n] == s.scene.elements[j].id);
    }
}

proof fn lemma_filter_none<T>(a: Seq<T>, keep: spec_fn(T) -> bool)
    requires
        forall|k: int| 0 <= k < a.len() ==> !keep(#[trigger] a[k]),
    ensures
        a.filter(keep).len() == 0,
    decreases a.len(),
{
    reveal(Seq::filter);
    if a.len() > 0 {
        lemma_filter_none(a.drop_last(), keep);
    }
}

proof fn lemma_filter_all<T>(c: Seq<T>, keep: spec_fn(T) -> bool)
    requires
        forall|k: int| 0 <= k < c.len() ==> keep(#[trigger] c[k]),
    ensures
        c.filter(keep) == c,
    decreases c.len(),
{
    reveal(Seq::filter);
    if c.len() > 0 {
        lemma_filter_all(c.drop_last(), keep);
        assert(c.drop_last().push(c.last()) =~= c);
    }
}

/// What was copied is what gets pasted: a group put on a board is selected
/// whole and alone, in its order and alike in all but the ids, and nothing that
/// was there changes.
pub proof fn law_pasted_group_is_selected(b: BoardState, v: Seq<Item>)
    requires
        forall|k: int| 0 <= k < b.scene.elements.len() ==> (#[trigger] b.scene.elements[k]).id < b.next_id,
        b.next_id + v.len() <= u64::MAX,
        v.len() > 0,
    ensures
        ({
            let t = stamped(b, v);
            &&& only(t.scene.elements, t.selected) == renumbered(v, b.next_id as int)
            &&& t.scene.elements.take(b.scene.elements.len() as int) == b.scene.elements
        }),
{
    let t = stamped(b, v);
    let a = b.scene.elements;
    let c = renumbered(v, b.next_id as int);
    assert forall|k: int| 0 <= k < a.len() implies !t.selected.contains((#[trigger] a[k]).id) by {
        assert forall|m: int| 0 <= m < t.selected.len() implies t.selected[m] != a[k].id by {
            assert(t.selected[m] == (b.next_id + m) as u64);
        }
    }
    assert forall|k: int| 0 <= k < c.len() implies t.selected.contains((#[trigger] c[k]).id) by {
        assert(t.selected[k] == c[k].id);
    }
    let keep = |e: Item| t.selected.contains(e.id);
    lemma_filter_none(a, keep);
    lemma_filter_all(c, keep);
    Seq::filter_distributes_over_add(a, c, keep);
    assert(a.filter(keep) + c =~= c);
    assert(t.scene.elements.take(a.len() as int) =~= a);
}

/// How many of the popovers are open.
pub open spec fn open_count(p: Popups) -> int {
    (if p.picker is Some { 1int } else { 0 }) + (if p.open_group is Some { 1int } else { 0 }) + (
    if p.width_open { 1int } else { 0 }) + (if p.font_open { 1int } else { 0 }) + (
    if p.templates_open { 1int } else { 0 })
}

/// The popovers after the picker's button.
pub open spec fn picker_toggled(p: Popups) -> Popups {
    Popups {
        open_group: None,
        templates_open: false,
        width_open: false,
        font_open: false,
        picker: if p.picker is Some {
            None
        } else {
            Some(PickerTarget::Stroke)
        },
        ..p
    }
}

/// The popovers after the thickness button.
pub open spec fn width_toggled(p: Popups) -> Popups {
    Popups {
        picker: None,
        open_group: None,
        templates_open: false,
        context_menu: false,
        font_open: false,
        width_open: !p.width_open,
        ..p
    }
}

/// The popovers after a group's button.
pub open spec fn group_toggled(p: Popups, group: ToolGroup) -> Popups {
    Popups {
        picker: None,
        templates_open: false,
        width_open: false,
        font_open: false,
        open_group: if p.open_group == Some(group) {
            None
        } else {
            Some(group)
        },
        ..p
    }
}

/// The popovers after the gallery's button.
pub open spec fn templates_toggled(p: Popups) -> Popups {
    Popups {
        picker: None,
        open_group: None,
        width_open: false,
        context_menu: false,
        font_open: false,
        templates_open: !p.templates_open,
        ..p
    }
}

/// The popovers after the font button.
pub open spec fn font_toggled(p: Popups) -> Popups {
    Popups {
        picker: None,
        open_group: None,
        width_open: false,
        templates_open: false,
        context_menu: false,
        font_open: !p.font_open,
        ..p
    }
}

/// After any of their buttons at most one popover is open.
pub proof fn law_one_popover_at_a_time(p: Popups, group: ToolGroup)
    ensures
        open_count(picker_toggled(p)) <= 1,
        open_count(width_toggled(p)) <= 1,
        open_count(group_toggled(p, group)) <= 1,
        open_count(templates_toggled(p)) <= 1,
        open_count(font_toggled(p)) <= 1,
{
}

} // verus!
