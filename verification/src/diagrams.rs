//! What a board is given ready-made: page cards, images, mind maps and
//! flowcharts, and the nodes that a mind map grows.
use crate::board::{snapshot, with_element, WhiteboardView, BoardState, Ui};
use crate::editing::edit_begun;
use crate::mindmap::{fresh_arrow, fresh_node, grown};
use crate::mindmap::{meta_of, slot_for, MINDMAP_STROKE};
use crate::mindmap::{bump, root_at, sync_map, NODE_FILL, NODE_TEXT};
use crate::scene::{items, Element, ElementKind, Item, MindMapConnectorStyle};
use crate::scene::{MindMapNodeMeta, MindMapRootDirection, MindMapSide, SceneView, Segment};
use crate::scene::{SegmentAnchor, SegmentStyle};
use crate::styles::StyleSpan;
use crate::tools::Tool;
use vstd::prelude::*;

verus! {

/// The inside of the root of a mind map.
pub const ROOT_FILL: u32 = 0xdbeafeff;

/// The outline of flowcharts.
pub const FLOWCHART_STROKE: u32 = 0x0f172aff;

/// A length that diagrams are laid out by. On the screen they are so many
/// pixels; on the board that is divided by the zoom.
#[derive(Clone, Copy, PartialEq, Eq, Debug, Structural)]
pub enum Measure {
    RootWidth,
    RootHeight,
    NodeWidth,
    NodeHeight,
    GapX,
    GapY,
}

/// So many halves of a length, to the right or down, or the other way.
#[derive(Clone, Copy, PartialEq, Eq, Debug, Structural)]
pub struct Term {
    pub plus: bool,
    pub halves: u8,
    pub of: Measure,
}

/// A diagram that a board can be given.
#[derive(Clone, Copy, PartialEq, Eq, Debug, Structural)]
pub enum Diagram {
    MindMap,
    Flowchart,
}

/// Where a node of a diagram lies: its corner, from the middle of the diagram,
/// and its size.
#[derive(Debug)]
pub struct NodeBox {
    pub x: Vec<Term>,
    pub y: Vec<Term>,
    pub w: Measure,
    pub h: Measure,
}

/// A [`NodeBox`] as a value.
pub struct NodeBoxView {
    pub x: Seq<Term>,
    pub y: Seq<Term>,
    pub w: Measure,
    pub h: Measure,
}

impl View for NodeBox {
    type V = NodeBoxView;

    open spec fn view(&self) -> NodeBoxView {
        NodeBoxView { x: self.x@, y: self.y@, w: self.w, h: self.h }
    }
}

/// Boxes as values.
pub open spec fn box_views(v: Seq<NodeBox>) -> Seq<NodeBoxView> {
    v.map_values(|b: NodeBox| b@)
}

/// The pixels of a length.
pub open spec fn pixels(d: Diagram, m: Measure) -> int {
    match (d, m) {
        (Diagram::MindMap, Measure::RootWidth) => 196,
        (Diagram::MindMap, Measure::RootHeight) => 60,
        (Diagram::MindMap, Measure::NodeWidth) => 164,
        (Diagram::MindMap, Measure::NodeHeight) => 48,
        (Diagram::MindMap, Measure::GapX) => 120,
        (Diagram::MindMap, Measure::GapY) => 84,
        (Diagram::Flowchart, Measure::GapX) => 240,
        (Diagram::Flowchart, Measure::GapY) => 92,
        (Diagram::Flowchart, Measure::RootWidth | Measure::NodeWidth) => 180,
        (Diagram::Flowchart, Measure::RootHeight | Measure::NodeHeight) => 52,
    }
}

/// The pixels of a length.
pub fn measure(d: Diagram, m: Measure) -> (r: u32)
    ensures
        r == pixels(d, m),
{
    match d {
        Diagram::MindMap => match m {
            Measure::RootWidth => 196,
            Measure::RootHeight => 60,
            Measure::NodeWidth => 164,
            Measure::NodeHeight => 48,
            Measure::GapX => 120,
            Measure::GapY => 84,
        },
        Diagram::Flowchart => match m {
            Measure::GapX => 240,
            Measure::GapY => 92,
            Measure::RootWidth | Measure::NodeWidth => 180,
            Measure::RootHeight | Measure::NodeHeight => 52,
        },
    }
}

/// So many halves of a length added.
pub open spec fn plus(halves: u8, of: Measure) -> Term {
    Term { plus: true, halves, of }
}

/// So many halves of a length taken away.
pub open spec fn minus(halves: u8, of: Measure) -> Term {
    Term { plus: false, halves, of }
}

/// Where the nodes of a mind map lie: the root in the middle, two branches on
/// either side.
pub open spec fn mindmap_boxes() -> Seq<NodeBoxView> {
    let right = seq![plus(1, Measure::RootWidth), plus(2, Measure::GapX)];
    let left = seq![
        minus(1, Measure::RootWidth),
        minus(2, Measure::GapX),
        minus(2, Measure::NodeWidth),
    ];
    let up = seq![minus(2, Measure::GapY), minus(1, Measure::NodeHeight)];
    let down = seq![plus(2, Measure::GapY), minus(1, Measure::NodeHeight)];
    let (w, h) = (Measure::NodeWidth, Measure::NodeHeight);
    seq![
        NodeBoxView {
            x: seq![minus(1, Measure::RootWidth)],
            y: seq![minus(1, Measure::RootHeight)],
            w: Measure::RootWidth,
            h: Measure::RootHeight,
        },
        NodeBoxView { x: right, y: up, w, h },
        NodeBoxView { x: right, y: down, w, h },
        NodeBoxView { x: left, y: up, w, h },
        NodeBoxView { x: left, y: down, w, h },
    ]
}

/// Where the nodes of a flowchart lie: a column, with a branch on either side of
/// the decision.
pub open spec fn flowchart_boxes() -> Seq<NodeBoxView> {
    let mid = seq![minus(1, Measure::NodeWidth)];
    let decision = seq![plus(2, Measure::GapY), minus(1, Measure::NodeHeight)];
    let (w, h) = (Measure::NodeWidth, Measure::NodeHeight);
    seq![
        NodeBoxView {
            x: mid,
            y: seq![minus(2, Measure::GapY), minus(3, Measure::NodeHeight)],
            w,
            h,
        },
        NodeBoxView { x: mid, y: seq![minus(1, Measure::NodeHeight)], w, h },
        NodeBoxView { x: mid, y: decision, w, h },
        NodeBoxView {
            x: seq![plus(2, Measure::GapX), minus(1, Measure::NodeWidth)],
            y: decision,
            w,
            h,
        },
        NodeBoxView {
            x: seq![minus(2, Measure::GapX), minus(1, Measure::NodeWidth)],
            y: decision,
            w,
            h,
        },
        NodeBoxView {
            x: mid,
            y: seq![plus(4, Measure::GapY), plus(1, Measure::NodeHeight)],
            w,
            h,
        },
    ]
}

/// Where the nodes of a diagram lie.
pub open spec fn diagram_boxes(d: Diagram) -> Seq<NodeBoxView> {
    match d {
        Diagram::MindMap => mindmap_boxes(),
        Diagram::Flowchart => flowchart_boxes(),
    }
}

/// A node of a flowchart.
pub open spec fn flow_node(id: u64, place: u64, kind: ElementKind<Seq<char>>, label: Seq<char>) -> Item {
    Item {
        id,
        kind,
        place,
        stroke: Some(FLOWCHART_STROKE),
        fill: Some(NODE_FILL),
        label: Some(label),
        label_color: Some(NODE_TEXT),
        styles: Seq::empty(),
        mindmap: None,
    }
}

/// The side of the `i`th element of a diagram that was put on a board.
pub open spec fn at_side(first: int, i: int, connector: usize) -> SegmentAnchor {
    SegmentAnchor { element_id: (first + i) as u64, connector }
}

/// A mind map: a root, four branches and the links to them.
pub open spec fn mindmap_seed(n: int, p: int) -> Seq<Item> {
    let root = Some(n as u64);
    let (r, l) = (MindMapSide::Right, MindMapSide::Left);
    let link = |i: int, from: usize, to: int, side: usize|
        fresh_arrow(
            (n + i) as u64,
            (p + i) as u64,
            MINDMAP_STROKE,
            at_side(n, 0, from),
            at_side(n, to, side),
        );
    seq![
        fresh_node(n as u64, p as u64, ROOT_FILL, "Central topic"@, None, r, 0),
        fresh_node((n + 1) as u64, (p + 1) as u64, NODE_FILL, "Branch 1"@, root, r, 0),
        fresh_node((n + 2) as u64, (p + 2) as u64, NODE_FILL, "Branch 2"@, root, r, 1),
        fresh_node((n + 3) as u64, (p + 3) as u64, NODE_FILL, "Branch 3"@, root, l, 0),
        fresh_node((n + 4) as u64, (p + 4) as u64, NODE_FILL, "Branch 4"@, root, l, 1),
        link(5, 1, 1, 3),
        link(6, 1, 2, 3),
        link(7, 3, 3, 1),
        link(8, 3, 4, 1),
    ]
}

/// A flowchart: start, process, decision, its two answers and the end.
pub open spec fn flowchart_seed(n: int, p: int) -> Seq<Item> {
    let node = |i: int, kind: ElementKind<Seq<char>>, label: Seq<char>|
        flow_node((n + i) as u64, (p + i) as u64, kind, label);
    let link = |i: int, from: int, out: usize, to: int, side: usize|
        fresh_arrow(
            (n + i) as u64,
            (p + i) as u64,
            FLOWCHART_STROKE,
            at_side(n, from, out),
            at_side(n, to, side),
        );
    seq![
        node(0, ElementKind::Ellipse, "Start"@),
        node(1, ElementKind::RoundRect, "Process"@),
        node(2, ElementKind::Diamond, "Decision"@),
        node(3, ElementKind::RoundRect, "Yes"@),
        node(4, ElementKind::RoundRect, "No"@),
        node(5, ElementKind::Ellipse, "End"@),
        link(6, 0, 2, 1, 0),
        link(7, 1, 2, 2, 0),
        link(8, 2, 1, 3, 3),
        link(9, 2, 3, 4, 1),
        link(10, 3, 2, 5, 1),
        link(11, 4, 2, 5, 3),
    ]
}

/// What a diagram consists of, with ids from `n` and places from `p` on.
pub open spec fn diagram_items(d: Diagram, n: int, p: int) -> Seq<Item> {
    match d {
        Diagram::MindMap => mindmap_seed(n, p),
        Diagram::Flowchart => flowchart_seed(n, p),
    }
}

/// How many elements a diagram has.
pub open spec fn diagram_len(d: Diagram) -> int {
    match d {
        Diagram::MindMap => 9,
        Diagram::Flowchart => 12,
    }
}

/// Which of its elements is selected.
pub open spec fn diagram_face(d: Diagram) -> int {
    match d {
        Diagram::MindMap => 0,
        Diagram::Flowchart => 1,
    }
}

/// The board with a diagram on it.
pub open spec fn diagram_added(b: BoardState, d: Diagram, place: int) -> BoardState {
    let n = b.next_id as int;
    BoardState {
        scene: SceneView {
            elements: b.scene.elements + diagram_items(d, n, place),
            ..b.scene
        },
        selected: seq![(n + diagram_face(d)) as u64],
        next_id: (n + diagram_len(d)) as u64,
        ui: Ui { tool: Tool::Select, ..b.ui },
        ..snapshot(b)
    }
}

/// An element without colours or text of its own.
pub open spec fn bare(id: u64, place: u64, kind: ElementKind<Seq<char>>) -> Item {
    Item {
        id,
        kind,
        place,
        stroke: None,
        fill: None,
        label: None,
        label_color: None,
        styles: Seq::empty(),
        mindmap: None,
    }
}

/// The board with a card or an image on it, selected.
pub open spec fn thing_added(b: BoardState, place: u64, kind: ElementKind<Seq<char>>) -> BoardState {
    BoardState {
        selected: seq![b.next_id],
        next_id: (b.next_id + 1) as u64,
        ui: Ui { tool: Tool::Select, ..b.ui },
        ..with_element(snapshot(b), bare(b.next_id, place, kind))
    }
}

/// The board with a node added to a mind map, and its text being edited.
pub open spec fn node_added(
    b: BoardState,
    source: u64,
    sibling: bool,
    node_place: u64,
    line_place: u64,
) -> BoardState {
    match slot_for(b.scene.elements, source, sibling) {
        None => b,
        Some((parent, side, order)) => {
            let u = edit_begun(b.ui, b.next_id, 0);
            BoardState {
                scene: SceneView {
                    elements: grown(
                        b.scene.elements,
                        parent,
                        side,
                        order as usize,
                        Seq::empty(),
                        b.next_id,
                        node_place,
                        line_place,
                    ),
                    ..b.scene
                },
                selected: seq![b.next_id],
                next_id: (b.next_id + 2) as u64,
                ui: Ui { dirty: true, ..u },
                ..snapshot(b)
            }
        },
    }
}

/// Whether every node can move on by one place.
pub open spec fn has_room(v: Seq<Item>) -> bool {
    forall|i: int|
        0 <= i < v.len() ==> ((#[trigger] v[i]).mindmap matches Some(m) ==> m.order < usize::MAX)
}

// --- How it is done ---

fn no_styles() -> (r: Vec<StyleSpan>)
    ensures
        r@ == Seq::<StyleSpan>::empty(),
{
    let v: Vec<StyleSpan> = Vec::new();
    assert(v@ =~= Seq::<StyleSpan>::empty());
    v
}

fn map_node(
    id: u64,
    place: u64,
    fill: u32,
    label: &str,
    parent: Option<u64>,
    side: MindMapSide,
    order: usize,
) -> (r: Element)
    ensures
        r@ == fresh_node(id, place, fill, label@, parent, side, order),
{
    Element {
        id,
        kind: ElementKind::RoundRect,
        place,
        stroke: Some(MINDMAP_STROKE),
        fill: Some(fill),
        label: Some(label.to_owned()),
        label_color: Some(NODE_TEXT),
        styles: no_styles(),
        mindmap: Some(
            MindMapNodeMeta {
                parent,
                side,
                order,
                root_direction: MindMapRootDirection::Both,
                connector_style: MindMapConnectorStyle::Bezier,
            },
        ),
    }
}

fn arrow(id: u64, place: u64, stroke: u32, from: SegmentAnchor, to: SegmentAnchor) -> (r: Element)
    ensures
        r@ == fresh_arrow(id, place, stroke, from, to),
{
    Element {
        id,
        kind: ElementKind::Arrow(
            Segment { style: SegmentStyle::Solid, start_anchor: Some(from), end_anchor: Some(to) },
        ),
        place,
        stroke: Some(stroke),
        fill: None,
        label: None,
        label_color: None,
        styles: no_styles(),
        mindmap: None,
    }
}

fn chart_node(id: u64, place: u64, kind: ElementKind<String>, label: &str) -> (r: Element)
    ensures
        r@ == flow_node(id, place, crate::scene::kind_view(kind), label@),
{
    Element {
        id,
        kind,
        place,
        stroke: Some(FLOWCHART_STROKE),
        fill: Some(NODE_FILL),
        label: Some(label.to_owned()),
        label_color: Some(NODE_TEXT),
        styles: no_styles(),
        mindmap: None,
    }
}

fn side(first: u64, i: u64, connector: usize) -> (r: SegmentAnchor)
    requires
        first + i <= u64::MAX,
    ensures
        r == at_side(first as int, i as int, connector),
{
    SegmentAnchor { element_id: first + i, connector }
}

fn mindmap_elements(n: u64, p: u64) -> (r: Vec<Element>)
    requires
        n + 9 <= u64::MAX,
        p + 9 <= u64::MAX,
    ensures
        items(r@) == mindmap_seed(n as int, p as int),
{
    let root = Some(n);
    let (right, left) = (MindMapSide::Right, MindMapSide::Left);
    let s = MINDMAP_STROKE;
    let r = vec![
        map_node(n, p, ROOT_FILL, "Central topic", None, right, 0),
        map_node(n + 1, p + 1, NODE_FILL, "Branch 1", root, right, 0),
        map_node(n + 2, p + 2, NODE_FILL, "Branch 2", root, right, 1),
        map_node(n + 3, p + 3, NODE_FILL, "Branch 3", root, left, 0),
        map_node(n + 4, p + 4, NODE_FILL, "Branch 4", root, left, 1),
        arrow(n + 5, p + 5, s, side(n, 0, 1), side(n, 1, 3)),
        arrow(n + 6, p + 6, s, side(n, 0, 1), side(n, 2, 3)),
        arrow(n + 7, p + 7, s, side(n, 0, 3), side(n, 3, 1)),
        arrow(n + 8, p + 8, s, side(n, 0, 3), side(n, 4, 1)),
    ];
    assert(items(r@) =~= mindmap_seed(n as int, p as int));
    r
}

fn flowchart_elements(n: u64, p: u64) -> (r: Vec<Element>)
    requires
        n + 12 <= u64::MAX,
        p + 12 <= u64::MAX,
    ensures
        items(r@) == flowchart_seed(n as int, p as int),
{
    let s = FLOWCHART_STROKE;
    let r = vec![
        chart_node(n, p, ElementKind::Ellipse, "Start"),
        chart_node(n + 1, p + 1, ElementKind::RoundRect, "Process"),
        chart_node(n + 2, p + 2, ElementKind::Diamond, "Decision"),
        chart_node(n + 3, p + 3, ElementKind::RoundRect, "Yes"),
        chart_node(n + 4, p + 4, ElementKind::RoundRect, "No"),
        chart_node(n + 5, p + 5, ElementKind::Ellipse, "End"),
        arrow(n + 6, p + 6, s, side(n, 0, 2), side(n, 1, 0)),
        arrow(n + 7, p + 7, s, side(n, 1, 2), side(n, 2, 0)),
        arrow(n + 8, p + 8, s, side(n, 2, 1), side(n, 3, 3)),
        arrow(n + 9, p + 9, s, side(n, 2, 3), side(n, 4, 1)),
        arrow(n + 10, p + 10, s, side(n, 3, 2), side(n, 5, 1)),
        arrow(n + 11, p + 11, s, side(n, 4, 2), side(n, 5, 3)),
    ];
    assert(items(r@) =~= flowchart_seed(n as int, p as int));
    r
}

fn more(halves: u8, of: Measure) -> (r: Term)
    ensures
        r == plus(halves, of),
{
    Term { plus: true, halves, of }
}

fn less(halves: u8, of: Measure) -> (r: Term)
    ensures
        r == minus(halves, of),
{
    Term { plus: false, halves, of }
}

fn node_box(x: Vec<Term>, y: Vec<Term>) -> (r: NodeBox)
    ensures
        r@ == (NodeBoxView { x: x@, y: y@, w: Measure::NodeWidth, h: Measure::NodeHeight }),
{
    NodeBox { x, y, w: Measure::NodeWidth, h: Measure::NodeHeight }
}

fn to_the_right() -> (r: Vec<Term>)
    ensures
        r@ == seq![plus(1, Measure::RootWidth), plus(2, Measure::GapX)],
{
    vec![more(1, Measure::RootWidth), more(2, Measure::GapX)]
}

fn to_the_left() -> (r: Vec<Term>)
    ensures
        r@ == seq![
            minus(1, Measure::RootWidth),
            minus(2, Measure::GapX),
            minus(2, Measure::NodeWidth),
        ],
{
    vec![less(1, Measure::RootWidth), less(2, Measure::GapX), less(2, Measure::NodeWidth)]
}

fn upwards() -> (r: Vec<Term>)
    ensures
        r@ == seq![minus(2, Measure::GapY), minus(1, Measure::NodeHeight)],
{
    vec![less(2, Measure::GapY), less(1, Measure::NodeHeight)]
}

fn downwards() -> (r: Vec<Term>)
    ensures
        r@ == seq![plus(2, Measure::GapY), minus(1, Measure::NodeHeight)],
{
    vec![more(2, Measure::GapY), less(1, Measure::NodeHeight)]
}

fn centered() -> (r: Vec<Term>)
    ensures
        r@ == seq![minus(1, Measure::NodeWidth)],
{
    vec![less(1, Measure::NodeWidth)]
}

/// Where the nodes of a diagram lie, in the order of their ids.
pub fn diagram_layout(d: Diagram) -> (r: Vec<NodeBox>)
    ensures
        box_views(r@) == diagram_boxes(d),
{
    match d {
        Diagram::MindMap => {
            let root = NodeBox {
                x: vec![less(1, Measure::RootWidth)],
                y: vec![less(1, Measure::RootHeight)],
                w: Measure::RootWidth,
                h: Measure::RootHeight,
            };
            assert(root.x@ =~= seq![minus(1, Measure::RootWidth)]);
            assert(root.y@ =~= seq![minus(1, Measure::RootHeight)]);
            let r = vec![
                root,
                node_box(to_the_right(), upwards()),
                node_box(to_the_right(), downwards()),
                node_box(to_the_left(), upwards()),
                node_box(to_the_left(), downwards()),
            ];
            assert(box_views(r@) =~= mindmap_boxes());
            r
        },
        Diagram::Flowchart => {
            let start = vec![less(2, Measure::GapY), less(3, Measure::NodeHeight)];
            let process = vec![less(1, Measure::NodeHeight)];
            let yes = vec![more(2, Measure::GapX), less(1, Measure::NodeWidth)];
            let no = vec![less(2, Measure::GapX), less(1, Measure::NodeWidth)];
            let end = vec![more(4, Measure::GapY), more(1, Measure::NodeHeight)];
            proof {
                assert(start@ =~= seq![minus(2, Measure::GapY), minus(3, Measure::NodeHeight)]);
                assert(process@ =~= seq![minus(1, Measure::NodeHeight)]);
                assert(yes@ =~= seq![plus(2, Measure::GapX), minus(1, Measure::NodeWidth)]);
                assert(no@ =~= seq![minus(2, Measure::GapX), minus(1, Measure::NodeWidth)]);
                assert(end@ =~= seq![plus(4, Measure::GapY), plus(1, Measure::NodeHeight)]);
            }
            let r = vec![
                node_box(centered(), start),
                node_box(centered(), process),
                node_box(centered(), downwards()),
                node_box(yes, downwards()),
                node_box(no, downwards()),
                node_box(centered(), end),
            ];
            assert(box_views(r@) =~= flowchart_boxes());
            r
        },
    }
}

impl WhiteboardView {
    fn add_diagram(&mut self, d: Diagram, place: u64)
        requires
            old(self)@.next_id + diagram_len(d) <= u64::MAX,
            place + diagram_len(d) <= u64::MAX,
        ensures
            final(self)@ == diagram_added(old(self)@, d, place as int),
    {
        self.push_undo();
        let n: u64 = self.next_id;
        let (mut seed, len, face) = match d {
            Diagram::MindMap => (mindmap_elements(n, place), 9u64, 0u64),
            Diagram::Flowchart => (flowchart_elements(n, place), 12u64, 1u64),
        };
        let ghost v = self.scene.elements@;
        let ghost w = seed@;
        self.scene.elements.append(&mut seed);
        assert(items(self.scene.elements@) =~= items(v) + items(w));
        self.next_id = n + len;
        self.select_one(n + face);
        self.ui.tool = Tool::Select;
    }

    /// Puts a mind map on the board and selects its root. Its nodes and links
    /// get the places that are numbered from `place` on.
    pub fn add_mindmap_seed(&mut self, place: u64)
        requires
            old(self)@.next_id + 9 <= u64::MAX,
            place + 9 <= u64::MAX,
        ensures
            final(self)@ == diagram_added(old(self)@, Diagram::MindMap, place as int),
    {
        self.add_diagram(Diagram::MindMap, place);
    }

    /// Puts a flowchart on the board and selects its process. Its nodes and
    /// links get the places that are numbered from `place` on.
    pub fn add_flowchart_seed(&mut self, place: u64)
        requires
            old(self)@.next_id + 12 <= u64::MAX,
            place + 12 <= u64::MAX,
        ensures
            final(self)@ == diagram_added(old(self)@, Diagram::Flowchart, place as int),
    {
        self.add_diagram(Diagram::Flowchart, place);
    }

    fn add_thing(&mut self, place: u64, kind: ElementKind<String>)
        requires
            old(self)@.next_id < u64::MAX,
        ensures
            final(self)@ == thing_added(old(self)@, place, crate::scene::kind_view(kind)),
    {
        self.push_undo();
        let id = self.take_id();
        let e = Element {
            id,
            kind,
            place,
            stroke: None,
            fill: None,
            label: None,
            label_color: None,
            styles: no_styles(),
            mindmap: None,
        };
        self.push_element(e);
        self.select_one(id);
        self.ui.tool = Tool::Select;
    }

    /// Puts a page card on the board and selects it.
    pub fn add_embed(&mut self, page_id: i64, title: String, place: u64)
        requires
            old(self)@.next_id < u64::MAX,
        ensures
            final(self)@ == thing_added(
                old(self)@,
                place,
                ElementKind::Embed { page_id, title: title@ },
            ),
    {
        self.add_thing(place, ElementKind::Embed { page_id, title });
    }

    /// Puts an image on the board and selects it.
    pub fn add_image_at(&mut self, src: String, place: u64)
        requires
            old(self)@.next_id < u64::MAX,
        ensures
            final(self)@ == thing_added(old(self)@, place, ElementKind::Image(src@)),
    {
        self.add_thing(place, ElementKind::Image(src));
    }

    /// Where a node that is added beside or under another goes: its parent, its
    /// side and its place in the order.
    pub fn mindmap_slot(&self, source_id: u64, sibling: bool) -> (r: Option<(u64, MindMapSide, usize)>)
        requires
            has_room(self@.scene.elements),
        ensures
            r is None <==> slot_for(self@.scene.elements, source_id, sibling) is None,
            r matches Some(s) ==> slot_for(self@.scene.elements, source_id, sibling) == Some(
                (s.0, s.1, s.2 as int),
            ),
    {
        let m = match self.mindmap_meta(source_id) {
            Some(m) => m,
            None => {
                return None;
            },
        };
        proof {
            crate::scene::lemma_index_from(self@.scene.elements, source_id, 0);
        }
        if sibling {
            match m.parent {
                Some(p) => Some((p, m.side, m.order + 1)),
                None => {
                    let k = self.mindmap_children(source_id, MindMapSide::Right);
                    Some((source_id, MindMapSide::Right, k.len()))
                },
            }
        } else {
            let k = self.mindmap_children(source_id, m.side);
            Some((source_id, m.side, k.len()))
        }
    }

    /// Grows a node with its link.
    fn create_mindmap_node(
        &mut self,
        parent: u64,
        side: MindMapSide,
        order: usize,
        label: &str,
        node_place: u64,
        line_place: u64,
    ) -> (id: u64)
        requires
            old(self)@.next_id + 2 <= u64::MAX,
            has_room(old(self)@.scene.elements),
        ensures
            id == old(self)@.next_id,
            final(self)@ == (BoardState {
                scene: SceneView {
                    elements: grown(
                        old(self)@.scene.elements,
                        parent,
                        side,
                        order,
                        label@,
                        id,
                        node_place,
                        line_place,
                    ),
                    ..old(self)@.scene
                },
                next_id: (id + 2) as u64,
                ..old(self)@
            }),
    {
        proof {
            let v = self.scene.elements@;
            assert forall|i: int| 0 <= i < v.len() implies ((#[trigger] v[i]).mindmap matches Some(m)
                ==> m.order < usize::MAX) by {
                assert(items(v)[i] == v[i]@);
            }
        }
        bump(&mut self.scene.elements, parent, side, order);
        let id = self.take_id();
        self.push_element(map_node(id, node_place, NODE_FILL, label, Some(parent), side, order));
        let line = self.take_id();
        let (out, into): (usize, usize) = match side {
            MindMapSide::Right => (1, 3),
            MindMapSide::Left => (3, 1),
        };
        let from = SegmentAnchor { element_id: parent, connector: out };
        let to = SegmentAnchor { element_id: id, connector: into };
        self.push_element(arrow(line, line_place, MINDMAP_STROKE, from, to));
        match root_at(&self.scene.elements, parent) {
            Some(root) => {
                let _changed = sync_map(&mut self.scene.elements, root);
            },
            None => {},
        }
        id
    }

    /// Adds a node beside a node of a mind map, or under it, and starts to edit
    /// its text. Returns the new node; `None` where the source is no node.
    pub fn add_mindmap_relative(
        &mut self,
        source_id: u64,
        sibling: bool,
        node_place: u64,
        line_place: u64,
    ) -> (r: Option<u64>)
        requires
            old(self)@.next_id + 2 <= u64::MAX,
            has_room(old(self)@.scene.elements),
        ensures
            final(self)@ == node_added(old(self)@, source_id, sibling, node_place, line_place),
            r == if meta_of(old(self)@.scene.elements, source_id) is Some {
                Some(old(self)@.next_id)
            } else {
                None
            },
    {
        let (parent, side, order) = match self.mindmap_slot(source_id, sibling) {
            Some(s) => s,
            None => {
                return None;
            },
        };
        self.push_undo();
        let id = self.create_mindmap_node(parent, side, order, "", node_place, line_place);
        proof {
            reveal_strlit("");
            assert(""@ =~= Seq::<char>::empty());
        }
        self.select_one(id);
        self.begin_text_edit(id, 0);
        self.ui.dirty = true;
        Some(id)
    }
}

// --- What holds of it ---

/// A sum of halves of lengths, in half pixels.
pub open spec fn half_pixels(d: Diagram, t: Seq<Term>) -> int
    decreases t.len(),
{
    if t.len() == 0 {
        0
    } else {
        let x = t.last();
        let n = x.halves * pixels(d, x.of);
        half_pixels(d, t.drop_last()) + if x.plus {
            n
        } else {
            -n
        }
    }
}

/// Whether two nodes of a diagram do not touch.
pub open spec fn are_apart(d: Diagram, a: NodeBoxView, b: NodeBoxView) -> bool {
    ||| half_pixels(d, a.x) + 2 * pixels(d, a.w) < half_pixels(d, b.x)
    ||| half_pixels(d, b.x) + 2 * pixels(d, b.w) < half_pixels(d, a.x)
    ||| half_pixels(d, a.y) + 2 * pixels(d, a.h) < half_pixels(d, b.y)
    ||| half_pixels(d, b.y) + 2 * pixels(d, b.h) < half_pixels(d, a.y)
}

proof fn lemma_one_term(d: Diagram, a: Term)
    ensures
        half_pixels(d, seq![a]) == if a.plus {
            a.halves * pixels(d, a.of)
        } else {
            -(a.halves * pixels(d, a.of))
        },
{
    assert(seq![a].drop_last() =~= Seq::<Term>::empty());
    reveal_with_fuel(half_pixels, 2);
}

proof fn lemma_two_terms(d: Diagram, a: Term, b: Term)
    ensures
        half_pixels(d, seq![a, b]) == half_pixels(d, seq![a]) + if b.plus {
            b.halves * pixels(d, b.of)
        } else {
            -(b.halves * pixels(d, b.of))
        },
{
    assert(seq![a, b].drop_last() =~= seq![a]);
}

proof fn lemma_three_terms(d: Diagram, a: Term, b: Term, c: Term)
    ensures
        half_pixels(d, seq![a, b, c]) == half_pixels(d, seq![a, b]) + if c.plus {
            c.halves * pixels(d, c.of)
        } else {
            -(c.halves * pixels(d, c.of))
        },
{
    assert(seq![a, b, c].drop_last() =~= seq![a, b]);
}

/// The nodes of a mind map that is put on a board do not touch.
pub proof fn law_mindmap_nodes_are_apart(i: int, j: int)
    requires
        0 <= i < j < mindmap_boxes().len(),
    ensures
        are_apart(Diagram::MindMap, mindmap_boxes()[i], mindmap_boxes()[j]),
{
    let d = Diagram::MindMap;
    lemma_one_term(d, minus(1, Measure::RootWidth));
    lemma_one_term(d, plus(1, Measure::RootWidth));
    lemma_one_term(d, minus(1, Measure::RootHeight));
    lemma_one_term(d, minus(2, Measure::GapY));
    lemma_one_term(d, plus(2, Measure::GapY));
    lemma_two_terms(d, plus(1, Measure::RootWidth), plus(2, Measure::GapX));
    lemma_two_terms(d, minus(1, Measure::RootWidth), minus(2, Measure::GapX));
    lemma_two_terms(d, minus(2, Measure::GapY), minus(1, Measure::NodeHeight));
    lemma_two_terms(d, plus(2, Measure::GapY), minus(1, Measure::NodeHeight));
    lemma_three_terms(
        d,
        minus(1, Measure::RootWidth),
        minus(2, Measure::GapX),
        minus(2, Measure::NodeWidth),
    );
}

/// The nodes of a flowchart that is put on a board do not touch.
pub proof fn law_flowchart_nodes_are_apart(i: int, j: int)
    requires
        0 <= i < j < flowchart_boxes().len(),
    ensures
        are_apart(Diagram::Flowchart, flowchart_boxes()[i], flowchart_boxes()[j]),
{
    let d = Diagram::Flowchart;
    lemma_one_term(d, minus(1, Measure::NodeWidth));
    lemma_one_term(d, minus(1, Measure::NodeHeight));
    lemma_one_term(d, minus(2, Measure::GapY));
    lemma_one_term(d, plus(2, Measure::GapY));
    lemma_one_term(d, plus(4, Measure::GapY));
    lemma_one_term(d, plus(2, Measure::GapX));
    lemma_one_term(d, minus(2, Measure::GapX));
    lemma_two_terms(d, minus(2, Measure::GapY), minus(3, Measure::NodeHeight));
    lemma_two_terms(d, plus(2, Measure::GapY), minus(1, Measure::NodeHeight));
    lemma_two_terms(d, plus(2, Measure::GapX), minus(1, Measure::NodeWidth));
    lemma_two_terms(d, minus(2, Measure::GapX), minus(1, Measure::NodeWidth));
    lemma_two_terms(d, plus(4, Measure::GapY), plus(1, Measure::NodeHeight));
}

} // verus!
