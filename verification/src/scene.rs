//! What lies on a whiteboard.
//!
//! Where an element lies is the host's: an element carries a key to its place,
//! and the scene one to the camera. Everything else about it is here.
use crate::styles::StyleSpan;
use crate::tree::opt_view;
use vstd::prelude::*;

verus! {

/// How a line is drawn.
#[derive(Clone, Copy, PartialEq, Eq, Debug, Structural)]
pub enum SegmentStyle {
    Solid,
    Dashed,
}

/// The side of an element that the end of a line is tied to: top, right,
/// bottom and left are numbered from zero.
#[derive(Clone, Copy, PartialEq, Eq, Debug, Structural)]
pub struct SegmentAnchor {
    pub element_id: u64,
    pub connector: usize,
}

/// A line or an arrow, with what its ends are tied to.
#[derive(Clone, Copy, PartialEq, Eq, Debug, Structural)]
pub struct Segment {
    pub style: SegmentStyle,
    pub start_anchor: Option<SegmentAnchor>,
    pub end_anchor: Option<SegmentAnchor>,
}

/// What an element is.
#[derive(PartialEq, Eq, Debug)]
pub enum ElementKind<S> {
    Draw,
    Rect,
    Ellipse,
    Diamond,
    Triangle,
    RoundRect,
    Star,
    Hexagon,
    Line(Segment),
    Arrow(Segment),
    Text(S),
    /// A card for a page of the host.
    Embed { page_id: i64, title: S },
    /// An image, by its source.
    Image(S),
}

/// The side of its parent that a mind-map node grows on.
#[derive(Clone, Copy, PartialEq, Eq, Debug, Structural)]
pub enum MindMapSide {
    Left,
    Right,
}

/// The sides that a mind map grows on.
#[derive(Clone, Copy, PartialEq, Eq, Debug, Structural)]
pub enum MindMapRootDirection {
    Both,
    Left,
    Right,
}

/// How the lines of a mind map are drawn.
#[derive(Clone, Copy, PartialEq, Eq, Debug, Structural)]
pub enum MindMapConnectorStyle {
    Bezier,
    Straight,
    Orthogonal,
}

/// What makes an element a node of a mind map. The root has no parent.
#[derive(Clone, Copy, PartialEq, Eq, Debug, Structural)]
pub struct MindMapNodeMeta {
    pub parent: Option<u64>,
    pub side: MindMapSide,
    /// The place among the siblings on the same side.
    pub order: usize,
    pub root_direction: MindMapRootDirection,
    pub connector_style: MindMapConnectorStyle,
}

/// An element of a scene. Colours are `0xRRGGBBAA`.
#[derive(PartialEq, Eq, Debug)]
pub struct Element {
    pub id: u64,
    pub kind: ElementKind<String>,
    /// The host's key to where the element lies.
    pub place: u64,
    /// The outline; without one it follows the theme.
    pub stroke: Option<u32>,
    pub fill: Option<u32>,
    /// The text inside a closed shape.
    pub label: Option<String>,
    pub label_color: Option<u32>,
    pub styles: Vec<StyleSpan>,
    pub mindmap: Option<MindMapNodeMeta>,
}

/// An [`Element`] as a value.
#[verifier::ext_equal]
pub struct Item {
    pub id: u64,
    pub kind: ElementKind<Seq<char>>,
    pub place: u64,
    pub stroke: Option<u32>,
    pub fill: Option<u32>,
    pub label: Option<Seq<char>>,
    pub label_color: Option<u32>,
    pub styles: Seq<StyleSpan>,
    pub mindmap: Option<MindMapNodeMeta>,
}

/// A kind as a value.
pub open spec fn kind_view(k: ElementKind<String>) -> ElementKind<Seq<char>> {
    match k {
        ElementKind::Draw => ElementKind::Draw,
        ElementKind::Rect => ElementKind::Rect,
        ElementKind::Ellipse => ElementKind::Ellipse,
        ElementKind::Diamond => ElementKind::Diamond,
        ElementKind::Triangle => ElementKind::Triangle,
        ElementKind::RoundRect => ElementKind::RoundRect,
        ElementKind::Star => ElementKind::Star,
        ElementKind::Hexagon => ElementKind::Hexagon,
        ElementKind::Line(s) => ElementKind::Line(s),
        ElementKind::Arrow(s) => ElementKind::Arrow(s),
        ElementKind::Text(s) => ElementKind::Text(s@),
        ElementKind::Embed { page_id, title } => ElementKind::Embed { page_id, title: title@ },
        ElementKind::Image(s) => ElementKind::Image(s@),
    }
}

impl View for Element {
    type V = Item;

    open spec fn view(&self) -> Item {
        Item {
            id: self.id,
            kind: kind_view(self.kind),
            place: self.place,
            stroke: self.stroke,
            fill: self.fill,
            label: opt_view(self.label),
            label_color: self.label_color,
            styles: self.styles@,
            mindmap: self.mindmap,
        }
    }
}

/// Elements as values.
pub open spec fn items(v: Seq<Element>) -> Seq<Item> {
    v.map_values(|e: Element| e@)
}

/// A board's content: the elements, those painted later covering the earlier,
/// and the host's key to the camera.
#[derive(PartialEq, Eq, Debug)]
pub struct Scene {
    pub camera: u64,
    pub elements: Vec<Element>,
}

/// A [`Scene`] as a value.
#[verifier::ext_equal]
pub struct SceneView {
    pub camera: u64,
    pub elements: Seq<Item>,
}

impl View for Scene {
    type V = SceneView;

    open spec fn view(&self) -> SceneView {
        SceneView { camera: self.camera, elements: items(self.elements@) }
    }
}

/// Scenes as values.
pub open spec fn scene_views(v: Seq<Scene>) -> Seq<SceneView> {
    v.map_values(|s: Scene| s@)
}

/// A reusable group of elements, known to the host by its id.
#[derive(PartialEq, Eq, Debug)]
pub struct Template {
    pub id: i64,
    pub name: String,
    pub elements: Vec<Element>,
}

/// Whether a kind has an inside that can be filled and labelled.
pub open spec fn is_closed<S>(k: ElementKind<S>) -> bool {
    match k {
        ElementKind::Rect | ElementKind::Ellipse | ElementKind::Diamond => true,
        ElementKind::Triangle | ElementKind::RoundRect => true,
        ElementKind::Star | ElementKind::Hexagon => true,
        _ => false,
    }
}

/// The line or arrow that a kind is.
pub open spec fn segment_in<S>(k: ElementKind<S>) -> Option<Segment> {
    match k {
        ElementKind::Line(s) => Some(s),
        ElementKind::Arrow(s) => Some(s),
        _ => None,
    }
}

/// A line or arrow with other ends.
pub open spec fn with_segment<S>(k: ElementKind<S>, s: Segment) -> ElementKind<S> {
    match k {
        ElementKind::Line(_) => ElementKind::Line(s),
        ElementKind::Arrow(_) => ElementKind::Arrow(s),
        _ => k,
    }
}

/// Whether a kind lies in a box: closed shapes, text and images.
pub open spec fn is_boxed<S>(k: ElementKind<S>) -> bool {
    is_closed(k) || k is Text || k is Image
}

/// Whether a kind can be turned: everything but a page card.
pub open spec fn is_rotatable<S>(k: ElementKind<S>) -> bool {
    !(k is Embed)
}

/// Whether a kind has an inside that can be filled and labelled.
pub fn is_closed_shape(k: &ElementKind<String>) -> (r: bool)
    ensures
        r == is_closed(*k),
        r == is_closed(kind_view(*k)),
{
    match k {
        ElementKind::Rect | ElementKind::Ellipse | ElementKind::Diamond => true,
        ElementKind::Triangle | ElementKind::RoundRect => true,
        ElementKind::Star | ElementKind::Hexagon => true,
        _ => false,
    }
}

/// Whether lines can be tied to a kind.
pub fn connector_capable(k: &ElementKind<String>) -> (r: bool)
    ensures
        r == is_boxed(kind_view(*k)),
{
    if is_closed_shape(k) {
        return true;
    }
    match k {
        ElementKind::Text(_) | ElementKind::Image(_) => true,
        _ => false,
    }
}

/// Whether a kind can be turned.
pub fn rotatable(k: &ElementKind<String>) -> (r: bool)
    ensures
        r == is_rotatable(kind_view(*k)),
{
    match k {
        ElementKind::Embed { .. } => false,
        _ => true,
    }
}

/// The line or arrow that a kind is.
pub fn segment_of(k: &ElementKind<String>) -> (r: Option<Segment>)
    ensures
        r == segment_in(kind_view(*k)),
        r == segment_in(*k),
{
    match k {
        ElementKind::Line(s) => Some(*s),
        ElementKind::Arrow(s) => Some(*s),
        _ => None,
    }
}

/// Where the first element of an id is, from `i` on.
pub open spec fn index_from(v: Seq<Item>, id: u64, i: int) -> Option<int>
    decreases v.len() - i,
{
    if i < 0 || i >= v.len() {
        None
    } else if v[i].id == id {
        Some(i)
    } else {
        index_from(v, id, i + 1)
    }
}

/// Where the first element of an id is.
pub open spec fn index_of(v: Seq<Item>, id: u64) -> Option<int> {
    index_from(v, id, 0)
}

/// The first element of an id.
pub open spec fn item_of(v: Seq<Item>, id: u64) -> Option<Item> {
    match index_of(v, id) {
        Some(i) => Some(v[i]),
        None => None,
    }
}

/// `v` with the first element of an id replaced.
pub open spec fn with_item(v: Seq<Item>, id: u64, x: Item) -> Seq<Item> {
    match index_of(v, id) {
        Some(i) => v.update(i, x),
        None => v,
    }
}

pub proof fn lemma_index_from(v: Seq<Item>, id: u64, i: int)
    requires
        0 <= i,
    ensures
        index_from(v, id, i) matches Some(k) ==> i <= k < v.len() && v[k].id == id,
        index_from(v, id, i) is None ==> forall|k: int| i <= k < v.len() ==> (#[trigger] v[k]).id != id,
    decreases v.len() - i,
{
    if i < v.len() && v[i].id != id {
        lemma_index_from(v, id, i + 1);
        if index_from(v, id, i) is None {
            assert forall|k: int| i <= k < v.len() implies (#[trigger] v[k]).id != id by {}
        }
    }
}

/// Where the first element of an id is.
pub fn find_element(v: &Vec<Element>, id: u64) -> (r: Option<usize>)
    ensures
        r is Some == index_of(items(v@), id) is Some,
        r matches Some(i) ==> i < v@.len() && index_of(items(v@), id) == Some(i as int) && v@[i as int].id
            == id,
{
    let mut i: usize = 0;
    while i < v.len()
        invariant
            i <= v@.len(),
            index_of(items(v@), id) == index_from(items(v@), id, i as int),
        decreases v.len() - i,
    {
        assert(items(v@)[i as int] == v@[i as int]@);
        if v[i].id == id {
            return Some(i);
        }
        i += 1;
    }
    None
}

/// Whether a list holds an id.
pub fn holds_id(v: &Vec<u64>, id: u64) -> (r: bool)
    ensures
        r == v@.contains(id),
{
    let mut i: usize = 0;
    while i < v.len()
        invariant
            i <= v@.len(),
            forall|k: int| 0 <= k < i ==> v@[k] != id,
        decreases v.len() - i,
    {
        if v[i] == id {
            return true;
        }
        i += 1;
    }
    false
}

/// A copy of a list of ids.
pub fn copy_ids(v: &Vec<u64>) -> (r: Vec<u64>)
    ensures
        r@ == v@,
{
    let mut r: Vec<u64> = Vec::new();
    let mut i: usize = 0;
    while i < v.len()
        invariant
            i <= v@.len(),
            r@ == v@.take(i as int),
        decreases v.len() - i,
    {
        proof {
            assert(v@.take(i + 1) =~= v@.take(i as int).push(v@[i as int]));
        }
        r.push(v[i]);
        i += 1;
    }
    assert(v@.take(v@.len() as int) =~= v@);
    r
}

/// A copy of a list of spans.
pub fn copy_spans(v: &Vec<StyleSpan>) -> (r: Vec<StyleSpan>)
    ensures
        r@ == v@,
{
    let mut r: Vec<StyleSpan> = Vec::new();
    let mut i: usize = 0;
    while i < v.len()
        invariant
            i <= v@.len(),
            r@ == v@.take(i as int),
        decreases v.len() - i,
    {
        proof {
            assert(v@.take(i + 1) =~= v@.take(i as int).push(v@[i as int]));
        }
        r.push(v[i]);
        i += 1;
    }
    assert(v@.take(v@.len() as int) =~= v@);
    r
}

fn copy_kind(k: &ElementKind<String>) -> (r: ElementKind<String>)
    ensures
        kind_view(r) == kind_view(*k),
{
    match k {
        ElementKind::Draw => ElementKind::Draw,
        ElementKind::Rect => ElementKind::Rect,
        ElementKind::Ellipse => ElementKind::Ellipse,
        ElementKind::Diamond => ElementKind::Diamond,
        ElementKind::Triangle => ElementKind::Triangle,
        ElementKind::RoundRect => ElementKind::RoundRect,
        ElementKind::Star => ElementKind::Star,
        ElementKind::Hexagon => ElementKind::Hexagon,
        ElementKind::Line(s) => ElementKind::Line(*s),
        ElementKind::Arrow(s) => ElementKind::Arrow(*s),
        ElementKind::Text(s) => ElementKind::Text(s.as_str().to_owned()),
        ElementKind::Embed { page_id, title } => ElementKind::Embed {
            page_id: *page_id,
            title: title.as_str().to_owned(),
        },
        ElementKind::Image(s) => ElementKind::Image(s.as_str().to_owned()),
    }
}

/// A copy of a text that may be missing.
pub fn copy_opt(s: &Option<String>) -> (r: Option<String>)
    ensures
        opt_view(r) == opt_view(*s),
{
    match s {
        Some(t) => Some(t.as_str().to_owned()),
        None => None,
    }
}

/// A copy of an element.
pub fn copy_element(e: &Element) -> (r: Element)
    ensures
        r@ == e@,
{
    Element {
        id: e.id,
        kind: copy_kind(&e.kind),
        place: e.place,
        stroke: e.stroke,
        fill: e.fill,
        label: copy_opt(&e.label),
        label_color: e.label_color,
        styles: copy_spans(&e.styles),
        mindmap: e.mindmap,
    }
}

/// A copy of a list of elements.
pub fn copy_elements(v: &Vec<Element>) -> (r: Vec<Element>)
    ensures
        items(r@) == items(v@),
{
    let mut r: Vec<Element> = Vec::new();
    let mut i: usize = 0;
    while i < v.len()
        invariant
            i <= v@.len(),
            items(r@) == items(v@).take(i as int),
        decreases v.len() - i,
    {
        let e = copy_element(&v[i]);
        let ghost before = r@;
        r.push(e);
        proof {
            lemma_items_push(before, e);
            assert(items(v@).take(i + 1) =~= items(v@).take(i as int).push(items(v@)[i as int]));
        }
        i += 1;
    }
    assert(items(v@).take(v@.len() as int) =~= items(v@));
    r
}

pub proof fn lemma_items_push(v: Seq<Element>, e: Element)
    ensures
        items(v.push(e)) == items(v).push(e@),
{
    assert(items(v.push(e)) =~= items(v).push(e@));
}

/// A copy of a scene.
pub fn copy_scene(s: &Scene) -> (r: Scene)
    ensures
        r@ == s@,
{
    Scene { camera: s.camera, elements: copy_elements(&s.elements) }
}

/// The element that an id stands for is the first one that has it.
pub proof fn law_lookup_finds_the_id(v: Seq<Item>, id: u64)
    ensures
        item_of(v, id) matches Some(x) ==> x.id == id && v.contains(x),
        item_of(v, id) is None <==> forall|k: int| 0 <= k < v.len() ==> (#[trigger] v[k]).id != id,
{
    lemma_index_from(v, id, 0);
    match index_of(v, id) {
        Some(k) => {
            assert(v[k].id == id);
        },
        None => {},
    }
}

} // verus!
