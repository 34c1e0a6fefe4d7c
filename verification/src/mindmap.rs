//! Mind maps: nodes with a parent, a side and a place among their siblings.
use crate::board::{lone, WhiteboardView, BoardState};
use crate::scene::{find_element, is_boxed, item_of, items, segment_in};
use crate::scene::{connector_capable, segment_of, with_item, with_segment, Element, ElementKind};
use crate::scene::{Item, MindMapConnectorStyle, MindMapNodeMeta, MindMapRootDirection, MindMapSide};
use crate::scene::{SceneView, Segment, SegmentAnchor};
use vstd::prelude::*;

verus! {

/// What siblings are ordered by: where they lie, their place in the order, and
/// their id.
#[derive(Clone, Copy, PartialEq, Eq, Debug, Structural)]
pub struct Key {
    pub y: i64,
    pub x: i64,
    pub order: usize,
    pub id: u64,
}

/// Where an element lies, as numbers that grow downwards and to the right.
#[derive(Clone, Copy, PartialEq, Eq, Debug, Structural)]
pub struct Rank {
    pub id: u64,
    pub y: i64,
    pub x: i64,
}

/// A node that the host lays out beside its parent.
#[derive(Clone, Copy, PartialEq, Eq, Debug, Structural)]
pub struct LayoutStep {
    pub id: u64,
    pub parent: u64,
    pub side: MindMapSide,
}

// --- What is meant ---

/// The node that an id stands for.
pub open spec fn meta_of(v: Seq<Item>, id: u64) -> Option<MindMapNodeMeta> {
    match item_of(v, id) {
        Some(e) => e.mindmap,
        None => None,
    }
}

/// The root above a node, within `fuel` steps.
pub open spec fn root_within(v: Seq<Item>, id: u64, fuel: nat) -> Option<u64>
    decreases fuel,
{
    if fuel == 0 {
        None
    } else {
        match meta_of(v, id) {
            None => None,
            Some(m) => match m.parent {
                None => Some(id),
                Some(p) => root_within(v, p, (fuel - 1) as nat),
            },
        }
    }
}

/// The root of the map that a node is in. A node whose parents run in a circle,
/// or to an element that is no node, has none.
pub open spec fn root_of(v: Seq<Item>, id: u64) -> Option<u64> {
    root_within(v, id, v.len())
}

/// Whether one key comes before another, or is the same.
pub open spec fn key_le(a: Key, b: Key) -> bool {
    a.y < b.y || (a.y == b.y && (a.x < b.x || (a.x == b.x && (a.order < b.order || (a.order == b.order
        && a.id <= b.id)))))
}

/// Where an element lies, by the first rank given for it.
pub open spec fn rank_from(ranks: Seq<Rank>, id: u64, i: int) -> (i64, i64)
    decreases ranks.len() - i,
{
    if i < 0 || i >= ranks.len() {
        (0, 0)
    } else if ranks[i].id == id {
        (ranks[i].y, ranks[i].x)
    } else {
        rank_from(ranks, id, i + 1)
    }
}

/// Whether a node is a child of `parent`, on a side or on either.
pub open spec fn is_child(e: Item, parent: u64, side: Option<MindMapSide>) -> bool {
    match e.mindmap {
        Some(m) => m.parent == Some(parent) && (side is None || side == Some(m.side)),
        None => false,
    }
}

/// A node's key.
pub open spec fn key_of(e: Item, ranks: Seq<Rank>) -> Key {
    let r = rank_from(ranks, e.id, 0);
    Key { y: r.0, x: r.1, order: (e.mindmap->0).order, id: e.id }
}

/// The keys of the children of `parent` among the first `n` elements.
pub open spec fn keys_upto(
    v: Seq<Item>,
    parent: u64,
    side: Option<MindMapSide>,
    ranks: Seq<Rank>,
    n: int,
) -> Seq<Key>
    decreases n,
{
    if n <= 0 {
        Seq::empty()
    } else {
        let rest = keys_upto(v, parent, side, ranks, n - 1);
        if is_child(v[n - 1], parent, side) {
            rest.push(key_of(v[n - 1], ranks))
        } else {
            rest
        }
    }
}

/// The ids of keys.
pub open spec fn key_ids(v: Seq<Key>) -> Seq<u64> {
    v.map_values(|k: Key| k.id)
}

/// Keys in order.
pub open spec fn sorted(v: Seq<Key>) -> Seq<Key> {
    v.sort_by(|a: Key, b: Key| key_le(a, b))
}

/// The children of `parent` on one side, by their place in the order.
pub open spec fn children(v: Seq<Item>, parent: u64, side: MindMapSide) -> Seq<u64> {
    key_ids(sorted(keys_upto(v, parent, Some(side), Seq::empty(), v.len() as int)))
}

/// The children of `parent` on both sides, by where they lie.
pub open spec fn children_by_place(v: Seq<Item>, parent: u64, ranks: Seq<Rank>) -> Seq<u64> {
    key_ids(sorted(keys_upto(v, parent, None, ranks, v.len() as int)))
}

/// The side of a parent that a line to a child leaves from.
pub open spec fn parent_connector(side: MindMapSide) -> usize {
    match side {
        MindMapSide::Right => 1,
        MindMapSide::Left => 3,
    }
}

/// The side of a child that a line from its parent ends at.
pub open spec fn child_connector(side: MindMapSide) -> usize {
    match side {
        MindMapSide::Right => 3,
        MindMapSide::Left => 1,
    }
}

/// Whether a line runs between two elements, either way.
pub open spec fn links(s: Segment, a: u64, b: u64) -> bool {
    match (s.start_anchor, s.end_anchor) {
        (Some(x), Some(y)) => (x.element_id == a && y.element_id == b) || (x.element_id == b
            && y.element_id == a),
        _ => false,
    }
}

/// The end of a link, moved to the side that a node grows on.
pub open spec fn retied(
    x: Option<SegmentAnchor>,
    parent: u64,
    child: u64,
    side: MindMapSide,
) -> Option<SegmentAnchor> {
    match x {
        Some(a) => if a.element_id == parent {
            Some(SegmentAnchor { connector: parent_connector(side), ..a })
        } else if a.element_id == child {
            Some(SegmentAnchor { connector: child_connector(side), ..a })
        } else {
            Some(a)
        },
        None => None,
    }
}

/// A link with both ends on the sides that a node grows on.
pub open spec fn relinked(e: Item, parent: u64, child: u64, side: MindMapSide) -> Item {
    match segment_in(e.kind) {
        Some(s) => if links(s, parent, child) {
            Item {
                kind: with_segment(
                    e.kind,
                    Segment {
                        start_anchor: retied(s.start_anchor, parent, child, side),
                        end_anchor: retied(s.end_anchor, parent, child, side),
                        ..s
                    },
                ),
                ..e
            }
        } else {
            e
        },
        None => e,
    }
}

/// The elements with the links between a node and its parent on the right sides.
pub open spec fn link_synced(v: Seq<Item>, child: u64) -> Seq<Item> {
    match meta_of(v, child) {
        Some(m) => match m.parent {
            Some(p) => v.map_values(|e: Item| relinked(e, p, child, m.side)),
            None => v,
        },
        None => v,
    }
}

/// The elements with the links of each of the listed nodes, from `i` on, on the
/// right sides.
pub open spec fn links_synced(v: Seq<Item>, nodes: Seq<u64>, i: int) -> Seq<Item>
    decreases nodes.len() - i,
{
    if i < 0 || i >= nodes.len() {
        v
    } else {
        links_synced(link_synced(v, nodes[i]), nodes, i + 1)
    }
}

/// The nodes under a root, among the first `n` elements.
pub open spec fn nodes_under(v: Seq<Item>, root: u64, n: int) -> Seq<u64>
    decreases n,
{
    if n <= 0 {
        Seq::empty()
    } else {
        let rest = nodes_under(v, root, n - 1);
        let e = v[n - 1];
        if e.mindmap is Some && (e.mindmap->0).parent is Some && root_of(v, e.id) == Some(root) {
            rest.push(e.id)
        } else {
            rest
        }
    }
}

/// The elements with all links of a map on the right sides.
pub open spec fn map_synced(v: Seq<Item>, root: u64) -> Seq<Item> {
    links_synced(v, nodes_under(v, root, v.len() as int), 0)
}

/// The elements with a change to the node of an id.
pub open spec fn with_meta(v: Seq<Item>, id: u64, m: MindMapNodeMeta) -> Seq<Item> {
    match item_of(v, id) {
        Some(e) => if e.mindmap is Some {
            with_item(v, id, Item { mindmap: Some(m), ..e })
        } else {
            v
        },
        None => v,
    }
}

/// The elements with a node on a side, and its links with it.
pub open spec fn sided(v: Seq<Item>, id: u64, side: MindMapSide) -> Seq<Item> {
    match meta_of(v, id) {
        Some(m) => link_synced(with_meta(v, id, MindMapNodeMeta { side, ..m }), id),
        None => v,
    }
}

/// The side of the `i`th child of a root that grows in a direction.
pub open spec fn side_for(direction: MindMapRootDirection, i: int) -> MindMapSide {
    match direction {
        MindMapRootDirection::Left => MindMapSide::Left,
        MindMapRootDirection::Right => MindMapSide::Right,
        MindMapRootDirection::Both => if i % 2 == 0 {
            MindMapSide::Right
        } else {
            MindMapSide::Left
        },
    }
}

/// The elements with the listed nodes, from `i` on, on the sides of a direction.
pub open spec fn all_sided(
    v: Seq<Item>,
    nodes: Seq<u64>,
    direction: MindMapRootDirection,
    i: int,
) -> Seq<Item>
    decreases nodes.len() - i,
{
    if i < 0 || i >= nodes.len() {
        v
    } else {
        all_sided(sided(v, nodes[i], side_for(direction, i)), nodes, direction, i + 1)
    }
}

/// The elements with a node at a place in the order of its siblings.
pub open spec fn placed(v: Seq<Item>, id: u64, order: usize) -> Seq<Item> {
    match meta_of(v, id) {
        Some(m) => with_meta(v, id, MindMapNodeMeta { order, ..m }),
        None => v,
    }
}

/// The elements with the children of `parent` counted from zero on each side,
/// and so on down to `depth` levels.
pub open spec fn reindexed(v: Seq<Item>, parent: u64, depth: nat) -> Seq<Item>
    decreases depth, 1int, 0int,
{
    if depth == 0 {
        v
    } else {
        let d = (depth - 1) as nat;
        let l = counted(v, children(v, parent, MindMapSide::Left), 0, d);
        counted(l, children(l, parent, MindMapSide::Right), 0, d)
    }
}

/// The elements with the listed nodes, from `i` on, counted, and what is under
/// them.
pub open spec fn counted(v: Seq<Item>, nodes: Seq<u64>, i: int, depth: nat) -> Seq<Item>
    decreases depth, 2int, nodes.len() - i,
{
    if i < 0 || i >= nodes.len() {
        v
    } else {
        counted(
            reindexed(placed(v, nodes[i], i as usize), nodes[i], depth),
            nodes,
            i + 1,
            depth,
        )
    }
}

/// The elements once a root grows in another direction.
pub open spec fn redirected(
    v: Seq<Item>,
    root: u64,
    direction: MindMapRootDirection,
    ranks: Seq<Rank>,
) -> Seq<Item> {
    let a = match meta_of(v, root) {
        Some(m) => with_meta(v, root, MindMapNodeMeta { root_direction: direction, ..m }),
        None => v,
    };
    let b = all_sided(a, children_by_place(a, root, ranks), direction, 0);
    map_synced(reindexed(b, root, b.len()), root)
}

/// A sibling moved on to make room at `from`.
pub open spec fn bumped(e: Item, parent: u64, side: MindMapSide, from: usize) -> Item {
    if is_child(e, parent, Some(side)) && (e.mindmap->0).order >= from {
        Item {
            mindmap: Some(
                MindMapNodeMeta {
                    order: ((e.mindmap->0).order + 1) as usize,
                    ..e.mindmap->0
                },
            ),
            ..e
        }
    } else {
        e
    }
}

/// The elements with room at `from` among the children of `parent` on a side.
pub open spec fn all_bumped(v: Seq<Item>, parent: u64, side: MindMapSide, from: usize) -> Seq<Item> {
    v.map_values(|e: Item| bumped(e, parent, side, from))
}

/// The outline of mind-map nodes and links.
pub const MINDMAP_STROKE: u32 = 0x2563ebff;

/// The inside of mind-map nodes.
pub const NODE_FILL: u32 = 0xffffffff;

/// The text of nodes.
pub const NODE_TEXT: u32 = 0x0f172aff;

/// A new node of a mind map.
pub open spec fn fresh_node(
    id: u64,
    place: u64,
    fill: u32,
    label: Seq<char>,
    parent: Option<u64>,
    side: MindMapSide,
    order: usize,
) -> Item {
    Item {
        id,
        kind: ElementKind::RoundRect,
        place,
        stroke: Some(MINDMAP_STROKE),
        fill: Some(fill),
        label: Some(label),
        label_color: Some(NODE_TEXT),
        styles: Seq::empty(),
        mindmap: Some(
            MindMapNodeMeta {
                parent,
                side,
                order,
                root_direction: MindMapRootDirection::Both,
                connector_style: MindMapConnectorStyle::Bezier,
            },
        ),
    }
}

/// A new arrow from the side of one element to the side of another.
pub open spec fn fresh_arrow(
    id: u64,
    place: u64,
    stroke: u32,
    from: SegmentAnchor,
    to: SegmentAnchor,
) -> Item {
    Item {
        id,
        kind: ElementKind::Arrow(
            Segment {
                style: crate::scene::SegmentStyle::Solid,
                start_anchor: Some(from),
                end_anchor: Some(to),
            },
        ),
        place,
        stroke: Some(stroke),
        fill: None,
        label: None,
        label_color: None,
        styles: Seq::empty(),
        mindmap: None,
    }
}

/// The elements with a new node and its link.
pub open spec fn grown(
    v: Seq<Item>,
    parent: u64,
    side: MindMapSide,
    order: usize,
    label: Seq<char>,
    id: u64,
    node_place: u64,
    line_place: u64,
) -> Seq<Item> {
    let a = all_bumped(v, parent, side, order).push(
        fresh_node(id, node_place, NODE_FILL, label, Some(parent), side, order),
    ).push(
        fresh_arrow(
            (id + 1) as u64,
            line_place,
            MINDMAP_STROKE,
            SegmentAnchor { element_id: parent, connector: parent_connector(side) },
            SegmentAnchor { element_id: id, connector: child_connector(side) },
        ),
    );
    match root_of(a, parent) {
        Some(r) => map_synced(a, r),
        None => a,
    }
}

/// Where a node that is added beside or under another goes: its parent, its
/// side and its place in the order.
pub open spec fn slot_for(v: Seq<Item>, source: u64, sibling: bool) -> Option<(u64, MindMapSide, int)> {
    match meta_of(v, source) {
        None => None,
        Some(m) => if sibling {
            match m.parent {
                Some(p) => Some((p, m.side, m.order + 1)),
                None => Some(
                    (
                        source,
                        MindMapSide::Right,
                        children(v, source, MindMapSide::Right).len() as int,
                    ),
                ),
            }
        } else {
            Some((source, m.side, children(v, source, m.side).len() as int))
        },
    }
}

/// How a link is drawn: as its map says, where both ends are in the same map.
pub open spec fn link_style(v: Seq<Item>, k: ElementKind<Seq<char>>) -> Option<MindMapConnectorStyle> {
    match segment_in(k) {
        None => None,
        Some(s) => match (s.start_anchor, s.end_anchor) {
            (Some(a), Some(b)) => {
                let r = root_of(v, a.element_id);
                if r is Some && r == root_of(v, b.element_id) {
                    Some(style_of_root(v, r->0))
                } else {
                    None
                }
            },
            _ => None,
        },
    }
}

/// How the links under a root are drawn.
pub open spec fn style_of_root(v: Seq<Item>, root: u64) -> MindMapConnectorStyle {
    match meta_of(v, root) {
        Some(m) => m.connector_style,
        None => MindMapConnectorStyle::Bezier,
    }
}

/// The direction that a root grows in.
pub open spec fn direction_of(v: Seq<Item>, root: u64) -> MindMapRootDirection {
    match meta_of(v, root) {
        Some(m) => m.root_direction,
        None => MindMapRootDirection::Both,
    }
}

/// The nodes under `node`, in the order in which they are laid out, down to
/// `depth` levels. Nothing is laid out beside an element without a box.
pub open spec fn laid_out(v: Seq<Item>, node: u64, depth: nat) -> Seq<LayoutStep>
    decreases depth, 1int, 0int,
{
    if depth == 0 {
        Seq::empty()
    } else {
        let d = (depth - 1) as nat;
        let boxed = match item_of(v, node) {
            Some(e) => is_boxed(e.kind),
            None => false,
        };
        if boxed {
            laid_side(v, node, MindMapSide::Left, children(v, node, MindMapSide::Left), 0, d)
                + laid_side(v, node, MindMapSide::Right, children(v, node, MindMapSide::Right), 0, d)
        } else {
            Seq::empty()
        }
    }
}

/// The listed children of `node`, from `i` on, each with what is under it.
pub open spec fn laid_side(
    v: Seq<Item>,
    node: u64,
    side: MindMapSide,
    nodes: Seq<u64>,
    i: int,
    depth: nat,
) -> Seq<LayoutStep>
    decreases depth, 2int, nodes.len() - i,
{
    if i < 0 || i >= nodes.len() {
        Seq::empty()
    } else {
        seq![LayoutStep { id: nodes[i], parent: node, side }] + laid_out(v, nodes[i], depth)
            + laid_side(v, node, side, nodes, i + 1, depth)
    }
}

// --- How it is done ---

fn key_leq(a: &Key, b: &Key) -> (r: bool)
    ensures
        r == key_le(*a, *b),
{
    a.y < b.y || (a.y == b.y && (a.x < b.x || (a.x == b.x && (a.order < b.order || (a.order == b.order
        && a.id <= b.id)))))
}

pub proof fn lemma_key_order()
    ensures
        vstd::relations::total_ordering(|a: Key, b: Key| key_le(a, b)),
{
}

/// Puts a key into its place among sorted ones.
fn insert_key(v: &mut Vec<Key>, k: Key)
    requires
        vstd::relations::sorted_by(old(v)@, |a: Key, b: Key| key_le(a, b)),
    ensures
        vstd::relations::sorted_by(final(v)@, |a: Key, b: Key| key_le(a, b)),
        final(v)@.to_multiset() == old(v)@.to_multiset().insert(k),
{
    let ghost w = v@;
    let mut i: usize = v.len();
    while i > 0 && !key_leq(&v[i - 1], &k)
        invariant
            i <= v@.len(),
            v@ == w,
            forall|j: int| i <= j < w.len() ==> !key_le(#[trigger] w[j], k),
        decreases i,
    {
        i -= 1;
    }
    v.insert(i, k);
    proof {
        let leq = |a: Key, b: Key| key_le(a, b);
        w.to_multiset_ensures();
        let r = v@;
        assert(r == w.insert(i as int, k));
        assert(r.remove(i as int) =~= w);
        r.to_multiset_ensures();
        assert(r.to_multiset() =~= w.to_multiset().insert(k));
        assert forall|a: int, b: int| 0 <= a < b < r.len() implies #[trigger] leq(r[a], r[b]) by {
            if a < i && b > i {
                assert(leq(w[a], w[b - 1]));
            } else if a > i {
                assert(leq(w[a - 1], w[b - 1]));
            } else if b < i {
                assert(leq(w[a], w[b]));
            } else if b == i {
                if a < i - 1 {
                    assert(leq(w[a], w[i - 1]));
                }
            } else {
                assert(!key_le(w[b - 1], k));
            }
        }
    }
}

/// The children of `parent`, on a side or on either, by their keys.
fn child_ids(v: &Vec<Element>, parent: u64, side: Option<MindMapSide>, ranks: &Vec<Rank>) -> (r: Vec<
    u64,
>)
    ensures
        r@ == key_ids(sorted(keys_upto(items(v@), parent, side, ranks@, v@.len() as int))),
{
    let ghost all = items(v@);
    let ghost leq = |a: Key, b: Key| key_le(a, b);
    let mut keys: Vec<Key> = Vec::new();
    let mut i: usize = 0;
    proof {
        keys@.to_multiset_ensures();
    }
    while i < v.len()
        invariant
            i <= v@.len(),
            all == items(v@),
            leq == (|a: Key, b: Key| key_le(a, b)),
            vstd::relations::sorted_by(keys@, leq),
            keys@.to_multiset() == keys_upto(all, parent, side, ranks@, i as int).to_multiset(),
        decreases v.len() - i,
    {
        assert(all[i as int] == v@[i as int]@);
        proof {
            keys_upto(all, parent, side, ranks@, i as int).to_multiset_ensures();
        }
        match v[i].mindmap {
            Some(m) => {
                let fits = match side {
                    None => true,
                    Some(s) => s == m.side,
                };
                if m.parent == Some(parent) && fits {
                    let (y, x) = rank_at(ranks, v[i].id);
                    insert_key(&mut keys, Key { y, x, order: m.order, id: v[i].id });
                }
            },
            None => {},
        }
        i += 1;
    }
    proof {
        lemma_key_order();
        let want = keys_upto(all, parent, side, ranks@, all.len() as int);
        want.lemma_sort_by_ensures(leq);
        vstd::seq_lib::lemma_sorted_unique(keys@, sorted(want), leq);
    }
    let mut r: Vec<u64> = Vec::new();
    let mut j: usize = 0;
    while j < keys.len()
        invariant
            j <= keys@.len(),
            r@ == key_ids(keys@).take(j as int),
        decreases keys.len() - j,
    {
        proof {
            assert(key_ids(keys@).take(j + 1) =~= key_ids(keys@).take(j as int).push(keys@[j as int].id));
        }
        r.push(keys[j].id);
        j += 1;
    }
    assert(key_ids(keys@).take(keys@.len() as int) =~= key_ids(keys@));
    r
}

fn rank_at(ranks: &Vec<Rank>, id: u64) -> (r: (i64, i64))
    ensures
        r == rank_from(ranks@, id, 0),
{
    let mut i: usize = 0;
    while i < ranks.len()
        invariant
            i <= ranks@.len(),
            rank_from(ranks@, id, 0) == rank_from(ranks@, id, i as int),
        decreases ranks.len() - i,
    {
        if ranks[i].id == id {
            return (ranks[i].y, ranks[i].x);
        }
        i += 1;
    }
    (0, 0)
}

pub(crate) fn meta_at(v: &Vec<Element>, id: u64) -> (r: Option<MindMapNodeMeta>)
    ensures
        r == meta_of(items(v@), id),
{
    match find_element(v, id) {
        Some(i) => {
            assert(items(v@)[i as int] == v@[i as int]@);
            v[i].mindmap
        },
        None => None,
    }
}

pub(crate) fn root_at(v: &Vec<Element>, id: u64) -> (r: Option<u64>)
    ensures
        r == root_of(items(v@), id),
{
    let mut current: u64 = id;
    let mut fuel: usize = v.len();
    while fuel > 0
        invariant
            root_of(items(v@), id) == root_within(items(v@), current, fuel as nat),
        decreases fuel,
    {
        match meta_at(v, current) {
            None => {
                return None;
            },
            Some(m) => match m.parent {
                None => {
                    return Some(current);
                },
                Some(p) => {
                    current = p;
                },
            },
        }
        fuel -= 1;
    }
    None
}

fn set_meta(v: &mut Vec<Element>, id: u64, m: MindMapNodeMeta)
    ensures
        items(final(v)@) == with_meta(items(old(v)@), id, m),
{
    match find_element(v, id) {
        Some(i) => {
            let ghost w = v@;
            assert(items(v@)[i as int] == v@[i as int]@);
            match v[i].mindmap {
                Some(_) => {
                    v[i].mindmap = Some(m);
                    assert(items(v@) =~= items(w).update(i as int, v@[i as int]@));
                },
                None => {},
            }
        },
        None => {},
    }
}

fn retie(x: Option<SegmentAnchor>, parent: u64, child: u64, side: MindMapSide) -> (r: Option<
    SegmentAnchor,
>)
    ensures
        r == retied(x, parent, child, side),
{
    match x {
        Some(a) => if a.element_id == parent {
            let connector: usize = match side {
                MindMapSide::Right => 1,
                MindMapSide::Left => 3,
            };
            Some(SegmentAnchor { element_id: a.element_id, connector })
        } else if a.element_id == child {
            let connector: usize = match side {
                MindMapSide::Right => 3,
                MindMapSide::Left => 1,
            };
            Some(SegmentAnchor { element_id: a.element_id, connector })
        } else {
            Some(a)
        },
        None => None,
    }
}

/// Puts a line in the place of another, keeping what it is.
pub(crate) fn set_segment(e: &mut Element, s: Segment)
    ensures
        final(e)@ == (Item { kind: with_segment(old(e)@.kind, s), ..old(e)@ }),
{
    match e.kind {
        ElementKind::Line(_) => {
            e.kind = ElementKind::Line(s);
        },
        ElementKind::Arrow(_) => {
            e.kind = ElementKind::Arrow(s);
        },
        _ => {},
    }
}

fn sync_link(v: &mut Vec<Element>, child: u64)
    ensures
        items(final(v)@) == link_synced(items(old(v)@), child),
{
    let m = match meta_at(v, child) {
        Some(m) => m,
        None => {
            return;
        },
    };
    let parent = match m.parent {
        Some(p) => p,
        None => {
            return;
        },
    };
    let ghost all = items(v@);
    let ghost want = all.map_values(|e: Item| relinked(e, parent, child, m.side));
    let mut i: usize = 0;
    while i < v.len()
        invariant
            i <= v@.len(),
            v@.len() == all.len(),
            want == all.map_values(|e: Item| relinked(e, parent, child, m.side)),
            forall|k: int|
                #![trigger items(v@)[k]]
                0 <= k < all.len() ==> items(v@)[k] == if k < i {
                    want[k]
                } else {
                    all[k]
                },
        decreases v.len() - i,
    {
        let ghost before = v@;
        assert(items(v@)[i as int] == v@[i as int]@);
        match segment_of(&v[i].kind) {
            Some(s) => {
                let tied = match (s.start_anchor, s.end_anchor) {
                    (Some(x), Some(y)) => (x.element_id == parent && y.element_id == child) || (
                    x.element_id == child && y.element_id == parent),
                    _ => false,
                };
                if tied {
                    let t = Segment {
                        style: s.style,
                        start_anchor: retie(s.start_anchor, parent, child, m.side),
                        end_anchor: retie(s.end_anchor, parent, child, m.side),
                    };
                    set_segment(&mut v[i], t);
                }
            },
            None => {},
        }
        proof {
            assert(v@[i as int]@ == want[i as int]);
            assert forall|k: int|
                #![trigger items(v@)[k]]
                0 <= k < all.len() implies items(v@)[k] == if k < i + 1 {
                want[k]
            } else {
                all[k]
            } by {
                assert(items(before)[k] == before[k]@);
                assert(items(v@)[k] == v@[k]@);
            }
        }
        i += 1;
    }
    assert(items(v@) =~= want);
}

fn sync_links(v: &mut Vec<Element>, nodes: &Vec<u64>)
    ensures
        items(final(v)@) == links_synced(items(old(v)@), nodes@, 0),
{
    let ghost want = links_synced(items(v@), nodes@, 0);
    let mut i: usize = 0;
    while i < nodes.len()
        invariant
            i <= nodes@.len(),
            want == links_synced(items(v@), nodes@, i as int),
        decreases nodes.len() - i,
    {
        sync_link(v, nodes[i]);
        i += 1;
    }
}

/// The nodes under a root, in paint order.
fn collect_under(v: &Vec<Element>, root: u64) -> (r: Vec<u64>)
    ensures
        r@ == nodes_under(items(v@), root, v@.len() as int),
{
    let mut r: Vec<u64> = Vec::new();
    let mut i: usize = 0;
    while i < v.len()
        invariant
            i <= v@.len(),
            r@ == nodes_under(items(v@), root, i as int),
        decreases v.len() - i,
    {
        assert(items(v@)[i as int] == v@[i as int]@);
        match v[i].mindmap {
            Some(m) => {
                if m.parent.is_some() && root_at(v, v[i].id) == Some(root) {
                    r.push(v[i].id);
                }
            },
            None => {},
        }
        i += 1;
    }
    r
}

pub(crate) fn sync_map(v: &mut Vec<Element>, root: u64) -> (changed: Vec<u64>)
    ensures
        items(final(v)@) == map_synced(items(old(v)@), root),
        changed@ == nodes_under(items(old(v)@), root, old(v)@.len() as int),
{
    let nodes = collect_under(v, root);
    assert(items(v@).len() == v@.len());
    sync_links(v, &nodes);
    nodes
}

fn set_side(v: &mut Vec<Element>, id: u64, side: MindMapSide)
    ensures
        items(final(v)@) == sided(items(old(v)@), id, side),
{
    match meta_at(v, id) {
        Some(m) => {
            set_meta(v, id, MindMapNodeMeta { side, ..m });
            sync_link(v, id);
        },
        None => {},
    }
}

fn side_of(direction: MindMapRootDirection, i: usize) -> (r: MindMapSide)
    ensures
        r == side_for(direction, i as int),
{
    match direction {
        MindMapRootDirection::Left => MindMapSide::Left,
        MindMapRootDirection::Right => MindMapSide::Right,
        MindMapRootDirection::Both => if i % 2 == 0 {
            MindMapSide::Right
        } else {
            MindMapSide::Left
        },
    }
}

fn set_sides(v: &mut Vec<Element>, nodes: &Vec<u64>, direction: MindMapRootDirection)
    ensures
        items(final(v)@) == all_sided(items(old(v)@), nodes@, direction, 0),
{
    let ghost want = all_sided(items(v@), nodes@, direction, 0);
    let mut i: usize = 0;
    while i < nodes.len()
        invariant
            i <= nodes@.len(),
            want == all_sided(items(v@), nodes@, direction, i as int),
        decreases nodes.len() - i,
    {
        set_side(v, nodes[i], side_of(direction, i));
        i += 1;
    }
}

fn reindex(v: &mut Vec<Element>, parent: u64, depth: usize)
    ensures
        items(final(v)@) == reindexed(items(old(v)@), parent, depth as nat),
    decreases depth, 1int,
{
    if depth == 0 {
        return;
    }
    let none: Vec<Rank> = Vec::new();
    assert(none@ =~= Seq::<Rank>::empty());
    assert(items(v@).len() == v@.len());
    let left = child_ids(v, parent, Some(MindMapSide::Left), &none);
    count_off(v, &left, depth - 1);
    assert(items(v@).len() == v@.len());
    let right = child_ids(v, parent, Some(MindMapSide::Right), &none);
    count_off(v, &right, depth - 1);
}

fn count_off(v: &mut Vec<Element>, nodes: &Vec<u64>, depth: usize)
    ensures
        items(final(v)@) == counted(items(old(v)@), nodes@, 0, depth as nat),
    decreases depth, 2int,
{
    let ghost want = counted(items(v@), nodes@, 0, depth as nat);
    let mut i: usize = 0;
    while i < nodes.len()
        invariant
            i <= nodes@.len(),
            want == counted(items(v@), nodes@, i as int, depth as nat),
        decreases nodes.len() - i,
    {
        match meta_at(v, nodes[i]) {
            Some(m) => {
                set_meta(v, nodes[i], MindMapNodeMeta { order: i, ..m });
            },
            None => {},
        }
        reindex(v, nodes[i], depth);
        i += 1;
    }
}

pub(crate) fn bump(v: &mut Vec<Element>, parent: u64, side: MindMapSide, from: usize)
    requires
        forall|i: int|
            0 <= i < old(v)@.len() ==> ((#[trigger] old(v)@[i]).mindmap matches Some(m) ==> m.order
                < usize::MAX),
    ensures
        items(final(v)@) == all_bumped(items(old(v)@), parent, side, from),
{
    let ghost all = items(v@);
    let ghost first = v@;
    let ghost want = all_bumped(all, parent, side, from);
    let mut i: usize = 0;
    while i < v.len()
        invariant
            i <= v@.len(),
            v@.len() == all.len(),
            all == items(first),
            want == all_bumped(all, parent, side, from),
            forall|k: int|
                0 <= k < first.len() ==> ((#[trigger] first[k]).mindmap matches Some(m) ==> m.order
                    < usize::MAX),
            forall|k: int|
                #![trigger items(v@)[k]]
                0 <= k < all.len() ==> items(v@)[k] == if k < i {
                    want[k]
                } else {
                    all[k]
                },
        decreases v.len() - i,
    {
        let ghost before = v@;
        assert(items(v@)[i as int] == v@[i as int]@);
        assert(all[i as int] == first[i as int]@);
        match v[i].mindmap {
            Some(m) => {
                if m.parent == Some(parent) && m.side == side && m.order >= from {
                    v[i].mindmap = Some(MindMapNodeMeta { order: m.order + 1, ..m });
                }
            },
            None => {},
        }
        proof {
            assert(v@[i as int]@ == want[i as int]);
            assert forall|k: int|
                #![trigger items(v@)[k]]
                0 <= k < all.len() implies items(v@)[k] == if k < i + 1 {
                want[k]
            } else {
                all[k]
            } by {
                assert(items(before)[k] == before[k]@);
                assert(items(v@)[k] == v@[k]@);
            }
        }
        i += 1;
    }
    assert(items(v@) =~= want);
}

fn lay_out(v: &Vec<Element>, node: u64, depth: usize, out: &mut Vec<LayoutStep>)
    ensures
        final(out)@ == old(out)@ + laid_out(items(v@), node, depth as nat),
    decreases depth, 1int,
{
    if depth == 0 {
        assert(out@ + Seq::<LayoutStep>::empty() =~= out@);
        return;
    }
    let boxed = match find_element(v, node) {
        Some(i) => {
            assert(items(v@)[i as int] == v@[i as int]@);
            connector_capable(&v[i].kind)
        },
        None => false,
    };
    if !boxed {
        assert(out@ + Seq::<LayoutStep>::empty() =~= out@);
        return;
    }
    let none: Vec<Rank> = Vec::new();
    assert(none@ =~= Seq::<Rank>::empty());
    assert(items(v@).len() == v@.len());
    let ghost start = out@;
    let left = child_ids(v, node, Some(MindMapSide::Left), &none);
    lay_side(v, node, MindMapSide::Left, &left, depth - 1, out);
    let right = child_ids(v, node, Some(MindMapSide::Right), &none);
    lay_side(v, node, MindMapSide::Right, &right, depth - 1, out);
    assert(out@ =~= start + laid_out(items(v@), node, depth as nat));
}

fn lay_side(
    v: &Vec<Element>,
    node: u64,
    side: MindMapSide,
    nodes: &Vec<u64>,
    depth: usize,
    out: &mut Vec<LayoutStep>,
)
    ensures
        final(out)@ == old(out)@ + laid_side(items(v@), node, side, nodes@, 0, depth as nat),
    decreases depth, 2int,
{
    let ghost want = out@ + laid_side(items(v@), node, side, nodes@, 0, depth as nat);
    let mut i: usize = 0;
    while i < nodes.len()
        invariant
            i <= nodes@.len(),
            want == out@ + laid_side(items(v@), node, side, nodes@, i as int, depth as nat),
        decreases nodes.len() - i,
    {
        let step = LayoutStep { id: nodes[i], parent: node, side };
        let ghost before = out@;
        out.push(step);
        lay_out(v, nodes[i], depth, out);
        proof {
            let rest = laid_side(items(v@), node, side, nodes@, i + 1, depth as nat);
            assert(out@ + rest =~= before + (seq![step] + laid_out(
                items(v@),
                nodes@[i as int],
                depth as nat,
            ) + rest));
        }
        i += 1;
    }
    assert(out@ + Seq::<LayoutStep>::empty() =~= out@);
}

impl WhiteboardView {
    /// The mind-map node that an id stands for.
    pub fn mindmap_meta(&self, id: u64) -> (r: Option<MindMapNodeMeta>)
        ensures
            r == meta_of(self@.scene.elements, id),
    {
        meta_at(&self.scene.elements, id)
    }

    /// Whether an id stands for a mind-map node.
    pub fn is_mindmap_node(&self, id: u64) -> (r: bool)
        ensures
            r == meta_of(self@.scene.elements, id) is Some,
    {
        meta_at(&self.scene.elements, id).is_some()
    }

    /// Whether an id stands for the root of a mind map.
    pub fn is_mindmap_root(&self, id: u64) -> (r: bool)
        ensures
            r == (meta_of(self@.scene.elements, id) matches Some(m) && m.parent is None),
    {
        match meta_at(&self.scene.elements, id) {
            Some(m) => m.parent.is_none(),
            None => false,
        }
    }

    /// The root that is the only thing selected.
    pub fn selected_mindmap_root(&self) -> (r: Option<u64>)
        ensures
            r == (match lone(self@.selected) {
                Some(id) => match meta_of(self@.scene.elements, id) {
                    Some(m) => if m.parent is None {
                        Some(id)
                    } else {
                        None
                    },
                    None => None,
                },
                None => None,
            }),
    {
        match self.selected_single() {
            Some(id) => if self.is_mindmap_root(id) {
                Some(id)
            } else {
                None
            },
            None => None,
        }
    }

    /// The direction that a root grows in.
    pub fn mindmap_root_direction(&self, root_id: u64) -> (r: MindMapRootDirection)
        ensures
            r == direction_of(self@.scene.elements, root_id),
    {
        match meta_at(&self.scene.elements, root_id) {
            Some(m) => m.root_direction,
            None => MindMapRootDirection::Both,
        }
    }

    /// How the links under a root are drawn.
    pub fn mindmap_connector_style_for_root(&self, root_id: u64) -> (r: MindMapConnectorStyle)
        ensures
            r == style_of_root(self@.scene.elements, root_id),
    {
        match meta_at(&self.scene.elements, root_id) {
            Some(m) => m.connector_style,
            None => MindMapConnectorStyle::Bezier,
        }
    }

    /// The root of the map that a node is in.
    pub fn mindmap_root_of(&self, id: u64) -> (r: Option<u64>)
        ensures
            r == root_of(self@.scene.elements, id),
    {
        root_at(&self.scene.elements, id)
    }

    /// The children of a node on one side, by their place in the order.
    pub fn mindmap_children(&self, parent: u64, side: MindMapSide) -> (r: Vec<u64>)
        ensures
            r@ == children(self@.scene.elements, parent, side),
    {
        let none: Vec<Rank> = Vec::new();
        assert(none@ =~= Seq::<Rank>::empty());
        assert(items(self.scene.elements@).len() == self.scene.elements@.len());
        child_ids(&self.scene.elements, parent, Some(side), &none)
    }

    /// The children of a node on both sides, by where they lie.
    pub fn ordered_mindmap_children(&self, parent: u64, ranks: &Vec<Rank>) -> (r: Vec<u64>)
        ensures
            r@ == children_by_place(self@.scene.elements, parent, ranks@),
    {
        assert(items(self.scene.elements@).len() == self.scene.elements@.len());
        child_ids(&self.scene.elements, parent, None, ranks)
    }

    /// Lets a root grow in another direction: its children take sides by where
    /// they lie, siblings are counted anew and links follow. Returns the nodes
    /// to lay out.
    pub fn set_mindmap_root_direction(
        &mut self,
        root_id: u64,
        direction: MindMapRootDirection,
        ranks: &Vec<Rank>,
    ) -> (r: Vec<LayoutStep>)
        ensures
            final(self)@ == (BoardState {
                scene: SceneView {
                    elements: redirected(old(self)@.scene.elements, root_id, direction, ranks@),
                    ..old(self)@.scene
                },
                ..old(self)@
            }),
            r@ == laid_out(final(self)@.scene.elements, root_id, final(self)@.scene.elements.len()),
    {
        match meta_at(&self.scene.elements, root_id) {
            Some(m) => {
                set_meta(
                    &mut self.scene.elements,
                    root_id,
                    MindMapNodeMeta { root_direction: direction, ..m },
                );
            },
            None => {},
        }
        assert(items(self.scene.elements@).len() == self.scene.elements@.len());
        let nodes = child_ids(&self.scene.elements, root_id, None, ranks);
        set_sides(&mut self.scene.elements, &nodes, direction);
        assert(items(self.scene.elements@).len() == self.scene.elements@.len());
        let n: usize = self.scene.elements.len();
        reindex(&mut self.scene.elements, root_id, n);
        let _changed = sync_map(&mut self.scene.elements, root_id);
        self.mindmap_layout(root_id)
    }

    /// The nodes under a root, in the order in which they are laid out.
    pub fn mindmap_layout(&self, root_id: u64) -> (r: Vec<LayoutStep>)
        ensures
            r@ == laid_out(self@.scene.elements, root_id, self@.scene.elements.len()),
    {
        let mut out: Vec<LayoutStep> = Vec::new();
        assert(items(self.scene.elements@).len() == self.scene.elements@.len());
        let n: usize = self.scene.elements.len();
        lay_out(&self.scene.elements, root_id, n, &mut out);
        assert(Seq::<LayoutStep>::empty() + laid_out(self@.scene.elements, root_id, n as nat)
            =~= laid_out(self@.scene.elements, root_id, n as nat));
        out
    }

    /// Sets how the links under a root are drawn.
    pub fn set_mindmap_connector_style(&mut self, root_id: u64, style: MindMapConnectorStyle)
        ensures
            final(self)@ == (BoardState {
                scene: SceneView {
                    elements: match meta_of(old(self)@.scene.elements, root_id) {
                        Some(m) => with_meta(
                            old(self)@.scene.elements,
                            root_id,
                            MindMapNodeMeta { connector_style: style, ..m },
                        ),
                        None => old(self)@.scene.elements,
                    },
                    ..old(self)@.scene
                },
                ..old(self)@
            }),
    {
        match meta_at(&self.scene.elements, root_id) {
            Some(m) => {
                set_meta(
                    &mut self.scene.elements,
                    root_id,
                    MindMapNodeMeta { connector_style: style, ..m },
                );
            },
            None => {},
        }
    }

    /// How a line is drawn: as its map says, where both ends are in the same map.
    pub fn mindmap_connector_style_for_element(&self, kind: &ElementKind<String>) -> (r: Option<
        MindMapConnectorStyle,
    >)
        ensures
            r == link_style(self@.scene.elements, crate::scene::kind_view(*kind)),
    {
        match segment_of(kind) {
            None => None,
            Some(s) => match (s.start_anchor, s.end_anchor) {
                (Some(a), Some(b)) => {
                    match (self.mindmap_root_of(a.element_id), self.mindmap_root_of(b.element_id)) {
                        (Some(x), Some(y)) => if x == y {
                            Some(self.mindmap_connector_style_for_root(x))
                        } else {
                            None
                        },
                        _ => None,
                    }
                },
                _ => None,
            },
        }
    }
}

} // verus!
