//! What holds of mind maps that grow: where a new node goes, and what a change
//! of direction does.
use crate::board::{law_undo_restores, undone, BoardState};
use crate::board_laws::{law_children_take_sides, lemma_index_of_same, lemma_sided};
use crate::diagrams::{has_room, node_added};
use crate::drags::ids_differ;
use crate::mindmap::{all_bumped, all_sided, bumped, children_by_place, counted, is_child};
use crate::mindmap::{keys_upto, link_synced, links_synced, map_synced, meta_of, nodes_under};
use crate::mindmap::{placed, redirected, reindexed, relinked, root_of, side_for, sided, slot_for};
use crate::mindmap::{children, sorted, with_meta, Key, Rank};
use crate::scene::{index_of, lemma_index_from, segment_in, ElementKind, Item};
use crate::scene::{MindMapNodeMeta, MindMapRootDirection, MindMapSide, SegmentAnchor};
use vstd::prelude::*;

verus! {

// --- What stays ---

/// Whether an end of a line is tied to what it was, if on another side.
pub open spec fn same_end(a: Option<SegmentAnchor>, b: Option<SegmentAnchor>) -> bool {
    match a {
        Some(x) => b matches Some(y) && x.element_id == y.element_id,
        None => b is None,
    }
}

/// Whether an element stays, but for the sides of others that a line ends at.
pub open spec fn keeps(a: Item, b: Item) -> bool {
    &&& b == (Item { kind: b.kind, ..a })
    &&& match a.kind {
        ElementKind::Line(s) => b.kind matches ElementKind::Line(t) && t.style == s.style && same_end(
            s.start_anchor,
            t.start_anchor,
        ) && same_end(s.end_anchor, t.end_anchor),
        ElementKind::Arrow(s) => b.kind matches ElementKind::Arrow(t) && t.style == s.style
            && same_end(s.start_anchor, t.start_anchor) && same_end(s.end_anchor, t.end_anchor),
        _ => b.kind == a.kind,
    }
}

/// Whether all elements stay so.
pub open spec fn all_keep(v: Seq<Item>, w: Seq<Item>) -> bool {
    v.len() == w.len() && forall|k: int| 0 <= k < v.len() ==> keeps(#[trigger] v[k], w[k])
}

proof fn lemma_synced_keeps(v: Seq<Item>, child: u64)
    ensures
        all_keep(v, link_synced(v, child)),
{
    let w = link_synced(v, child);
    assert forall|k: int| 0 <= k < v.len() implies keeps(#[trigger] v[k], w[k]) by {
        if let Some(m) = meta_of(v, child) {
            if let Some(p) = m.parent {
                assert(w[k] == relinked(v[k], p, child, m.side));
            }
        }
    }
}

proof fn lemma_keeps_twice(u: Seq<Item>, v: Seq<Item>, w: Seq<Item>)
    requires
        all_keep(u, v),
        all_keep(v, w),
    ensures
        all_keep(u, w),
{
    assert forall|k: int| 0 <= k < u.len() implies keeps(#[trigger] u[k], w[k]) by {
        assert(keeps(u[k], v[k]));
        assert(keeps(v[k], w[k]));
    }
}

proof fn lemma_links_keep(v: Seq<Item>, nodes: Seq<u64>, i: int)
    ensures
        all_keep(v, links_synced(v, nodes, i)),
    decreases nodes.len() - i,
{
    if 0 <= i < nodes.len() {
        let w = link_synced(v, nodes[i]);
        lemma_synced_keeps(v, nodes[i]);
        lemma_links_keep(w, nodes, i + 1);
        lemma_keeps_twice(v, w, links_synced(w, nodes, i + 1));
    }
}

proof fn lemma_map_keeps(v: Seq<Item>, root: u64)
    ensures
        all_keep(v, map_synced(v, root)),
{
    lemma_links_keep(v, nodes_under(v, root, v.len() as int), 0);
}

proof fn lemma_meta_kept(v: Seq<Item>, w: Seq<Item>, id: u64)
    requires
        all_keep(v, w),
    ensures
        meta_of(w, id) == meta_of(v, id),
        index_of(w, id) == index_of(v, id),
{
    assert forall|k: int| 0 <= k < v.len() implies (#[trigger] v[k]).id == w[k].id by {
        assert(keeps(v[k], w[k]));
    }
    lemma_index_of_same(v, w, id, 0);
    lemma_index_from(v, id, 0);
    if let Some(i) = index_of(v, id) {
        assert(keeps(v[i], w[i]));
    }
}

// --- Growing ---

/// A node that is added under a node of a mind map is its child, on its side; one
/// that is added beside a node has the same parent and side and comes right
/// behind it, with all that came behind moved on; beside a root it is a child on
/// the right. It is linked to its parent, selected and edited, and nothing else
/// of the scene changes but the order of its siblings and the sides that lines
/// end at.
pub proof fn law_a_node_is_added_beside_or_under(
    b: BoardState,
    source: u64,
    sibling: bool,
    node_place: u64,
    line_place: u64,
    m: MindMapNodeMeta,
)
    requires
        meta_of(b.scene.elements, source) == Some(m),
        has_room(b.scene.elements),
        forall|k: int|
            0 <= k < b.scene.elements.len() ==> (#[trigger] b.scene.elements[k]).id < b.next_id,
        b.next_id + 2 <= u64::MAX,
        children(b.scene.elements, source, MindMapSide::Left).len() <= usize::MAX,
        children(b.scene.elements, source, MindMapSide::Right).len() <= usize::MAX,
    ensures
        ({
            let v = b.scene.elements;
            let r = node_added(b, source, sibling, node_place, line_place);
            let w = r.scene.elements;
            let n = v.len() as int;
            let parent = if sibling && m.parent is Some {
                m.parent->0
            } else {
                source
            };
            let side = if sibling && m.parent is None {
                MindMapSide::Right
            } else {
                m.side
            };
            &&& w.len() == n + 2
            &&& w[n].id == b.next_id
            &&& w[n].place == node_place
            &&& w[n].label == Some(Seq::<char>::empty())
            &&& w[n].mindmap matches Some(x) && x.parent == Some(parent) && x.side == side && (sibling
                && m.parent is Some ==> x.order == m.order + 1)
            &&& w[n + 1].id == b.next_id + 1
            &&& w[n + 1].place == line_place
            &&& w[n + 1].kind matches ElementKind::Arrow(s) && (s.start_anchor matches Some(a)
                && a.element_id == parent) && (s.end_anchor matches Some(a) && a.element_id
                == b.next_id)
            &&& forall|k: int|
                0 <= k < n ==> {
                    &&& (#[trigger] w[k]).id == v[k].id
                    &&& w[k].place == v[k].place
                    &&& w[k].label == v[k].label
                    &&& segment_in(v[k].kind) is None ==> w[k].kind == v[k].kind
                    &&& (w[k].mindmap is Some) == (v[k].mindmap is Some)
                    &&& v[k].mindmap matches Some(x) ==> w[k].mindmap == Some(
                        MindMapNodeMeta {
                            order: (if x.parent == Some(parent) && x.side == side && x.order
                                >= (w[n].mindmap->0).order {
                                x.order + 1
                            } else {
                                x.order as int
                            }) as usize,
                            ..x
                        },
                    )
                }
            &&& r.selected == seq![b.next_id]
            &&& r.ui.edit.editing == Some(b.next_id)
            &&& r.next_id == b.next_id + 2
            &&& undone(r).scene == b.scene
        }),
{
    let v = b.scene.elements;
    let r = node_added(b, source, sibling, node_place, line_place);
    let w = r.scene.elements;
    let n = v.len() as int;
    lemma_index_from(v, source, 0);
    assert(v[index_of(v, source)->0].mindmap == Some(m));
    let slot = slot_for(v, source, sibling)->0;
    let a = all_bumped(v, slot.0, slot.1, slot.2 as usize).push(
        crate::mindmap::fresh_node(
            b.next_id,
            node_place,
            crate::mindmap::NODE_FILL,
            Seq::empty(),
            Some(slot.0),
            slot.1,
            slot.2 as usize,
        ),
    ).push(
        crate::mindmap::fresh_arrow(
            (b.next_id + 1) as u64,
            line_place,
            crate::mindmap::MINDMAP_STROKE,
            SegmentAnchor {
                element_id: slot.0,
                connector: crate::mindmap::parent_connector(slot.1),
            },
            SegmentAnchor {
                element_id: b.next_id,
                connector: crate::mindmap::child_connector(slot.1),
            },
        ),
    );
    if let Some(root) = root_of(a, slot.0) {
        lemma_map_keeps(a, root);
        assert(w == map_synced(a, root));
    } else {
        assert(w == a);
    }
    assert(all_keep(a, w));
    assert(keeps(a[n], w[n]));
    assert(keeps(a[n + 1], w[n + 1]));
    assert forall|k: int| 0 <= k < n implies {
        &&& (#[trigger] w[k]).id == v[k].id
        &&& w[k].place == v[k].place
        &&& w[k].label == v[k].label
        &&& segment_in(v[k].kind) is None ==> w[k].kind == v[k].kind
        &&& (w[k].mindmap is Some) == (v[k].mindmap is Some)
        &&& v[k].mindmap matches Some(x) ==> w[k].mindmap == Some(
            MindMapNodeMeta {
                order: (if x.parent == Some(slot.0) && x.side == slot.1 && x.order
                    >= (w[n].mindmap->0).order {
                    x.order + 1
                } else {
                    x.order as int
                }) as usize,
                ..x
            },
        )
    } by {
        assert(a[k] == bumped(v[k], slot.0, slot.1, slot.2 as usize));
        assert(keeps(a[k], w[k]));
    }
    law_undo_restores(b, r);
}

// --- Another direction ---

/// Whether an element stays, but for its place among its siblings and the sides
/// that a line ends at.
pub open spec fn keeps_but_order(a: Item, b: Item) -> bool {
    match (a.mindmap, b.mindmap) {
        (Some(x), Some(y)) => y == (MindMapNodeMeta { order: y.order, ..x }) && keeps(
            a,
            Item { mindmap: a.mindmap, ..b },
        ),
        (None, None) => keeps(a, b),
        _ => false,
    }
}

/// Whether all elements stay so.
pub open spec fn all_keep_but_order(v: Seq<Item>, w: Seq<Item>) -> bool {
    v.len() == w.len() && forall|k: int| 0 <= k < v.len() ==> keeps_but_order(#[trigger] v[k], w[k])
}

proof fn lemma_order_twice(u: Seq<Item>, v: Seq<Item>, w: Seq<Item>)
    requires
        all_keep_but_order(u, v),
        all_keep_but_order(v, w),
    ensures
        all_keep_but_order(u, w),
{
    assert forall|k: int| 0 <= k < u.len() implies keeps_but_order(#[trigger] u[k], w[k]) by {
        assert(keeps_but_order(u[k], v[k]));
        assert(keeps_but_order(v[k], w[k]));
    }
}

proof fn lemma_placed_keeps(v: Seq<Item>, id: u64, order: usize)
    ensures
        all_keep_but_order(v, placed(v, id, order)),
{
    lemma_index_from(v, id, 0);
}

proof fn lemma_reindexed_keeps(v: Seq<Item>, parent: u64, depth: nat)
    ensures
        all_keep_but_order(v, reindexed(v, parent, depth)),
    decreases depth, 1int, 0int,
{
    if depth > 0 {
        let d = (depth - 1) as nat;
        let lefts = children(v, parent, MindMapSide::Left);
        let l = counted(v, lefts, 0, d);
        lemma_counted_keeps(v, lefts, 0, d);
        let rights = children(l, parent, MindMapSide::Right);
        lemma_counted_keeps(l, rights, 0, d);
        lemma_order_twice(v, l, counted(l, rights, 0, d));
    }
}

proof fn lemma_counted_keeps(v: Seq<Item>, nodes: Seq<u64>, i: int, depth: nat)
    ensures
        all_keep_but_order(v, counted(v, nodes, i, depth)),
    decreases depth, 2int, nodes.len() - i,
{
    if 0 <= i < nodes.len() {
        let p = placed(v, nodes[i], i as usize);
        let q = reindexed(p, nodes[i], depth);
        lemma_placed_keeps(v, nodes[i], i as usize);
        lemma_reindexed_keeps(p, nodes[i], depth);
        lemma_order_twice(v, p, q);
        lemma_counted_keeps(q, nodes, i + 1, depth);
        lemma_order_twice(v, q, counted(q, nodes, i + 1, depth));
    }
}

proof fn lemma_meta_but_order(v: Seq<Item>, w: Seq<Item>, id: u64)
    requires
        all_keep_but_order(v, w),
    ensures
        match meta_of(v, id) {
            Some(x) => meta_of(w, id) matches Some(y) && y == (MindMapNodeMeta {
                order: y.order,
                ..x
            }),
            None => meta_of(w, id) is None,
        },
{
    assert forall|k: int| 0 <= k < v.len() implies (#[trigger] v[k]).id == w[k].id by {
        assert(keeps_but_order(v[k], w[k]));
    }
    lemma_index_of_same(v, w, id, 0);
    lemma_index_from(v, id, 0);
    if let Some(i) = index_of(v, id) {
        assert(keeps_but_order(v[i], w[i]));
    }
}

/// A child of the root at index `i` of those listed by where they lie.
proof fn lemma_listed_child(v: Seq<Item>, root: u64, ranks: Seq<Rank>, id: u64)
    requires
        ids_differ(v),
        meta_of(v, id) matches Some(m) && m.parent == Some(root),
    ensures
        children_by_place(v, root, ranks).contains(id),
{
    let raw = keys_upto(v, root, None, ranks, v.len() as int);
    let keys = sorted(raw);
    let leq = |a: Key, b: Key| crate::mindmap::key_le(a, b);
    crate::mindmap::lemma_key_order();
    raw.lemma_sort_by_ensures(leq);
    lemma_index_from(v, id, 0);
    let i = index_of(v, id)->0;
    let key = crate::mindmap::key_of(v[i], ranks);
    assert(is_child(v[i], root, None));
    crate::board_laws::lemma_keys(v, root, None, ranks, v.len() as int);
    assert(raw.contains(key));
    raw.to_multiset_ensures();
    keys.to_multiset_ensures();
    assert(raw.to_multiset().count(key) > 0);
    assert(keys.to_multiset().count(key) > 0);
    assert(keys.contains(key));
    let ids = children_by_place(v, root, ranks);
    let j = keys.index_of(key);
    assert(ids[j] == id);
}

proof fn lemma_sides_all(
    v: Seq<Item>,
    nodes: Seq<u64>,
    direction: MindMapRootDirection,
    from: int,
    id: u64,
)
    requires
        direction != MindMapRootDirection::Both,
        0 <= from,
        meta_of(v, id) is Some,
        meta_of(v, id)->0.side == side_for(direction, 0) || exists|k: int|
            from <= k < nodes.len() && nodes[k] == id,
    ensures
        meta_of(all_sided(v, nodes, direction, from), id) matches Some(m) && m.side == side_for(
            direction,
            0,
        ) && m == (MindMapNodeMeta { side: m.side, ..meta_of(v, id)->0 }),
    decreases nodes.len() - from,
{
    if from < nodes.len() {
        let side = side_for(direction, from);
        lemma_sided(v, nodes[from], side, id);
        let w = sided(v, nodes[from], side);
        lemma_sides_all(w, nodes, direction, from + 1, id);
    }
}

/// A root that is told to grow to one side has all its children there, and
/// remembers the direction. Every element and every parent stays.
pub proof fn law_a_direction_moves_the_children(
    v: Seq<Item>,
    root: u64,
    direction: MindMapRootDirection,
    ranks: Seq<Rank>,
    id: u64,
)
    requires
        ids_differ(v),
        meta_of(v, root) matches Some(m) && m.parent != Some(root),
        meta_of(v, id) matches Some(m) && m.parent == Some(root),
    ensures
        ({
            let w = redirected(v, root, direction, ranks);
            let m = meta_of(v, id)->0;
            &&& meta_of(w, root) matches Some(x) && x.root_direction == direction && x.parent == (
            meta_of(v, root)->0).parent
            &&& meta_of(w, id) matches Some(x) && x.parent == Some(root) && (direction
                == MindMapRootDirection::Left ==> x.side == MindMapSide::Left) && (direction
                == MindMapRootDirection::Right ==> x.side == MindMapSide::Right)
        }),
{
    let m0 = meta_of(v, root)->0;
    let a = with_meta(v, root, MindMapNodeMeta { root_direction: direction, ..m0 });
    let nodes = children_by_place(a, root, ranks);
    let b = all_sided(a, nodes, direction, 0);
    let c = reindexed(b, root, b.len());
    let w = map_synced(c, root);
    assert(w == redirected(v, root, direction, ranks));
    lemma_index_from(v, root, 0);
    lemma_index_from(v, id, 0);
    assert forall|k: int| 0 <= k < v.len() implies (#[trigger] v[k]).id == a[k].id by {}
    lemma_index_of_same(v, a, root, 0);
    lemma_index_of_same(v, a, id, 0);
    assert(root != id);
    assert(meta_of(a, id) == meta_of(v, id));
    assert(ids_differ(a));
    lemma_listed_child(a, root, ranks, id);
    assert(nodes[nodes.index_of(id)] == id);
    if direction != MindMapRootDirection::Both {
        lemma_sides_all(a, nodes, direction, 0, id);
    }
    lemma_sides_parent(a, nodes, direction, 0, id);
    lemma_sides_parent(a, nodes, direction, 0, root);
    lemma_reindexed_keeps(b, root, b.len());
    lemma_meta_but_order(b, c, id);
    lemma_meta_but_order(b, c, root);
    lemma_map_keeps(c, root);
    lemma_meta_kept(c, w, id);
    lemma_meta_kept(c, w, root);
}

proof fn lemma_sides_parent(
    v: Seq<Item>,
    nodes: Seq<u64>,
    direction: MindMapRootDirection,
    from: int,
    id: u64,
)
    requires
        0 <= from,
        meta_of(v, id) is Some,
    ensures
        meta_of(all_sided(v, nodes, direction, from), id) matches Some(m) && m == (MindMapNodeMeta {
            side: m.side,
            ..meta_of(v, id)->0
        }),
    decreases nodes.len() - from,
{
    if from < nodes.len() {
        let side = side_for(direction, from);
        lemma_sided(v, nodes[from], side, id);
        lemma_sides_parent(sided(v, nodes[from], side), nodes, direction, from + 1, id);
    }
}

/// A root that is told to grow to both sides has its children right and left in
/// turn, by where they lie.
pub proof fn law_both_directions_alternate(
    v: Seq<Item>,
    root: u64,
    ranks: Seq<Rank>,
    nodes: Seq<u64>,
    i: int,
)
    requires
        ids_differ(v),
        meta_of(v, root) matches Some(m) && m.parent is None,
        nodes == children_by_place(
            with_meta(
                v,
                root,
                MindMapNodeMeta {
                    root_direction: MindMapRootDirection::Both,
                    ..meta_of(v, root)->0
                },
            ),
            root,
            ranks,
        ),
        nodes.no_duplicates(),
        0 <= i < nodes.len(),
        meta_of(v, nodes[i]) is Some,
    ensures
        meta_of(redirected(v, root, MindMapRootDirection::Both, ranks), nodes[i]) matches Some(m)
            && m.side == if i % 2 == 0 {
            MindMapSide::Right
        } else {
            MindMapSide::Left
        },
{
    let direction = MindMapRootDirection::Both;
    let m0 = meta_of(v, root)->0;
    let a = with_meta(v, root, MindMapNodeMeta { root_direction: direction, ..m0 });
    let b = all_sided(a, nodes, direction, 0);
    let c = reindexed(b, root, b.len());
    let id = nodes[i];
    lemma_index_from(v, root, 0);
    lemma_index_from(v, id, 0);
    assert forall|k: int| 0 <= k < v.len() implies (#[trigger] v[k]).id == a[k].id by {}
    lemma_index_of_same(v, a, id, 0);
    law_children_take_sides(a, nodes, direction, 0, i);
    lemma_reindexed_keeps(b, root, b.len());
    lemma_meta_but_order(b, c, id);
    lemma_map_keeps(c, root);
    lemma_meta_kept(c, map_synced(c, root), id);
}

} // verus!
