//! What holds of mind maps, diagrams and the editing of text.
use crate::board::{law_undo_restores, undone, BoardState};
use crate::diagrams::{diagram_added, diagram_items, diagram_len, mindmap_seed};
use crate::diagrams::{node_added, thing_added, Diagram};
use crate::editing::{committed, cut_out, finished, replaced, replaced_text, text_at};
use crate::mindmap::{all_bumped, all_sided, child_connector, is_child, key_le, key_of};
use crate::mindmap::{key_ids, keys_upto, link_synced, links, meta_of, parent_connector};
use crate::mindmap::{children, lemma_key_order, root_of, root_within, side_for, sided, sorted};
use crate::mindmap::{with_meta, Key, Rank};
use crate::scene::{index_from, index_of, is_boxed, item_of, lemma_index_from, segment_in, with_item};
use crate::scene::{ElementKind, Item, MindMapNodeMeta, MindMapRootDirection, MindMapSide};
use crate::text::{blank, blen, index_at, lemma_blen_concat, lemma_index_at, lemma_offset_mono};
use crate::text::{offset, on_boundary};
use vstd::prelude::*;

verus! {

// --- Mind maps ---

pub(crate) proof fn lemma_keys(v: Seq<Item>, parent: u64, side: Option<MindMapSide>, ranks: Seq<Rank>, n: int)
    requires
        0 <= n <= v.len(),
    ensures
        forall|k: Key|
            keys_upto(v, parent, side, ranks, n).contains(k) <==> exists|i: int|
                0 <= i < n && is_child(#[trigger] v[i], parent, side) && key_of(v[i], ranks) == k,
    decreases n,
{
    if n > 0 {
        lemma_keys(v, parent, side, ranks, n - 1);
        let rest = keys_upto(v, parent, side, ranks, n - 1);
        let all = keys_upto(v, parent, side, ranks, n);
        assert forall|k: Key|
            all.contains(k) <==> exists|i: int|
                0 <= i < n && is_child(#[trigger] v[i], parent, side) && key_of(v[i], ranks) == k by {
            if all.contains(k) {
                let j = all.index_of(k);
                if j < rest.len() {
                    assert(rest[j] == k);
                    assert(rest.contains(k));
                } else {
                    assert(is_child(v[n - 1], parent, side));
                }
            }
            if exists|i: int|
                0 <= i < n && is_child(#[trigger] v[i], parent, side) && key_of(v[i], ranks) == k {
                let i = choose|i: int|
                    0 <= i < n && is_child(#[trigger] v[i], parent, side) && key_of(v[i], ranks) == k;
                if i == n - 1 {
                    assert(all[rest.len() as int] == k);
                } else {
                    assert(rest.contains(k));
                    let j = rest.index_of(k);
                    assert(all[j] == k);
                }
            }
        }
    }
}

/// The children of a node are exactly the nodes that have it as their parent,
/// by their place in the order and, where that is the same, by their id.
pub proof fn law_children_in_order(v: Seq<Item>, parent: u64, side: MindMapSide)
    ensures
        ({
            let keys = sorted(keys_upto(v, parent, Some(side), Seq::empty(), v.len() as int));
            &&& children(v, parent, side) == key_ids(keys)
            &&& forall|i: int, j: int|
                #![trigger keys[i], keys[j]]
                0 <= i < j < keys.len() ==> key_le(keys[i], keys[j])
            &&& forall|k: Key|
                keys.contains(k) <==> exists|i: int|
                    0 <= i < v.len() && is_child(#[trigger] v[i], parent, Some(side)) && key_of(
                        v[i],
                        Seq::empty(),
                    ) == k
        }),
{
    let raw = keys_upto(v, parent, Some(side), Seq::empty(), v.len() as int);
    let keys = sorted(raw);
    let leq = |a: Key, b: Key| key_le(a, b);
    lemma_key_order();
    raw.lemma_sort_by_ensures(leq);
    lemma_keys(v, parent, Some(side), Seq::empty(), v.len() as int);
    assert forall|i: int, j: int|
        #![trigger keys[i], keys[j]]
        0 <= i < j < keys.len() implies key_le(keys[i], keys[j]) by {
        assert(leq(keys[i], keys[j]));
    }
    raw.to_multiset_ensures();
    keys.to_multiset_ensures();
    assert forall|k: Key| keys.contains(k) <==> #[trigger] raw.contains(k) by {
        assert(raw.contains(k) <==> raw.to_multiset().count(k) > 0);
        assert(keys.contains(k) <==> keys.to_multiset().count(k) > 0);
    }
    assert forall|k: Key|
        keys.contains(k) <==> exists|i: int|
            0 <= i < v.len() && is_child(#[trigger] v[i], parent, Some(side)) && key_of(
                v[i],
                Seq::empty(),
            ) == k by {
        assert(keys.contains(k) <==> raw.contains(k));
    }
}

/// The node `k` steps above a node.
pub open spec fn above(v: Seq<Item>, id: u64, k: nat) -> Option<u64>
    decreases k,
{
    if k == 0 {
        Some(id)
    } else {
        match above(v, id, (k - 1) as nat) {
            Some(a) => match meta_of(v, a) {
                Some(m) => m.parent,
                None => None,
            },
            None => None,
        }
    }
}

/// Whether the walk up from a node reaches a root after `k` steps.
pub open spec fn tops_out(v: Seq<Item>, id: u64, k: nat) -> bool {
    above(v, id, k) matches Some(a) && (meta_of(v, a) matches Some(m) && m.parent is None)
}

proof fn lemma_above_step(v: Seq<Item>, id: u64, k: nat)
    requires
        meta_of(v, id) matches Some(m) && m.parent is Some,
    ensures
        above(v, id, k + 1) == above(v, (meta_of(v, id)->0).parent->0, k),
    decreases k,
{
    reveal_with_fuel(above, 2);
    if k > 0 {
        lemma_above_step(v, id, (k - 1) as nat);
    }
}

proof fn lemma_reach(v: Seq<Item>, id: u64, k: nat, fuel: nat)
    requires
        tops_out(v, id, k),
        k < fuel,
    ensures
        root_within(v, id, fuel) == above(v, id, k),
    decreases k,
{
    lemma_below_top(v, id, k, 0);
    if k > 0 {
        let m = meta_of(v, id)->0;
        if m.parent is None {
            lemma_no_higher(v, id, k);
        }
        lemma_above_step(v, id, (k - 1) as nat);
        lemma_reach(v, m.parent->0, (k - 1) as nat, (fuel - 1) as nat);
    }
}

pub(crate) proof fn lemma_no_higher(v: Seq<Item>, id: u64, k: nat)
    requires
        meta_of(v, id) matches Some(m) && m.parent is None,
        k > 0,
    ensures
        above(v, id, k) is None,
    decreases k,
{
    reveal_with_fuel(above, 2);
    if k > 1 {
        lemma_no_higher(v, id, (k - 1) as nat);
    }
}

proof fn lemma_below_top(v: Seq<Item>, id: u64, k: nat, i: nat)
    requires
        tops_out(v, id, k),
        i <= k,
    ensures
        above(v, id, i) is Some,
        meta_of(v, above(v, id, i)->0) is Some,
        i < k ==> (meta_of(v, above(v, id, i)->0)->0).parent == above(v, id, i + 1),
    decreases k - i,
{
    if i < k {
        lemma_below_top(v, id, k, i + 1);
        assert(above(v, id, i + 1) is Some);
    }
}

pub(crate) proof fn lemma_same_above(v: Seq<Item>, id: u64, i: nat, j: nat, d: nat)
    requires
        above(v, id, i) == above(v, id, j),
    ensures
        above(v, id, i + d) == above(v, id, j + d),
    decreases d,
{
    if d > 0 {
        lemma_same_above(v, id, i, j, (d - 1) as nat);
        assert(above(v, id, (i + d) as nat) == above(v, id, (j + d) as nat)) by {
            assert(above(v, id, (i + d - 1) as nat) == above(v, id, (j + d - 1) as nat));
            reveal_with_fuel(above, 2);
        }
    }
}

proof fn lemma_all_different(v: Seq<Item>, id: u64, k: nat, i: nat, j: nat)
    requires
        tops_out(v, id, k),
        i < j <= k,
    ensures
        above(v, id, i) != above(v, id, j),
{
    if above(v, id, i) == above(v, id, j) {
        let d = (k - j) as nat;
        lemma_same_above(v, id, i, j, d);
        lemma_below_top(v, id, k, i + d);
        lemma_below_top(v, id, k, (i + d + 1) as nat);
    }
}

/// A node whose walk up reaches a root, however far, is in the map of that root.
pub proof fn law_root_is_found(v: Seq<Item>, id: u64, k: nat)
    requires
        tops_out(v, id, k),
    ensures
        root_of(v, id) == above(v, id, k),
{
    let places = Seq::new(k + 1, |i: int| index_of(v, above(v, id, i as nat)->0)->0);
    assert forall|i: int| 0 <= i < places.len() implies 0 <= #[trigger] places[i] < v.len() by {
        lemma_below_top(v, id, k, i as nat);
        lemma_index_from(v, above(v, id, i as nat)->0, 0);
    }
    assert forall|i: int, j: int| 0 <= i < j < places.len() implies places[i] != places[j] by {
        lemma_below_top(v, id, k, i as nat);
        lemma_below_top(v, id, k, j as nat);
        lemma_index_from(v, above(v, id, i as nat)->0, 0);
        lemma_index_from(v, above(v, id, j as nat)->0, 0);
        lemma_all_different(v, id, k, i as nat, j as nat);
    }
    assert(places.no_duplicates());
    places.unique_seq_to_set();
    let range = vstd::set_lib::set_int_range(0, v.len() as int);
    vstd::set_lib::lemma_int_range(0, v.len() as int);
    assert(places.to_set().subset_of(range));
    vstd::set_lib::lemma_len_subset(places.to_set(), range);
    lemma_reach(v, id, k, v.len());
}

/// Making room leaves the place free, and the siblings in the order they had.
pub proof fn law_room_is_made(v: Seq<Item>, parent: u64, side: MindMapSide, from: usize, i: int, j: int)
    requires
        0 <= i < v.len(),
        0 <= j < v.len(),
        is_child(v[i], parent, Some(side)),
        is_child(v[j], parent, Some(side)),
        (v[i].mindmap->0).order < usize::MAX,
        (v[j].mindmap->0).order < usize::MAX,
    ensures
        ({
            let w = all_bumped(v, parent, side, from);
            &&& (w[i].mindmap->0).order != from
            &&& (v[i].mindmap->0).order < (v[j].mindmap->0).order <==> (w[i].mindmap->0).order < (
            w[j].mindmap->0).order
            &&& (v[i].mindmap->0).order < from ==> w[i] == v[i]
        }),
{
}

/// After a node was linked anew, every line between it and its parent leaves
/// the parent and meets the node on the sides that the node grows on.
pub proof fn law_links_follow_the_side(v: Seq<Item>, child: u64, i: int)
    requires
        0 <= i < v.len(),
        meta_of(v, child) matches Some(m) && (m.parent matches Some(p) && p != child),
        segment_in(v[i].kind) matches Some(s) && links(
            s,
            (meta_of(v, child)->0).parent->0,
            child,
        ),
    ensures
        ({
            let m = meta_of(v, child)->0;
            let p = m.parent->0;
            let s = segment_in(link_synced(v, child)[i].kind)->0;
            &&& segment_in(link_synced(v, child)[i].kind) is Some
            &&& (s.start_anchor->0).element_id == p ==> (s.start_anchor->0).connector
                == parent_connector(m.side) && (s.end_anchor->0).connector == child_connector(m.side)
            &&& (s.start_anchor->0).element_id == child ==> (s.start_anchor->0).connector
                == child_connector(m.side) && (s.end_anchor->0).connector == parent_connector(m.side)
        }),
{
}

pub(crate) proof fn lemma_index_of_same(a: Seq<Item>, b: Seq<Item>, id: u64, i: int)
    requires
        a.len() == b.len(),
        forall|k: int| 0 <= k < a.len() ==> (#[trigger] a[k]).id == b[k].id,
        0 <= i,
    ensures
        index_from(a, id, i) == index_from(b, id, i),
    decreases a.len() - i,
{
    if i < a.len() {
        lemma_index_of_same(a, b, id, i + 1);
    }
}

/// What `sided` does to the nodes: the one node changes sides.
pub(crate) proof fn lemma_sided(v: Seq<Item>, id: u64, side: MindMapSide, other: u64)
    ensures
        meta_of(sided(v, id, side), other) == if other == id {
            match meta_of(v, id) {
                Some(m) => Some(MindMapNodeMeta { side, ..m }),
                None => None,
            }
        } else {
            meta_of(v, other)
        },
{
    match meta_of(v, id) {
        Some(m) => {
            lemma_index_from(v, id, 0);
            lemma_index_from(v, other, 0);
            let w = with_meta(v, id, MindMapNodeMeta { side, ..m });
            let k = index_of(v, id)->0;
            assert(w == v.update(k, Item { mindmap: Some(MindMapNodeMeta { side, ..m }), ..v[k] }));
            lemma_index_of_same(v, w, id, 0);
            lemma_index_of_same(v, w, other, 0);
            let x = link_synced(w, id);
            assert forall|i: int| 0 <= i < w.len() implies (#[trigger] w[i]).id == x[i].id by {}
            lemma_index_of_same(w, x, other, 0);
            assert forall|i: int| 0 <= i < w.len() implies (#[trigger] x[i]).mindmap == w[i].mindmap by {}
        },
        None => {},
    }
}

/// A root that grows to one side has its children there; one that grows to both
/// has them right and left in turn.
pub proof fn law_children_take_sides(
    v: Seq<Item>,
    nodes: Seq<u64>,
    direction: MindMapRootDirection,
    from: int,
    i: int,
)
    requires
        nodes.no_duplicates(),
        0 <= from <= i < nodes.len(),
        meta_of(v, nodes[i]) is Some,
    ensures
        meta_of(all_sided(v, nodes, direction, from), nodes[i]) matches Some(m) && m.side == side_for(
            direction,
            i,
        ),
    decreases nodes.len() - from,
{
    let w = sided(v, nodes[from], side_for(direction, from));
    lemma_sided(v, nodes[from], side_for(direction, from), nodes[i]);
    if from < i {
        assert(nodes[from] != nodes[i]);
        law_children_take_sides(w, nodes, direction, from + 1, i);
    } else {
        lemma_side_stays(w, nodes, direction, from + 1, nodes[i]);
    }
}

pub(crate) proof fn lemma_side_stays(
    v: Seq<Item>,
    nodes: Seq<u64>,
    direction: MindMapRootDirection,
    from: int,
    id: u64,
)
    requires
        0 <= from,
        forall|k: int| from <= k < nodes.len() ==> nodes[k] != id,
    ensures
        meta_of(all_sided(v, nodes, direction, from), id) == meta_of(v, id),
    decreases nodes.len() - from,
{
    if from < nodes.len() {
        lemma_sided(v, nodes[from], side_for(direction, from), id);
        lemma_side_stays(
            sided(v, nodes[from], side_for(direction, from)),
            nodes,
            direction,
            from + 1,
            id,
        );
    }
}

// --- Diagrams ---

/// The lines of a diagram run between its own nodes.
pub proof fn law_diagram_links_hold(d: Diagram, n: int, p: int, i: int)
    requires
        0 <= n,
        n + diagram_len(d) <= u64::MAX,
        0 <= i < diagram_items(d, n, p).len(),
        segment_in(diagram_items(d, n, p)[i].kind) is Some,
    ensures
        ({
            let v = diagram_items(d, n, p);
            let s = segment_in(v[i].kind)->0;
            &&& s.start_anchor is Some && s.end_anchor is Some
            &&& n <= (s.start_anchor->0).element_id < n + i
            &&& n <= (s.end_anchor->0).element_id < n + i
            &&& (s.start_anchor->0).element_id != (s.end_anchor->0).element_id
            &&& is_boxed(v[(s.start_anchor->0).element_id - n].kind)
            &&& is_boxed(v[(s.end_anchor->0).element_id - n].kind)
            &&& (s.start_anchor->0).connector < 4 && (s.end_anchor->0).connector < 4
        }),
{
}

/// The elements of a diagram get ids that no element had, one after another.
pub proof fn law_diagram_ids_are_new(d: Diagram, n: int, p: int, i: int)
    requires
        0 <= n,
        n + diagram_len(d) <= u64::MAX,
        0 <= i < diagram_items(d, n, p).len(),
    ensures
        diagram_items(d, n, p).len() == diagram_len(d),
        diagram_items(d, n, p)[i].id == n + i,
{
}

proof fn lemma_index_behind(v: Seq<Item>, w: Seq<Item>, id: u64, i: int, k: int)
    requires
        0 <= i <= v.len(),
        0 <= k < w.len(),
        forall|j: int| 0 <= j < v.len() ==> (#[trigger] v[j]).id != id,
        forall|j: int| 0 <= j < k ==> (#[trigger] w[j]).id != id,
        w[k].id == id,
    ensures
        index_from(v + w, id, i) == Some(v.len() + k),
    decreases v.len() + k - i,
{
    if i < v.len() {
        assert((v + w)[i] == v[i]);
        lemma_index_behind(v, w, id, i + 1, k);
    } else {
        lemma_index_in(v, w, id, 0, k);
    }
}

proof fn lemma_index_in(v: Seq<Item>, w: Seq<Item>, id: u64, i: int, k: int)
    requires
        0 <= i <= k < w.len(),
        forall|j: int| 0 <= j < k ==> (#[trigger] w[j]).id != id,
        w[k].id == id,
    ensures
        index_from(v + w, id, v.len() + i) == Some(v.len() + k),
    decreases k - i,
{
    assert((v + w)[v.len() + i] == w[i]);
    if i < k {
        lemma_index_in(v, w, id, i + 1, k);
    }
}

/// Every branch of a mind map that is put on a board is in the map of its root.
pub proof fn law_branches_hang_on_the_root(b: BoardState, place: int, i: int)
    requires
        forall|k: int|
            0 <= k < b.scene.elements.len() ==> (#[trigger] b.scene.elements[k]).id < b.next_id,
        b.next_id + 9 <= u64::MAX,
        0 <= i < 5,
    ensures
        root_of(
            diagram_added(b, Diagram::MindMap, place).scene.elements,
            (b.next_id + i) as u64,
        ) == Some(b.next_id),
{
    let n = b.next_id as int;
    let v = b.scene.elements;
    let w = mindmap_seed(n, place);
    let all = v + w;
    assert(diagram_added(b, Diagram::MindMap, place).scene.elements == all);
    let id = (n + i) as u64;
    assert(w[i].id == id);
    assert(w[0].id == b.next_id);
    lemma_index_behind(v, w, id, 0, i);
    lemma_index_behind(v, w, b.next_id, 0, 0);
    assert(all[v.len() + i] == w[i]);
    assert(all[v.len() as int] == w[0]);
    assert(meta_of(all, b.next_id) == w[0].mindmap);
    assert(meta_of(all, id) == w[i].mindmap);
    assert(all.len() >= 9);
    reveal_with_fuel(root_within, 3);
}

/// Whatever a board is given ready-made can be taken back.
pub proof fn law_additions_can_be_undone(
    b: BoardState,
    d: Diagram,
    place: int,
    kind: ElementKind<Seq<char>>,
    source: u64,
    sibling: bool,
    key: u64,
)
    ensures
        undone(diagram_added(b, d, place)).scene == b.scene,
        undone(thing_added(b, key, kind)).scene == b.scene,
        meta_of(b.scene.elements, source) is Some ==> undone(
            node_added(b, source, sibling, key, key),
        ).scene == b.scene,
{
    law_undo_restores(b, diagram_added(b, d, place));
    law_undo_restores(b, thing_added(b, key, kind));
    if meta_of(b.scene.elements, source) is Some {
        law_undo_restores(b, node_added(b, source, sibling, key, key));
    }
}

// --- Text ---

proof fn lemma_replaced(c: Seq<char>, s: int, e: int, ins: Seq<char>)
    requires
        s <= e,
        on_boundary(c, s),
        on_boundary(c, e),
    ensures
        0 <= index_at(c, s) <= index_at(c, e) <= c.len(),
        offset(c, index_at(c, s)) == s,
        offset(c, index_at(c, e)) == e,
        on_boundary(replaced_text(c, s, e, ins), s),
        on_boundary(replaced_text(c, s, e, ins), s + blen(ins)),
        index_at(replaced_text(c, s, e, ins), s) == index_at(c, s),
        index_at(replaced_text(c, s, e, ins), s + blen(ins)) == index_at(c, s) + ins.len(),
{
    let i = index_at(c, s);
    let j = index_at(c, e);
    assert(0 <= i <= c.len() && offset(c, i) == s);
    assert(0 <= j <= c.len() && offset(c, j) == e);
    if j < i {
        lemma_offset_mono(c, j, i);
    }
    let r = replaced_text(c, s, e, ins);
    assert(r.take(i) =~= c.take(i));
    assert(r.take(i + ins.len()) =~= c.take(i) + ins);
    lemma_blen_concat(c.take(i), ins);
    lemma_index_at(r, i);
    lemma_index_at(r, (i + ins.len()) as int);
}

/// Text that is typed and taken out again leaves the text as it was.
pub proof fn law_typed_text_can_be_removed(c: Seq<char>, s: int, ins: Seq<char>)
    requires
        on_boundary(c, s),
    ensures
        replaced_text(replaced_text(c, s, s, ins), s, s + blen(ins), Seq::empty()) == c,
{
    lemma_replaced(c, s, s, ins);
    let i = index_at(c, s);
    let r = replaced_text(c, s, s, ins);
    assert(r.take(i) + Seq::<char>::empty() + r.skip((i + ins.len()) as int) =~= c);
}

/// What is cut out and put back leaves the text as it was.
pub proof fn law_cut_text_can_be_pasted_back(c: Seq<char>, s: int, e: int)
    requires
        s <= e,
        on_boundary(c, s),
        on_boundary(c, e),
    ensures
        replaced_text(replaced_text(c, s, e, Seq::empty()), s, s, cut_out(c, s, e)) == c,
{
    lemma_replaced(c, s, e, Seq::empty());
    let r = replaced_text(c, s, e, Seq::empty());
    let i = index_at(c, s);
    let j = index_at(c, e);
    assert(r.take(i) + c.subrange(i, j) + r.skip(i) =~= c);
}

/// After a replacement the caret stands between characters of the new text.
pub proof fn law_caret_stays_between_characters(
    b: BoardState,
    id: u64,
    c: Seq<char>,
    s: int,
    e: int,
    ins: Seq<char>,
)
    requires
        text_at(b, id) == Some(c),
        s <= e,
        on_boundary(c, s),
        on_boundary(c, e),
        s + blen(ins) <= usize::MAX,
    ensures
        text_at(replaced(b, id, s, e, ins), id) == Some(replaced_text(c, s, e, ins)),
        on_boundary(replaced_text(c, s, e, ins), replaced(b, id, s, e, ins).ui.edit.caret as int),
{
    lemma_replaced(c, s, e, ins);
    let v = b.scene.elements;
    lemma_index_from(v, id, 0);
    let w = replaced(b, id, s, e, ins).scene.elements;
    let k = index_of(v, id)->0;
    assert(w[k].id == id);
    assert forall|i: int| 0 <= i < v.len() implies (#[trigger] v[i]).id == w[i].id by {}
    lemma_index_of_same(v, w, id, 0);
}

/// Once the editing ended, the text that was edited is not an empty one.
pub proof fn law_no_empty_text_is_left(b: BoardState, id: u64, i: int)
    requires
        b.ui.edit.editing == Some(id),
        0 <= i < committed(b).scene.elements.len(),
        committed(b).scene.elements[i].id == id,
    ensures
        committed(b).scene.elements[i].kind matches ElementKind::Text(t) ==> !blank(t),
{
    let p = |e: Item| e.id != id || !(e.kind matches ElementKind::Text(t) && blank(t));
    let v = b.scene.elements;
    let w = match item_of(v, id) {
        Some(e) => if crate::scene::is_closed(e.kind) && (e.label matches Some(l) ==> blank(l)) {
            with_item(v, id, Item { label: None, ..e })
        } else {
            v
        },
        None => v,
    };
    assert(finished(v, id) == w.filter(p));
    w.lemma_filter_pred(p, i);
    assert(p(w.filter(p)[i]));
}

} // verus!
