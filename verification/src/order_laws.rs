//! The order of the nodes of a mind map: among siblings, when they are counted,
//! and when they are laid out.
use crate::board_laws::{law_children_in_order, lemma_index_of_same, lemma_keys};
use crate::drags::ids_differ;
use crate::layout_laws::lemma_item_at;
use crate::mindmap::{
    children, children_by_place, counted, is_child, key_ids, key_le, key_of, keys_upto, laid_side,
    lemma_key_order, meta_of, placed, rank_from, reindexed, sorted, Key, LayoutStep, Rank,
};
use crate::scene::{index_of, lemma_index_from, Item, MindMapNodeMeta, MindMapSide};
use vstd::prelude::*;

verus! {

/// Siblings come by their place in the order, the lesser first, and by their id
/// where the place is the same.
pub proof fn law_siblings_come_by_place(
    v: Seq<Item>,
    parent: u64,
    side: MindMapSide,
    i: int,
    j: int,
)
    requires
        ids_differ(v),
        0 <= i < j < children(v, parent, side).len(),
    ensures
        ({
            let a = children(v, parent, side)[i];
            let b = children(v, parent, side)[j];
            let x = meta_of(v, a)->0.order;
            let y = meta_of(v, b)->0.order;
            &&& meta_of(v, a) is Some
            &&& meta_of(v, b) is Some
            &&& x < y || (x == y && a <= b)
        }),
{
    law_children_in_order(v, parent, side);
    let keys = sorted(keys_upto(v, parent, Some(side), Seq::empty(), v.len() as int));
    assert(children(v, parent, side) == key_ids(keys));
    lemma_key(v, parent, side, keys[i]);
    lemma_key(v, parent, side, keys[j]);
    assert(key_le(keys[i], keys[j]));
}

proof fn lemma_key(v: Seq<Item>, parent: u64, side: MindMapSide, k: Key)
    requires
        ids_differ(v),
        sorted(keys_upto(v, parent, Some(side), Seq::empty(), v.len() as int)).contains(k),
    ensures
        meta_of(v, k.id) is Some,
        meta_of(v, k.id)->0.order == k.order,
        k.y == 0,
        k.x == 0,
{
    law_children_in_order(v, parent, side);
    let m = choose|m: int|
        0 <= m < v.len() && is_child(#[trigger] v[m], parent, Some(side)) && key_of(
            v[m],
            Seq::empty(),
        ) == k;
    lemma_item_at(v, m);
    assert(rank_from(Seq::empty(), v[m].id, 0) == (0i64, 0i64));
}

/// The children of both sides come by where they lie: from the top down, and
/// from left to right where they lie at one height.
pub proof fn law_children_come_by_where_they_lie(
    v: Seq<Item>,
    parent: u64,
    ranks: Seq<Rank>,
    i: int,
    j: int,
)
    requires
        0 <= i < j < children_by_place(v, parent, ranks).len(),
    ensures
        ({
            let a = rank_from(ranks, children_by_place(v, parent, ranks)[i], 0);
            let b = rank_from(ranks, children_by_place(v, parent, ranks)[j], 0);
            a.0 < b.0 || (a.0 == b.0 && a.1 <= b.1)
        }),
{
    let raw = keys_upto(v, parent, None, ranks, v.len() as int);
    let keys = sorted(raw);
    let leq = |a: Key, b: Key| key_le(a, b);
    lemma_key_order();
    raw.lemma_sort_by_ensures(leq);
    lemma_keys(v, parent, None, ranks, v.len() as int);
    assert(leq(keys[i], keys[j]));
    raw.to_multiset_ensures();
    keys.to_multiset_ensures();
    lemma_ranked(v, parent, ranks, keys[i]);
    lemma_ranked(v, parent, ranks, keys[j]);
}

proof fn lemma_ranked(v: Seq<Item>, parent: u64, ranks: Seq<Rank>, k: Key)
    requires
        sorted(keys_upto(v, parent, None, ranks, v.len() as int)).contains(k),
    ensures
        rank_from(ranks, k.id, 0) == (k.y, k.x),
{
    let raw = keys_upto(v, parent, None, ranks, v.len() as int);
    let keys = sorted(raw);
    lemma_key_order();
    raw.lemma_sort_by_ensures(|a: Key, b: Key| key_le(a, b));
    raw.to_multiset_ensures();
    keys.to_multiset_ensures();
    assert(keys.to_multiset().count(k) > 0);
    assert(raw.contains(k));
    lemma_keys(v, parent, None, ranks, v.len() as int);
    let m = choose|m: int|
        0 <= m < v.len() && is_child(#[trigger] v[m], parent, None) && key_of(v[m], ranks) == k;
    assert(key_of(v[m], ranks) == k);
}

// --- Counting ---

proof fn lemma_placed(v: Seq<Item>, id: u64, order: usize, other: u64)
    requires
        meta_of(v, id) is Some,
    ensures
        meta_of(placed(v, id, order), other) == if other == id {
            Some(MindMapNodeMeta { order, ..meta_of(v, id)->0 })
        } else {
            meta_of(v, other)
        },
{
    let m = meta_of(v, id)->0;
    let w = placed(v, id, order);
    lemma_index_from(v, id, 0);
    lemma_index_from(v, other, 0);
    let k = index_of(v, id)->0;
    let x = Item { mindmap: Some(MindMapNodeMeta { order, ..m }), ..v[k] };
    assert(w == v.update(k, x));
    lemma_index_of_same(v, w, id, 0);
    lemma_index_of_same(v, w, other, 0);
}

proof fn lemma_counted(v: Seq<Item>, nodes: Seq<u64>, i: int, id: u64)
    requires
        0 <= i <= nodes.len() <= usize::MAX,
        nodes.no_duplicates(),
        forall|k: int| 0 <= k < nodes.len() ==> meta_of(v, #[trigger] nodes[k]) is Some,
    ensures
        ({
            let r = counted(v, nodes, i, 0);
            &&& forall|k: int|
                i <= k < nodes.len() ==> meta_of(r, #[trigger] nodes[k]) == Some(
                    MindMapNodeMeta { order: k as usize, ..meta_of(v, nodes[k])->0 },
                )
            &&& (forall|k: int| i <= k < nodes.len() ==> #[trigger] nodes[k] != id) ==> meta_of(
                r,
                id,
            ) == meta_of(v, id)
        }),
    decreases nodes.len() - i,
{
    if i < nodes.len() {
        let w = placed(v, nodes[i], i as usize);
        assert(reindexed(w, nodes[i], 0) == w);
        assert forall|k: int| 0 <= k < nodes.len() implies meta_of(w, #[trigger] nodes[k])
            is Some by {
            lemma_placed(v, nodes[i], i as usize, nodes[k]);
        }
        lemma_placed(v, nodes[i], i as usize, id);
        lemma_counted(w, nodes, i + 1, id);
        lemma_counted(w, nodes, i + 1, nodes[i]);
        lemma_placed(v, nodes[i], i as usize, nodes[i]);
        let r = counted(v, nodes, i, 0);
        assert forall|k: int| i <= k < nodes.len() implies meta_of(r, #[trigger] nodes[k]) == Some(
            MindMapNodeMeta { order: k as usize, ..meta_of(v, nodes[k])->0 },
        ) by {
            lemma_placed(v, nodes[i], i as usize, nodes[k]);
        }
    }
}

/// Counting siblings gives them the places from zero on, in the order in which
/// they are listed, and changes nothing else of any node.
pub proof fn law_siblings_are_counted_from_zero(v: Seq<Item>, nodes: Seq<u64>, k: int, id: u64)
    requires
        nodes.len() <= usize::MAX,
        nodes.no_duplicates(),
        forall|k: int| 0 <= k < nodes.len() ==> meta_of(v, #[trigger] nodes[k]) is Some,
        0 <= k < nodes.len(),
        !nodes.contains(id),
    ensures
        ({
            let r = counted(v, nodes, 0, 0);
            let m = meta_of(v, nodes[k])->0;
            let n = meta_of(r, nodes[k])->0;
            &&& meta_of(r, nodes[k]) is Some
            &&& n.order == k
            &&& n.parent == m.parent
            &&& n.side == m.side
            &&& meta_of(r, id) == meta_of(v, id)
        }),
{
    lemma_counted(v, nodes, 0, id);
    assert(meta_of(v, nodes[k]) is Some);
}

// --- Laying out ---

/// Where the step of the sibling at `k` stands among those of all from `i` on.
pub open spec fn step_place(
    v: Seq<Item>,
    node: u64,
    side: MindMapSide,
    nodes: Seq<u64>,
    k: int,
    depth: nat,
) -> int {
    laid_side(v, node, side, nodes, 0, depth).len() - laid_side(v, node, side, nodes, k, depth).len()
}

proof fn lemma_suffix(
    v: Seq<Item>,
    node: u64,
    side: MindMapSide,
    nodes: Seq<u64>,
    i: int,
    k: int,
    depth: nat,
)
    requires
        0 <= i <= k < nodes.len(),
    ensures
        ({
            let all = laid_side(v, node, side, nodes, i, depth);
            let rest = laid_side(v, node, side, nodes, k, depth);
            let p = all.len() - rest.len();
            &&& rest.len() > 0
            &&& k - i <= p < all.len()
            &&& all[p] == rest[0]
            &&& rest[0] == (LayoutStep { id: nodes[k], parent: node, side })
        }),
    decreases k - i,
{
    if i < k {
        lemma_suffix(v, node, side, nodes, i + 1, k, depth);
        let all = laid_side(v, node, side, nodes, i, depth);
        let next = laid_side(v, node, side, nodes, i + 1, depth);
        let rest = laid_side(v, node, side, nodes, k, depth);
        let p = next.len() - rest.len();
        assert(all[all.len() - next.len() + p] == next[p]);
    }
}

proof fn lemma_shrinks(
    v: Seq<Item>,
    node: u64,
    side: MindMapSide,
    nodes: Seq<u64>,
    i: int,
    k: int,
    depth: nat,
)
    requires
        0 <= i < k <= nodes.len(),
    ensures
        laid_side(v, node, side, nodes, k, depth).len() < laid_side(
            v,
            node,
            side,
            nodes,
            i,
            depth,
        ).len(),
    decreases k - i,
{
    if i + 1 < k {
        lemma_shrinks(v, node, side, nodes, i + 1, k, depth);
    }
}

/// Siblings are laid out in the order in which they are listed, each under its
/// parent and on its side.
pub proof fn law_siblings_are_laid_out_in_order(
    v: Seq<Item>,
    node: u64,
    side: MindMapSide,
    nodes: Seq<u64>,
    i: int,
    k: int,
    depth: nat,
)
    requires
        0 <= i < k < nodes.len(),
    ensures
        ({
            let all = laid_side(v, node, side, nodes, 0, depth);
            let a = step_place(v, node, side, nodes, i, depth);
            let b = step_place(v, node, side, nodes, k, depth);
            &&& 0 <= a < b < all.len()
            &&& all[a] == (LayoutStep { id: nodes[i], parent: node, side })
            &&& all[b] == (LayoutStep { id: nodes[k], parent: node, side })
        }),
{
    lemma_suffix(v, node, side, nodes, 0, i, depth);
    lemma_suffix(v, node, side, nodes, 0, k, depth);
    lemma_shrinks(v, node, side, nodes, i, k, depth);
}

} // verus!
