//! What holds of the layout of a mind map: every node of the map is in it once.
use crate::board_laws::{above, law_children_in_order, lemma_no_higher, lemma_same_above};
use crate::drags::ids_differ;
use crate::mindmap::{children, is_child, key_of, keys_upto, laid_out, laid_side, meta_of};
use crate::mindmap::{key_le, lemma_key_order, sorted, Key, LayoutStep};
use crate::scene::{index_of, is_boxed, item_of, lemma_index_from, Item, MindMapSide};
use vstd::prelude::*;

verus! {

/// Whether an element lies in a box, so that nodes can be laid out beside it.
pub open spec fn boxed_at(v: Seq<Item>, id: u64) -> bool {
    item_of(v, id) matches Some(e) && is_boxed(e.kind)
}

/// Whether a node lies `k` levels under another, through parents that all lie
/// in boxes.
pub open spec fn lies_under(v: Seq<Item>, node: u64, id: u64, k: nat) -> bool {
    &&& k > 0
    &&& above(v, id, k) == Some(node)
    &&& forall|j: nat| 0 < j <= k ==> (#[trigger] above(v, id, j) matches Some(a) && boxed_at(v, a))
}

/// Whether a step for a node is among `steps`.
pub open spec fn has_step(steps: Seq<LayoutStep>, id: u64) -> bool {
    exists|i: int| 0 <= i < steps.len() && (#[trigger] steps[i]).id == id
}

/// Whether a node never lies under itself.
spec fn is_free(v: Seq<Item>, node: u64) -> bool {
    forall|k: nat| k > 0 ==> #[trigger] above(v, node, k) != Some(node)
}

// --- Children ---

pub(crate) proof fn lemma_item_at(v: Seq<Item>, i: int)
    requires
        ids_differ(v),
        0 <= i < v.len(),
    ensures
        item_of(v, v[i].id) == Some(v[i]),
{
    lemma_index_from(v, v[i].id, 0);
}

/// The children of a node on a side are the nodes with that parent and side.
proof fn lemma_children(v: Seq<Item>, node: u64, side: MindMapSide, c: u64)
    requires
        ids_differ(v),
    ensures
        children(v, node, side).contains(c) <==> (meta_of(v, c) matches Some(m) && m.parent == Some(
            node,
        ) && m.side == side),
{
    law_children_in_order(v, node, side);
    let keys = sorted(keys_upto(v, node, Some(side), Seq::empty(), v.len() as int));
    let ids = children(v, node, side);
    if ids.contains(c) {
        let j = ids.index_of(c);
        assert(ids[j] == keys[j].id);
        assert(keys.contains(keys[j]));
        let i = choose|i: int|
            0 <= i < v.len() && is_child(#[trigger] v[i], node, Some(side)) && key_of(
                v[i],
                Seq::empty(),
            ) == keys[j];
        lemma_item_at(v, i);
    }
    if let Some(m) = meta_of(v, c) {
        if m.parent == Some(node) && m.side == side {
            lemma_index_from(v, c, 0);
            let i = index_of(v, c)->0;
            let key = key_of(v[i], Seq::empty());
            assert(is_child(v[i], node, Some(side)));
            assert(keys.contains(key));
            let j = keys.index_of(key);
            assert(ids[j] == c);
        }
    }
}

proof fn lemma_keys_once(v: Seq<Item>, node: u64, side: Option<MindMapSide>, n: int)
    requires
        ids_differ(v),
        0 <= n <= v.len(),
    ensures
        keys_upto(v, node, side, Seq::empty(), n).no_duplicates(),
        forall|j: int|
            0 <= j < keys_upto(v, node, side, Seq::empty(), n).len() ==> exists|i: int|
                0 <= i < n && (#[trigger] v[i]).id == (#[trigger] keys_upto(
                    v,
                    node,
                    side,
                    Seq::empty(),
                    n,
                )[j]).id,
        forall|a: int, b: int|
            0 <= a < b < keys_upto(v, node, side, Seq::empty(), n).len() ==> (#[trigger] keys_upto(
                v,
                node,
                side,
                Seq::empty(),
                n,
            )[a]).id != (#[trigger] keys_upto(v, node, side, Seq::empty(), n)[b]).id,
    decreases n,
{
    if n > 0 {
        lemma_keys_once(v, node, side, n - 1);
        let rest = keys_upto(v, node, side, Seq::empty(), n - 1);
        let all = keys_upto(v, node, side, Seq::empty(), n);
        assert forall|j: int| 0 <= j < all.len() implies exists|i: int|
            0 <= i < n && (#[trigger] v[i]).id == (#[trigger] all[j]).id by {
            if j < rest.len() {
                assert(rest[j] == all[j]);
                let i = choose|i: int| 0 <= i < n - 1 && (#[trigger] v[i]).id == rest[j].id;
                assert(v[i].id == all[j].id);
            } else {
                assert(v[n - 1].id == all[j].id);
            }
        }
        assert forall|a: int, b: int| 0 <= a < b < all.len() implies (#[trigger] all[a]).id != (
        #[trigger] all[b]).id by {
            assert(rest[a] == all[a]);
            if b < rest.len() {
                assert(rest[b] == all[b]);
            } else {
                let i = choose|i: int| 0 <= i < n - 1 && (#[trigger] v[i]).id == rest[a].id;
                assert(v[i].id != v[n - 1].id);
            }
        }
    }
}

/// No child of a node comes twice.
proof fn lemma_children_once(v: Seq<Item>, node: u64, side: MindMapSide)
    requires
        ids_differ(v),
    ensures
        children(v, node, side).no_duplicates(),
{
    let raw = keys_upto(v, node, Some(side), Seq::empty(), v.len() as int);
    let keys = sorted(raw);
    let leq = |a: Key, b: Key| key_le(a, b);
    lemma_key_order();
    raw.lemma_sort_by_ensures(leq);
    lemma_keys_once(v, node, Some(side), v.len() as int);
    raw.lemma_multiset_has_no_duplicates();
    assert(keys.no_duplicates()) by {
        assert(keys.to_multiset() == raw.to_multiset());
        keys.lemma_multiset_has_no_duplicates_conv();
    }
    raw.to_multiset_ensures();
    keys.to_multiset_ensures();
    let ids = children(v, node, side);
    assert forall|a: int, b: int| 0 <= a < ids.len() && 0 <= b < ids.len() && a != b implies ids[a]
        != ids[b] by {
        assert(ids[a] == keys[a].id && ids[b] == keys[b].id);
        assert(keys.contains(keys[a]) && keys.contains(keys[b]));
        assert(raw.contains(keys[a]) && raw.contains(keys[b]));
        let i = raw.index_of(keys[a]);
        let j = raw.index_of(keys[b]);
        assert(keys[a] != keys[b]);
        if i < j {
            assert(raw[i].id != raw[j].id);
        } else {
            assert(raw[j].id != raw[i].id);
        }
    }
}

// --- Walking up ---

proof fn lemma_above_add(v: Seq<Item>, id: u64, a: nat, b: nat)
    requires
        above(v, id, a) is Some,
    ensures
        above(v, id, a + b) == above(v, above(v, id, a)->0, b),
    decreases b,
{
    if b > 0 {
        lemma_above_add(v, id, a, (b - 1) as nat);
        reveal_with_fuel(above, 2);
        assert(above(v, id, (a + b) as nat) == match above(v, id, (a + b - 1) as nat) {
            Some(x) => match meta_of(v, x) {
                Some(m) => m.parent,
                None => None,
            },
            None => None,
        });
    }
}

proof fn lemma_free_child(v: Seq<Item>, node: u64, c: u64)
    requires
        is_free(v, node),
        above(v, c, 1) == Some(node),
    ensures
        is_free(v, c),
{
    assert forall|k: nat| k > 0 implies #[trigger] above(v, c, k) != Some(c) by {
        if above(v, c, k) == Some(c) {
            lemma_above_add(v, c, 1, k);
            lemma_above_add(v, c, k, 1);
            assert(above(v, node, k) == Some(node));
        }
    }
}

/// A node lies under one child of a free node at most.
proof fn lemma_one_branch(v: Seq<Item>, node: u64, c: u64, d: u64, x: u64, i: nat, j: nat)
    requires
        is_free(v, node),
        above(v, c, 1) == Some(node),
        above(v, d, 1) == Some(node),
        above(v, x, i) == Some(c),
        above(v, x, j) == Some(d),
    ensures
        c == d,
    decreases i,
{
    if i < j {
        lemma_above_add(v, x, i, 1);
        lemma_above_add(v, x, j, 1);
        let step = (j - i) as nat;
        lemma_above_add(v, x, (i + 1) as nat, step);
        assert(above(v, node, step) == Some(node));
    } else if j < i {
        lemma_one_branch(v, node, d, c, x, j, i);
    }
}

proof fn lemma_above_one(v: Seq<Item>, c: u64, node: u64)
    ensures
        above(v, c, 1) == Some(node) <==> (meta_of(v, c) matches Some(m) && m.parent == Some(node)),
{
    reveal_with_fuel(above, 2);
}

proof fn lemma_split(v: Seq<Item>, node: u64, x: u64, k: nat)
    requires
        lies_under(v, node, x, k),
        k > 1,
    ensures
        above(v, x, (k - 1) as nat) is Some,
        lies_under(v, above(v, x, (k - 1) as nat)->0, x, (k - 1) as nat),
        above(v, above(v, x, (k - 1) as nat)->0, 1) == Some(node),
        boxed_at(v, node),
{
    let c = above(v, x, (k - 1) as nat);
    assert(c is Some);
    lemma_above_add(v, x, (k - 1) as nat, 1);
    assert(above(v, x, k) is Some);
}

proof fn lemma_join(v: Seq<Item>, node: u64, c: u64, x: u64, k: nat)
    requires
        lies_under(v, c, x, k),
        above(v, c, 1) == Some(node),
        boxed_at(v, node),
    ensures
        lies_under(v, node, x, k + 1),
{
    lemma_above_add(v, x, k, 1);
    assert forall|j: nat| 0 < j <= k + 1 implies (#[trigger] above(v, x, j) matches Some(a)
        && boxed_at(v, a)) by {
        if j <= k {
            assert(above(v, x, j) is Some);
        }
    }
}

// --- What a layout holds ---

/// Whether a node lies at most `d` levels under another.
spec fn reaches(v: Seq<Item>, node: u64, x: u64, d: nat) -> bool {
    exists|k: nat| k <= d && #[trigger] lies_under(v, node, x, k)
}

/// Whether a step says of a node what the node itself says.
pub open spec fn is_true_step(v: Seq<Item>, s: LayoutStep) -> bool {
    meta_of(v, s.id) matches Some(m) && m.parent == Some(s.parent) && m.side == s.side
}

/// Whether each step comes behind that of its parent, which is `node` for the
/// first.
pub open spec fn is_top_down(steps: Seq<LayoutStep>, node: u64) -> bool {
    forall|i: int|
        0 <= i < steps.len() ==> (#[trigger] steps[i]).parent == node || has_step(
            steps.take(i),
            steps[i].parent,
        )
}

proof fn lemma_top_down_add(a: Seq<LayoutStep>, b: Seq<LayoutStep>, node: u64)
    requires
        is_top_down(a, node),
        is_top_down(b, node),
    ensures
        is_top_down(a + b, node),
{
    let c = a + b;
    assert forall|i: int| 0 <= i < c.len() implies (#[trigger] c[i]).parent == node || has_step(
        c.take(i),
        c[i].parent,
    ) by {
        if i < a.len() {
            assert(c[i] == a[i]);
            assert(c.take(i) =~= a.take(i));
        } else {
            let j = i - a.len();
            assert(c[i] == b[j]);
            if b[j].parent != node {
                let m = choose|m: int|
                    0 <= m < b.take(j).len() && (#[trigger] b.take(j)[m]).id == b[j].parent;
                assert(c.take(i)[a.len() + m] == b.take(j)[m]);
            }
        }
    }
}

proof fn lemma_top_down_below(s: LayoutStep, b: Seq<LayoutStep>)
    requires
        is_top_down(b, s.id),
    ensures
        is_top_down(seq![s] + b, s.parent),
{
    let c = seq![s] + b;
    assert forall|i: int| 0 <= i < c.len() implies (#[trigger] c[i]).parent == s.parent || has_step(
        c.take(i),
        c[i].parent,
    ) by {
        if i > 0 {
            assert(c[i] == b[i - 1]);
            assert(c.take(i)[0] == s);
            if b[i - 1].parent != s.id {
                let m = choose|m: int|
                    0 <= m < b.take(i - 1).len() && (#[trigger] b.take(i - 1)[m]).id == b[i
                        - 1].parent;
                assert(c.take(i)[m + 1] == b.take(i - 1)[m]);
            }
        }
    }
}

proof fn lemma_has_add(a: Seq<LayoutStep>, b: Seq<LayoutStep>, x: u64)
    ensures
        has_step(a + b, x) <==> has_step(a, x) || has_step(b, x),
{
    if has_step(a, x) {
        let i = choose|i: int| 0 <= i < a.len() && (#[trigger] a[i]).id == x;
        assert((a + b)[i] == a[i]);
    }
    if has_step(b, x) {
        let i = choose|i: int| 0 <= i < b.len() && (#[trigger] b[i]).id == x;
        assert((a + b)[a.len() + i] == b[i]);
    }
    if has_step(a + b, x) {
        let i = choose|i: int| 0 <= i < (a + b).len() && (#[trigger] (a + b)[i]).id == x;
        if i < a.len() {
            assert(a[i].id == x);
        } else {
            assert(b[i - a.len()].id == x);
        }
    }
}

proof fn lemma_layout(v: Seq<Item>, node: u64, d: nat)
    requires
        ids_differ(v),
    ensures
        forall|x: u64| #[trigger] has_step(laid_out(v, node, d), x) <==> reaches(v, node, x, d),
        forall|i: int|
            0 <= i < laid_out(v, node, d).len() ==> is_true_step(
                v,
                #[trigger] laid_out(v, node, d)[i],
            ),
        is_top_down(laid_out(v, node, d), node),
    decreases d, 1int, 0int,
{
    let steps = laid_out(v, node, d);
    if d > 0 && boxed_at(v, node) {
        let e = (d - 1) as nat;
        let lefts = children(v, node, MindMapSide::Left);
        let rights = children(v, node, MindMapSide::Right);
        let a = laid_side(v, node, MindMapSide::Left, lefts, 0, e);
        let b = laid_side(v, node, MindMapSide::Right, rights, 0, e);
        lemma_layout_side(v, node, MindMapSide::Left, 0, e);
        lemma_layout_side(v, node, MindMapSide::Right, 0, e);
        assert(steps == a + b);
        lemma_top_down_add(a, b, node);
        assert forall|x: u64| #[trigger] has_step(steps, x) <==> reaches(v, node, x, d) by {
            lemma_has_add(a, b, x);
            if reaches(v, node, x, d) {
                let k = choose|k: nat| k <= d && #[trigger] lies_under(v, node, x, k);
                let c = if k == 1 {
                    x
                } else {
                    lemma_split(v, node, x, k);
                    above(v, x, (k - 1) as nat)->0
                };
                lemma_above_one(v, c, node);
                let m = meta_of(v, c)->0;
                lemma_children(v, node, m.side, c);
                if k > 1 {
                    assert(reaches(v, c, x, e));
                }
                if m.side == MindMapSide::Left {
                    assert(lefts.contains(c));
                    assert(branch_holds(v, lefts, 0, x, e)) by {
                        assert(lefts[lefts.index_of(c)] == c);
                    }
                } else {
                    assert(rights.contains(c));
                    assert(branch_holds(v, rights, 0, x, e)) by {
                        assert(rights[rights.index_of(c)] == c);
                    }
                }
            }
            if has_step(a, x) {
                lemma_branch_reaches(v, node, MindMapSide::Left, x, e);
            }
            if has_step(b, x) {
                lemma_branch_reaches(v, node, MindMapSide::Right, x, e);
            }
        }
        assert forall|i: int| 0 <= i < steps.len() implies is_true_step(v, #[trigger] steps[i]) by {
            if i < a.len() {
                assert(steps[i] == a[i]);
            } else {
                assert(steps[i] == b[i - a.len()]);
            }
        }
    } else {
        assert forall|x: u64| #[trigger] has_step(steps, x) <==> reaches(v, node, x, d) by {
            if reaches(v, node, x, d) {
                let k = choose|k: nat| k <= d && #[trigger] lies_under(v, node, x, k);
                assert(above(v, x, k) is Some);
            }
        }
    }
}

/// Whether a node is one of the listed nodes from `i` on, or under one.
spec fn branch_holds(v: Seq<Item>, nodes: Seq<u64>, i: int, x: u64, d: nat) -> bool {
    exists|m: int| i <= m < nodes.len() && (x == #[trigger] nodes[m] || reaches(v, nodes[m], x, d))
}

proof fn lemma_branch_reaches(v: Seq<Item>, node: u64, side: MindMapSide, x: u64, d: nat)
    requires
        ids_differ(v),
        boxed_at(v, node),
        branch_holds(v, children(v, node, side), 0, x, d),
    ensures
        reaches(v, node, x, d + 1),
{
    let nodes = children(v, node, side);
    let m = choose|m: int|
        0 <= m < nodes.len() && (x == #[trigger] nodes[m] || reaches(v, nodes[m], x, d));
    let c = nodes[m];
    assert(nodes.contains(c));
    lemma_children(v, node, side, c);
    lemma_above_one(v, c, node);
    if x == c {
        assert(lies_under(v, node, x, 1));
    } else {
        let k = choose|k: nat| k <= d && #[trigger] lies_under(v, c, x, k);
        lemma_join(v, node, c, x, k);
        assert(lies_under(v, node, x, k + 1));
    }
}

proof fn lemma_layout_side(v: Seq<Item>, node: u64, side: MindMapSide, i: int, d: nat)
    requires
        ids_differ(v),
        0 <= i <= children(v, node, side).len(),
    ensures
        ({
            let nodes = children(v, node, side);
            let steps = laid_side(v, node, side, nodes, i, d);
            &&& forall|x: u64| #[trigger] has_step(steps, x) <==> branch_holds(v, nodes, i, x, d)
            &&& forall|j: int| 0 <= j < steps.len() ==> is_true_step(v, #[trigger] steps[j])
            &&& is_top_down(steps, node)
        }),
    decreases d, 2int, children(v, node, side).len() - i,
{
    let nodes = children(v, node, side);
    let steps = laid_side(v, node, side, nodes, i, d);
    if i < nodes.len() {
        let c = nodes[i];
        let s = LayoutStep { id: c, parent: node, side };
        let own = laid_out(v, c, d);
        let rest = laid_side(v, node, side, nodes, i + 1, d);
        lemma_layout(v, c, d);
        lemma_layout_side(v, node, side, i + 1, d);
        assert(nodes.contains(c));
        lemma_children(v, node, side, c);
        assert(steps == seq![s] + own + rest);
        lemma_top_down_below(s, own);
        lemma_top_down_add(seq![s] + own, rest, node);
        assert forall|j: int| 0 <= j < steps.len() implies is_true_step(v, #[trigger] steps[j]) by {
            if j == 0 {
                assert(steps[j] == s);
            } else if j <= own.len() {
                assert(steps[j] == own[j - 1]);
            } else {
                assert(steps[j] == rest[j - 1 - own.len()]);
            }
        }
        assert forall|x: u64| #[trigger] has_step(steps, x) <==> branch_holds(v, nodes, i, x, d) by {
            lemma_has_add(seq![s] + own, rest, x);
            lemma_has_add(seq![s], own, x);
            assert(has_step(own, x) <==> reaches(v, c, x, d));
            assert(has_step(rest, x) <==> branch_holds(v, nodes, i + 1, x, d));
            assert(has_step(seq![s], x) <==> x == c) by {
                assert(seq![s][0] == s);
            }
            if branch_holds(v, nodes, i, x, d) {
                let m = choose|m: int|
                    i <= m < nodes.len() && (x == #[trigger] nodes[m] || reaches(
                        v,
                        nodes[m],
                        x,
                        d,
                    ));
                if m > i {
                    assert(nodes[m] == nodes[m]);
                    assert(branch_holds(v, nodes, i + 1, x, d));
                }
            }
            if branch_holds(v, nodes, i + 1, x, d) {
                let m = choose|m: int|
                    i + 1 <= m < nodes.len() && (x == #[trigger] nodes[m] || reaches(
                        v,
                        nodes[m],
                        x,
                        d,
                    ));
                assert(x == nodes[m] || reaches(v, nodes[m], x, d));
            }
            if x == c || reaches(v, c, x, d) {
                assert(x == nodes[i] || reaches(v, nodes[i], x, d));
            }
        }
    } else {
        assert forall|x: u64| #[trigger] has_step(steps, x) <==> branch_holds(v, nodes, i, x, d) by {}
    }
}

// --- Once each ---

/// Whether no two steps are for the same node.
pub open spec fn is_once(steps: Seq<LayoutStep>) -> bool {
    forall|i: int, j: int|
        0 <= i < j < steps.len() ==> (#[trigger] steps[i]).id != (#[trigger] steps[j]).id
}

proof fn lemma_once_add(a: Seq<LayoutStep>, b: Seq<LayoutStep>)
    requires
        is_once(a),
        is_once(b),
        forall|x: u64| !(#[trigger] has_step(a, x) && has_step(b, x)),
    ensures
        is_once(a + b),
{
    let c = a + b;
    assert forall|i: int, j: int| 0 <= i < j < c.len() implies (#[trigger] c[i]).id != (
    #[trigger] c[j]).id by {
        if j < a.len() {
            assert(c[i] == a[i] && c[j] == a[j]);
        } else if i >= a.len() {
            assert(c[i] == b[i - a.len()] && c[j] == b[j - a.len()]);
        } else {
            assert(c[i] == a[i] && c[j] == b[j - a.len()]);
            assert(has_step(a, a[i].id));
            assert(b[j - a.len()].id == c[j].id);
            assert(has_step(b, c[j].id));
        }
    }
}

proof fn lemma_reached_above(v: Seq<Item>, c: u64, x: u64, d: nat) -> (k: nat)
    requires
        x == c || reaches(v, c, x, d),
    ensures
        above(v, x, k) == Some(c),
{
    if x == c {
        0
    } else {
        choose|k: nat| k <= d && #[trigger] lies_under(v, c, x, k)
    }
}

proof fn lemma_layout_once(v: Seq<Item>, node: u64, d: nat)
    requires
        ids_differ(v),
        is_free(v, node),
    ensures
        is_once(laid_out(v, node, d)),
    decreases d, 1int, 0int,
{
    if d > 0 && boxed_at(v, node) {
        let e = (d - 1) as nat;
        let lefts = children(v, node, MindMapSide::Left);
        let rights = children(v, node, MindMapSide::Right);
        let a = laid_side(v, node, MindMapSide::Left, lefts, 0, e);
        let b = laid_side(v, node, MindMapSide::Right, rights, 0, e);
        lemma_side_once(v, node, MindMapSide::Left, 0, e);
        lemma_side_once(v, node, MindMapSide::Right, 0, e);
        lemma_layout_side(v, node, MindMapSide::Left, 0, e);
        lemma_layout_side(v, node, MindMapSide::Right, 0, e);
        assert forall|x: u64| !(#[trigger] has_step(a, x) && has_step(b, x)) by {
            if has_step(a, x) && has_step(b, x) {
                let m = choose|m: int|
                    0 <= m < lefts.len() && (x == #[trigger] lefts[m] || reaches(v, lefts[m], x, e));
                let n = choose|n: int|
                    0 <= n < rights.len() && (x == #[trigger] rights[n] || reaches(
                        v,
                        rights[n],
                        x,
                        e,
                    ));
                let i = lemma_reached_above(v, lefts[m], x, e);
                let j = lemma_reached_above(v, rights[n], x, e);
                assert(lefts.contains(lefts[m]) && rights.contains(rights[n]));
                lemma_children(v, node, MindMapSide::Left, lefts[m]);
                lemma_children(v, node, MindMapSide::Right, rights[n]);
                lemma_above_one(v, lefts[m], node);
                lemma_above_one(v, rights[n], node);
                lemma_one_branch(v, node, lefts[m], rights[n], x, i, j);
            }
        }
        lemma_once_add(a, b);
    }
}

proof fn lemma_side_once(v: Seq<Item>, node: u64, side: MindMapSide, i: int, d: nat)
    requires
        ids_differ(v),
        is_free(v, node),
        0 <= i <= children(v, node, side).len(),
    ensures
        is_once(laid_side(v, node, side, children(v, node, side), i, d)),
    decreases d, 2int, children(v, node, side).len() - i,
{
    let nodes = children(v, node, side);
    if i < nodes.len() {
        let c = nodes[i];
        let s = LayoutStep { id: c, parent: node, side };
        let own = laid_out(v, c, d);
        let rest = laid_side(v, node, side, nodes, i + 1, d);
        assert(nodes.contains(c));
        lemma_children(v, node, side, c);
        lemma_above_one(v, c, node);
        lemma_free_child(v, node, c);
        lemma_layout_once(v, c, d);
        lemma_side_once(v, node, side, i + 1, d);
        lemma_layout(v, c, d);
        lemma_layout_side(v, node, side, i + 1, d);
        lemma_children_once(v, node, side);
        assert forall|x: u64| !(#[trigger] has_step(seq![s], x) && has_step(own, x)) by {
            if has_step(seq![s], x) && has_step(own, x) {
                assert(x == c);
                let k = choose|k: nat| k <= d && #[trigger] lies_under(v, c, x, k);
                assert(above(v, c, k) == Some(c));
            }
        }
        lemma_once_add(seq![s], own);
        let first = seq![s] + own;
        assert forall|x: u64| !(#[trigger] has_step(first, x) && has_step(rest, x)) by {
            if has_step(first, x) && has_step(rest, x) {
                lemma_has_add(seq![s], own, x);
                assert(x == c || reaches(v, c, x, d)) by {
                    if has_step(seq![s], x) {
                        assert(seq![s][0] == s);
                    } else {
                        assert(has_step(own, x));
                    }
                }
                let m = choose|m: int|
                    i + 1 <= m < nodes.len() && (x == #[trigger] nodes[m] || reaches(
                        v,
                        nodes[m],
                        x,
                        d,
                    ));
                assert(nodes.contains(nodes[m]));
                lemma_children(v, node, side, nodes[m]);
                lemma_above_one(v, nodes[m], node);
                let p = lemma_reached_above(v, c, x, d);
                let q = lemma_reached_above(v, nodes[m], x, d);
                lemma_one_branch(v, node, c, nodes[m], x, p, q);
                assert(nodes[i] == nodes[m]);
            }
        }
        lemma_once_add(first, rest);
    }
}

// --- Deep enough ---

proof fn lemma_shallow(v: Seq<Item>, root: u64, x: u64, k: nat)
    requires
        is_free(v, root),
        lies_under(v, root, x, k),
    ensures
        k <= v.len(),
{
    let places = Seq::new(k, |i: int| index_of(v, above(v, x, (i + 1) as nat)->0)->0);
    assert forall|i: int| 0 <= i < places.len() implies 0 <= #[trigger] places[i] < v.len() by {
        assert(above(v, x, (i + 1) as nat) is Some);
        lemma_index_from(v, above(v, x, (i + 1) as nat)->0, 0);
    }
    assert forall|i: int, j: int| 0 <= i < j < places.len() implies places[i] != places[j] by {
        let a = (i + 1) as nat;
        let b = (j + 1) as nat;
        assert(above(v, x, a) is Some && above(v, x, b) is Some);
        lemma_index_from(v, above(v, x, a)->0, 0);
        lemma_index_from(v, above(v, x, b)->0, 0);
        if above(v, x, a) == above(v, x, b) {
            let d = (k - b) as nat;
            lemma_same_above(v, x, a, b, d);
            assert(above(v, x, (a + d) as nat) == Some(root));
            lemma_above_add(v, x, (a + d) as nat, (b - a) as nat);
            assert(above(v, root, (b - a) as nat) == Some(root));
        }
    }
    assert(places.no_duplicates());
    places.unique_seq_to_set();
    let range = vstd::set_lib::set_int_range(0, v.len() as int);
    vstd::set_lib::lemma_int_range(0, v.len() as int);
    assert(places.to_set().subset_of(range));
    vstd::set_lib::lemma_len_subset(places.to_set(), range);
}

/// The layout of a root holds every node that lies under it through parents in
/// boxes, on either side and however deep, and nothing else. Each is there once,
/// with its own parent and its own side, behind its parent.
pub proof fn law_layout_holds_every_node_once(v: Seq<Item>, root: u64, x: u64)
    requires
        ids_differ(v),
        meta_of(v, root) matches Some(m) && m.parent is None,
    ensures
        ({
            let steps = laid_out(v, root, v.len());
            &&& has_step(steps, x) <==> exists|k: nat| #[trigger] lies_under(v, root, x, k)
            &&& is_once(steps)
            &&& is_top_down(steps, root)
            &&& forall|i: int| 0 <= i < steps.len() ==> is_true_step(v, #[trigger] steps[i])
        }),
{
    assert forall|k: nat| k > 0 implies #[trigger] above(v, root, k) != Some(root) by {
        lemma_no_higher(v, root, k);
    }
    lemma_layout(v, root, v.len());
    lemma_layout_once(v, root, v.len());
    let steps = laid_out(v, root, v.len());
    if exists|k: nat| #[trigger] lies_under(v, root, x, k) {
        let k = choose|k: nat| #[trigger] lies_under(v, root, x, k);
        lemma_shallow(v, root, x, k);
        assert(reaches(v, root, x, v.len()));
    }
    assert(has_step(steps, x) <==> reaches(v, root, x, v.len()));
}

/// A child of the root, or of any node that is laid out, is laid out too, where
/// the parent lies in a box.
pub proof fn law_children_are_laid_out(v: Seq<Item>, root: u64, parent: u64, i: int)
    requires
        ids_differ(v),
        meta_of(v, root) matches Some(m) && m.parent is None,
        parent == root || has_step(laid_out(v, root, v.len()), parent),
        boxed_at(v, parent),
        0 <= i < v.len(),
        v[i].mindmap matches Some(m) && m.parent == Some(parent),
    ensures
        has_step(laid_out(v, root, v.len()), v[i].id),
{
    let x = v[i].id;
    lemma_item_at(v, i);
    lemma_above_one(v, x, parent);
    assert(lies_under(v, parent, x, 1));
    law_layout_holds_every_node_once(v, root, parent);
    law_layout_holds_every_node_once(v, root, x);
    if parent != root {
        let k = choose|k: nat| #[trigger] lies_under(v, root, parent, k);
        lemma_above_add(v, x, 1, k);
        assert forall|j: nat| 0 < j <= k + 1 implies (#[trigger] above(v, x, j) matches Some(a)
            && boxed_at(v, a)) by {
            if j > 1 {
                lemma_above_add(v, x, 1, (j - 1) as nat);
                assert(above(v, parent, (j - 1) as nat) is Some);
            }
        }
        assert(lies_under(v, root, x, k + 1));
    }
}

} // verus!
