//! Moving a selection through the paint order.
use crate::board::{only, snapshot, undone, without, WhiteboardView, BoardState, Ui, law_undo_restores};
use crate::scene::{copy_scene, holds_id, items, Element, Item, SceneView};
use vstd::prelude::*;

verus! {

/// Where a selection goes in the paint order; later elements cover earlier ones.
#[derive(Clone, Copy, PartialEq, Eq, Debug, Structural)]
pub enum ZOrder {
    ToFront,
    Forward,
    Backward,
    ToBack,
}

/// `v` with elements `i` and `i + 1` swapped.
pub open spec fn swapped(v: Seq<Item>, i: int) -> Seq<Item> {
    v.update(i, v[i + 1]).update(i + 1, v[i])
}

/// `v` with the listed elements a step further on, from place `i` down.
pub open spec fn forward(v: Seq<Item>, ids: Seq<u64>, i: int) -> Seq<Item>
    decreases i + 1,
{
    if i < 0 || i + 1 >= v.len() {
        v
    } else if ids.contains(v[i].id) && !ids.contains(v[i + 1].id) {
        forward(swapped(v, i), ids, i - 1)
    } else {
        forward(v, ids, i - 1)
    }
}

/// `v` with the listed elements a step back, from place `i` up.
pub open spec fn backward(v: Seq<Item>, ids: Seq<u64>, i: int) -> Seq<Item>
    decreases v.len() - i,
{
    if i < 1 || i >= v.len() {
        v
    } else if ids.contains(v[i].id) && !ids.contains(v[i - 1].id) {
        backward(swapped(v, i - 1), ids, i + 1)
    } else {
        backward(v, ids, i + 1)
    }
}

/// `v` with the listed elements moved.
pub open spec fn reordered(v: Seq<Item>, ids: Seq<u64>, op: ZOrder) -> Seq<Item> {
    match op {
        ZOrder::ToFront => without(v, ids) + only(v, ids),
        ZOrder::ToBack => only(v, ids) + without(v, ids),
        ZOrder::Forward => forward(v, ids, v.len() - 2),
        ZOrder::Backward => backward(v, ids, 1),
    }
}

/// The ids of elements.
pub open spec fn ids_of(v: Seq<Item>) -> Seq<u64> {
    v.map_values(|e: Item| e.id)
}

/// The board with its selection moved. Where that moves nothing, nothing changes.
pub open spec fn restacked(b: BoardState, op: ZOrder) -> BoardState {
    let w = reordered(b.scene.elements, b.selected, op);
    if ids_of(w) == ids_of(b.scene.elements) {
        b
    } else {
        BoardState {
            scene: SceneView { elements: w, ..b.scene },
            ui: Ui { dirty: false, ..b.ui },
            ..snapshot(b)
        }
    }
}

fn swap_up(v: &mut Vec<Element>, i: usize)
    requires
        i + 1 < old(v)@.len(),
    ensures
        items(final(v)@) == swapped(items(old(v)@), i as int),
{
    let ghost w = v@;
    let n: usize = v.len();
    assert(i + 1 < n);
    let e = v.remove(i);
    v.insert(i + 1, e);
    assert(items(v@) =~= swapped(items(w), i as int));
}

fn move_up(v: &mut Vec<Element>, ids: &Vec<u64>)
    ensures
        items(final(v)@) == forward(items(old(v)@), ids@, old(v)@.len() - 2),
{
    let ghost want = forward(items(v@), ids@, v@.len() - 2);
    if v.len() < 2 {
        return;
    }
    let mut i: usize = v.len() - 1;
    while i > 0
        invariant
            0 <= i < v@.len(),
            want == forward(items(v@), ids@, i - 1),
        decreases i,
    {
        i -= 1;
        assert(items(v@)[i as int] == v@[i as int]@);
        assert(items(v@)[i + 1] == v@[i + 1]@);
        if holds_id(ids, v[i].id) && !holds_id(ids, v[i + 1].id) {
            swap_up(v, i);
            assert(items(v@).len() == v@.len());
        }
    }
}

fn move_down(v: &mut Vec<Element>, ids: &Vec<u64>)
    ensures
        items(final(v)@) == backward(items(old(v)@), ids@, 1),
{
    let ghost want = backward(items(v@), ids@, 1);
    let mut i: usize = 1;
    while i < v.len()
        invariant
            1 <= i,
            want == backward(items(v@), ids@, i as int),
        decreases v@.len() - i,
    {
        let ghost n = items(v@).len();
        assert(items(v@)[i as int] == v@[i as int]@);
        assert(items(v@)[i - 1] == v@[i - 1]@);
        if holds_id(ids, v[i].id) && !holds_id(ids, v[i - 1].id) {
            swap_up(v, i - 1);
            assert(items(v@).len() == n);
        }
        i += 1;
    }
    assert(items(v@).len() == v@.len());
}

/// Parts the listed elements from the others, each in their order.
fn split(v: Vec<Element>, ids: &Vec<u64>) -> (r: (Vec<Element>, Vec<Element>))
    ensures
        items(r.0@) == only(items(v@), ids@),
        items(r.1@) == without(items(v@), ids@),
{
    let ghost all = items(v@);
    let ghost p = |e: Item| ids@.contains(e.id);
    let ghost q = |e: Item| !ids@.contains(e.id);
    let mut on: Vec<Element> = Vec::new();
    let mut off: Vec<Element> = Vec::new();
    let ghost src = v@;
    let ghost mut n: int = 0;
    for e in it: v
        invariant
            it.seq() == src,
            n == it.index(),
            0 <= n <= src.len(),
            all == items(src),
            p == (|e: Item| ids@.contains(e.id)),
            q == (|e: Item| !ids@.contains(e.id)),
            items(on@) == all.take(n).filter(p),
            items(off@) == all.take(n).filter(q),
    {
        let ghost a = on@;
        let ghost b = off@;
        proof {
            assert(all[n] == e@);
            assert(all.take(n + 1).drop_last() =~= all.take(n));
            reveal_with_fuel(Seq::filter, 2);
            assert(items(a.push(e)) =~= items(a).push(e@));
            assert(items(b.push(e)) =~= items(b).push(e@));
        }
        if holds_id(ids, e.id) {
            on.push(e);
        } else {
            off.push(e);
        }
        proof {
            n = n + 1;
        }
    }
    assert(all.take(all.len() as int) =~= all);
    (on, off)
}

fn same_ids(a: &Vec<Element>, b: &Vec<Element>) -> (r: bool)
    ensures
        r == (ids_of(items(a@)) == ids_of(items(b@))),
{
    let ghost x = ids_of(items(a@));
    let ghost y = ids_of(items(b@));
    if a.len() != b.len() {
        assert(x.len() != y.len());
        return false;
    }
    let mut i: usize = 0;
    while i < a.len()
        invariant
            i <= a@.len(),
            a@.len() == b@.len(),
            x == ids_of(items(a@)),
            y == ids_of(items(b@)),
            forall|k: int| 0 <= k < i ==> x[k] == y[k],
        decreases a.len() - i,
    {
        assert(x[i as int] == a@[i as int].id);
        assert(y[i as int] == b@[i as int].id);
        if a[i].id != b[i].id {
            return false;
        }
        i += 1;
    }
    assert(x =~= y);
    true
}

impl WhiteboardView {
    /// Moves the selection through the paint order; returns whether the host
    /// has to save. Where nothing moves, undo and redo stay as they are.
    pub fn reorder_selection(&mut self, op: ZOrder) -> (save: bool)
        ensures
            final(self)@ == restacked(old(self)@, op),
            save == (ids_of(reordered(old(self)@.scene.elements, old(self)@.selected, op)) != ids_of(
                old(self)@.scene.elements,
            )),
    {
        let ghost v = self.scene@.elements;
        let before = copy_scene(&self.scene);
        let mut els: Vec<Element> = Vec::new();
        std::mem::swap(&mut self.scene.elements, &mut els);
        match op {
            ZOrder::ToFront => {
                let (mut on, mut off) = split(els, &self.selected);
                let ghost a = off@;
                let ghost b = on@;
                off.append(&mut on);
                assert(items(off@) =~= items(a) + items(b));
                els = off;
            },
            ZOrder::ToBack => {
                let (mut on, mut off) = split(els, &self.selected);
                let ghost a = on@;
                let ghost b = off@;
                on.append(&mut off);
                assert(items(on@) =~= items(a) + items(b));
                els = on;
            },
            ZOrder::Forward => {
                assert(items(els@).len() == els@.len());
                move_up(&mut els, &self.selected);
            },
            ZOrder::Backward => {
                move_down(&mut els, &self.selected);
            },
        }
        assert(items(els@) == reordered(v, self@.selected, op));
        if same_ids(&els, &before.elements) {
            self.scene = before;
            return false;
        }
        self.scene.elements = els;
        self.remember(before);
        self.ui.dirty = true;
        self.flush()
    }
}

// --- What holds of it ---

proof fn lemma_swap_parts(v: Seq<Item>, i: int)
    requires
        0 <= i,
        i + 1 < v.len(),
    ensures
        v == v.take(i) + seq![v[i], v[i + 1]] + v.skip(i + 2),
        swapped(v, i) == v.take(i) + seq![v[i + 1], v[i]] + v.skip(i + 2),
{
    assert(v =~= v.take(i) + seq![v[i], v[i + 1]] + v.skip(i + 2));
    assert(swapped(v, i) =~= v.take(i) + seq![v[i + 1], v[i]] + v.skip(i + 2));
}

proof fn lemma_swap_filter(v: Seq<Item>, p: spec_fn(Item) -> bool, i: int)
    requires
        0 <= i,
        i + 1 < v.len(),
        p(v[i]) != p(v[i + 1]),
    ensures
        swapped(v, i).filter(p) == v.filter(p),
{
    let a = v.take(i);
    let x = v[i];
    let y = v[i + 1];
    let c = v.skip(i + 2);
    lemma_swap_parts(v, i);
    lemma_pair(x, y, p);
    lemma_pair(y, x, p);
    Seq::filter_distributes_over_add(a + seq![x, y], c, p);
    Seq::filter_distributes_over_add(a, seq![x, y], p);
    Seq::filter_distributes_over_add(a + seq![y, x], c, p);
    Seq::filter_distributes_over_add(a, seq![y, x], p);
}

proof fn lemma_swap_multiset(v: Seq<Item>, i: int)
    requires
        0 <= i,
        i + 1 < v.len(),
    ensures
        swapped(v, i).to_multiset() == v.to_multiset(),
{
    let a = v.take(i);
    let x = v[i];
    let y = v[i + 1];
    let c = v.skip(i + 2);
    lemma_swap_parts(v, i);
    vstd::seq_lib::lemma_multiset_commutative(a + seq![x, y], c);
    vstd::seq_lib::lemma_multiset_commutative(a, seq![x, y]);
    vstd::seq_lib::lemma_multiset_commutative(a + seq![y, x], c);
    vstd::seq_lib::lemma_multiset_commutative(a, seq![y, x]);
    vstd::seq_lib::lemma_multiset_commutative(seq![x], seq![y]);
    vstd::seq_lib::lemma_multiset_commutative(seq![y], seq![x]);
    assert(seq![x, y] =~= seq![x] + seq![y]);
    assert(seq![y, x] =~= seq![y] + seq![x]);
    assert(seq![x, y].to_multiset() =~= seq![y, x].to_multiset());
}

proof fn lemma_swap(v: Seq<Item>, ids: Seq<u64>, i: int)
    requires
        0 <= i,
        i + 1 < v.len(),
        ids.contains(v[i].id) != ids.contains(v[i + 1].id),
    ensures
        only(swapped(v, i), ids) == only(v, ids),
        without(swapped(v, i), ids) == without(v, ids),
        swapped(v, i).to_multiset() == v.to_multiset(),
{
    lemma_swap_filter(v, |e: Item| ids.contains(e.id), i);
    lemma_swap_filter(v, |e: Item| !ids.contains(e.id), i);
    lemma_swap_multiset(v, i);
}

proof fn lemma_pair(x: Item, y: Item, p: spec_fn(Item) -> bool)
    ensures
        p(x) && !p(y) ==> seq![x, y].filter(p) == seq![x],
        !p(x) && p(y) ==> seq![x, y].filter(p) == seq![y],
{
    let s = seq![x, y];
    reveal_with_fuel(Seq::filter, 3);
    assert(s.drop_last() =~= seq![x]);
    assert(s.drop_last().drop_last() =~= Seq::<Item>::empty());
    assert(p(x) && !p(y) ==> s.filter(p) =~= seq![x]);
    assert(!p(x) && p(y) ==> s.filter(p) =~= seq![y]);
}

proof fn lemma_forward(v: Seq<Item>, ids: Seq<u64>, i: int)
    ensures
        forward(v, ids, i).len() == v.len(),
        only(forward(v, ids, i), ids) == only(v, ids),
        without(forward(v, ids, i), ids) == without(v, ids),
        forward(v, ids, i).to_multiset() == v.to_multiset(),
        forall|j: int| i + 1 < j < v.len() ==> #[trigger] forward(v, ids, i)[j] == v[j],
    decreases i + 1,
{
    if i < 0 || i + 1 >= v.len() {
    } else if ids.contains(v[i].id) && !ids.contains(v[i + 1].id) {
        lemma_swap(v, ids, i);
        lemma_forward(swapped(v, i), ids, i - 1);
    } else {
        lemma_forward(v, ids, i - 1);
    }
}

proof fn lemma_backward(v: Seq<Item>, ids: Seq<u64>, i: int)
    ensures
        backward(v, ids, i).len() == v.len(),
        only(backward(v, ids, i), ids) == only(v, ids),
        without(backward(v, ids, i), ids) == without(v, ids),
        backward(v, ids, i).to_multiset() == v.to_multiset(),
        forall|j: int| 0 <= j < i - 1 && j < v.len() ==> #[trigger] backward(v, ids, i)[j] == v[j],
    decreases v.len() - i,
{
    if i < 1 || i >= v.len() {
    } else if ids.contains(v[i].id) && !ids.contains(v[i - 1].id) {
        lemma_swap(v, ids, i - 1);
        lemma_backward(swapped(v, i - 1), ids, i + 1);
    } else {
        lemma_backward(v, ids, i + 1);
    }
}

proof fn lemma_split(v: Seq<Item>, ids: Seq<u64>)
    ensures
        only(only(v, ids), ids) == only(v, ids),
        without(without(v, ids), ids) == without(v, ids),
        only(without(v, ids), ids) == Seq::<Item>::empty(),
        without(only(v, ids), ids) == Seq::<Item>::empty(),
        only(v, ids).to_multiset().add(without(v, ids).to_multiset()) == v.to_multiset(),
    decreases v.len(),
{
    broadcast use vstd::seq_lib::group_to_multiset_ensures;

    let p = |e: Item| ids.contains(e.id);
    let q = |e: Item| !ids.contains(e.id);
    reveal_with_fuel(Seq::filter, 2);
    if v.len() > 0 {
        let d = v.drop_last();
        let x = v.last();
        lemma_split(d, ids);
        assert(v =~= d.push(x));
        assert(only(d, ids) == d.filter(p));
        assert(without(d, ids) == d.filter(q));
        if p(x) {
            assert(v.filter(p) == d.filter(p).push(x));
            assert(v.filter(q) == d.filter(q));
            assert(d.filter(p).push(x).drop_last() =~= d.filter(p));
            assert(only(only(v, ids), ids) == only(only(d, ids), ids).push(x));
            assert(without(only(v, ids), ids) == without(only(d, ids), ids));
        } else {
            assert(v.filter(q) == d.filter(q).push(x));
            assert(v.filter(p) == d.filter(p));
            assert(d.filter(q).push(x).drop_last() =~= d.filter(q));
            assert(without(without(v, ids), ids) == without(without(d, ids), ids).push(x));
            assert(only(without(v, ids), ids) == only(without(d, ids), ids));
        }
        assert(only(v, ids).to_multiset().add(without(v, ids).to_multiset()) =~= v.to_multiset());
    } else {
        assert(only(v, ids).to_multiset().add(without(v, ids).to_multiset()) =~= v.to_multiset());
    }
}

/// Moving a selection neither loses nor adds an element.
pub proof fn law_reorder_keeps_the_elements(v: Seq<Item>, ids: Seq<u64>, op: ZOrder)
    ensures
        reordered(v, ids, op).to_multiset() == v.to_multiset(),
{
    match op {
        ZOrder::ToFront => {
            lemma_split(v, ids);
            vstd::seq_lib::lemma_multiset_commutative(without(v, ids), only(v, ids));
            assert(only(v, ids).to_multiset().add(without(v, ids).to_multiset()) =~= without(
                v,
                ids,
            ).to_multiset().add(only(v, ids).to_multiset()));
        },
        ZOrder::ToBack => {
            lemma_split(v, ids);
            vstd::seq_lib::lemma_multiset_commutative(only(v, ids), without(v, ids));
        },
        ZOrder::Forward => lemma_forward(v, ids, v.len() - 2),
        ZOrder::Backward => lemma_backward(v, ids, 1),
    }
}

/// Moving a selection keeps the order of its members, and of the others.
pub proof fn law_reorder_keeps_the_order(v: Seq<Item>, ids: Seq<u64>, op: ZOrder)
    ensures
        only(reordered(v, ids, op), ids) == only(v, ids),
        without(reordered(v, ids, op), ids) == without(v, ids),
{
    let p = |e: Item| ids.contains(e.id);
    let q = |e: Item| !ids.contains(e.id);
    match op {
        ZOrder::ToFront => {
            lemma_split(v, ids);
            Seq::filter_distributes_over_add(without(v, ids), only(v, ids), p);
            Seq::filter_distributes_over_add(without(v, ids), only(v, ids), q);
            assert(Seq::<Item>::empty() + only(v, ids) =~= only(v, ids));
            assert(without(v, ids) + Seq::<Item>::empty() =~= without(v, ids));
        },
        ZOrder::ToBack => {
            lemma_split(v, ids);
            Seq::filter_distributes_over_add(only(v, ids), without(v, ids), p);
            Seq::filter_distributes_over_add(only(v, ids), without(v, ids), q);
            assert(only(v, ids) + Seq::<Item>::empty() =~= only(v, ids));
            assert(Seq::<Item>::empty() + without(v, ids) =~= without(v, ids));
        },
        ZOrder::Forward => lemma_forward(v, ids, v.len() - 2),
        ZOrder::Backward => lemma_backward(v, ids, 1),
    }
}

proof fn lemma_forward_step(v: Seq<Item>, ids: Seq<u64>, k: int, i: int)
    requires
        0 <= i <= k,
        k + 1 < v.len(),
        ids.contains(v[i].id),
    ensures
        forward(v, ids, k)[i] == v[i] || forward(v, ids, k)[i + 1] == v[i],
    decreases k,
{
    let swap = ids.contains(v[k].id) && !ids.contains(v[k + 1].id);
    let w = if swap {
        swapped(v, k)
    } else {
        v
    };
    lemma_forward(w, ids, k - 1);
    if i < k {
        lemma_forward_step(w, ids, k - 1, i);
    } else if swap {
        assert(forward(w, ids, k - 1)[k + 1] == w[k + 1]);
    } else if k > 0 {
        assert(forward(w, ids, k - 1) == forward(w, ids, k - 2));
        lemma_forward(w, ids, k - 2);
        assert(forward(w, ids, k - 2)[k] == w[k]);
    }
}

proof fn lemma_backward_step(v: Seq<Item>, ids: Seq<u64>, k: int, i: int)
    requires
        1 <= k <= i < v.len(),
        ids.contains(v[i].id),
    ensures
        backward(v, ids, k)[i] == v[i] || backward(v, ids, k)[i - 1] == v[i],
    decreases v.len() - k,
{
    let swap = ids.contains(v[k].id) && !ids.contains(v[k - 1].id);
    let w = if swap {
        swapped(v, k - 1)
    } else {
        v
    };
    lemma_backward(w, ids, k + 1);
    if i > k {
        lemma_backward_step(w, ids, k + 1, i);
    } else if swap {
        assert(backward(w, ids, k + 1)[k - 1] == w[k - 1]);
    } else if k + 1 < v.len() {
        assert(backward(w, ids, k + 1) == backward(w, ids, k + 2));
        lemma_backward(w, ids, k + 2);
        assert(backward(w, ids, k + 2)[k] == w[k]);
    }
}

/// A step forward or back moves each member of the selection one place at most.
pub proof fn law_one_step_at_most(v: Seq<Item>, ids: Seq<u64>, i: int)
    requires
        0 <= i < v.len(),
        ids.contains(v[i].id),
    ensures
        reordered(v, ids, ZOrder::Forward)[i] == v[i] || (i + 1 < v.len() && reordered(
            v,
            ids,
            ZOrder::Forward,
        )[i + 1] == v[i]),
        reordered(v, ids, ZOrder::Backward)[i] == v[i] || (i > 0 && reordered(
            v,
            ids,
            ZOrder::Backward,
        )[i - 1] == v[i]),
{
    let n = v.len() as int;
    if i + 1 < n {
        lemma_forward_step(v, ids, n - 2, i);
    } else {
        if n >= 2 && !(ids.contains(v[n - 2].id) && !ids.contains(v[n - 1].id)) {
            lemma_forward(v, ids, n - 3);
        }
    }
    if i > 0 {
        lemma_backward_step(v, ids, 1, i);
    } else if n > 1 {
        lemma_backward(v, ids, 2);
    }
}

proof fn lemma_forward_moves(v: Seq<Item>, ids: Seq<u64>, k: int, i: int)
    requires
        0 <= i <= k,
        k + 1 < v.len(),
        ids.contains(v[i].id),
        !ids.contains(v[i + 1].id),
    ensures
        forward(v, ids, k)[i + 1] == v[i],
    decreases k,
{
    let swap = ids.contains(v[k].id) && !ids.contains(v[k + 1].id);
    let w = if swap {
        swapped(v, k)
    } else {
        v
    };
    lemma_forward(w, ids, k - 1);
    if i < k {
        assert(w[i] == v[i]);
        if i + 1 == k {
            assert(!swap);
        }
        assert(w[i + 1] == v[i + 1]);
        lemma_forward_moves(w, ids, k - 1, i);
    }
}

proof fn lemma_backward_moves(v: Seq<Item>, ids: Seq<u64>, k: int, i: int)
    requires
        1 <= k <= i < v.len(),
        ids.contains(v[i].id),
        !ids.contains(v[i - 1].id),
    ensures
        backward(v, ids, k)[i - 1] == v[i],
    decreases v.len() - k,
{
    let swap = ids.contains(v[k].id) && !ids.contains(v[k - 1].id);
    let w = if swap {
        swapped(v, k - 1)
    } else {
        v
    };
    lemma_backward(w, ids, k + 1);
    if i > k {
        assert(w[i] == v[i]);
        if i - 1 == k {
            assert(!swap);
        }
        assert(w[i - 1] == v[i - 1]);
        lemma_backward_moves(w, ids, k + 1, i);
    }
}

/// A step forward takes a member of the selection past what lies right in front
/// of it, and a step back past what lies right behind it.
pub proof fn law_one_step_moves(v: Seq<Item>, ids: Seq<u64>, i: int)
    requires
        0 <= i,
        i + 1 < v.len(),
    ensures
        ids.contains(v[i].id) && !ids.contains(v[i + 1].id) ==> reordered(
            v,
            ids,
            ZOrder::Forward,
        )[i + 1] == v[i],
        !ids.contains(v[i].id) && ids.contains(v[i + 1].id) ==> reordered(
            v,
            ids,
            ZOrder::Backward,
        )[i] == v[i + 1],
{
    if ids.contains(v[i].id) && !ids.contains(v[i + 1].id) {
        lemma_forward_moves(v, ids, v.len() - 2, i);
    }
    if !ids.contains(v[i].id) && ids.contains(v[i + 1].id) {
        lemma_backward_moves(v, ids, 1, i + 1);
    }
}

/// A selection that is brought to the front lies in front of all else.
pub proof fn law_front_is_in_front(v: Seq<Item>, ids: Seq<u64>, i: int, j: int)
    requires
        0 <= i < v.len(),
        0 <= j < v.len(),
        ids.contains(reordered(v, ids, ZOrder::ToFront)[i].id),
        !ids.contains(reordered(v, ids, ZOrder::ToFront)[j].id),
    ensures
        j < i,
{
    let p = |e: Item| ids.contains(e.id);
    let q = |e: Item| !ids.contains(e.id);
    let a = without(v, ids);
    let b = only(v, ids);
    law_reorder_keeps_the_elements(v, ids, ZOrder::ToFront);
    (a + b).to_multiset_ensures();
    v.to_multiset_ensures();
    assert((a + b).len() == v.len());
    if i < a.len() {
        v.lemma_filter_pred(q, i);
        assert(q((a + b)[i]));
    }
    if j >= a.len() {
        v.lemma_filter_pred(p, j - a.len());
        assert(p((a + b)[j]));
    }
}

/// A selection that is sent to the back lies behind all else.
pub proof fn law_back_is_behind(v: Seq<Item>, ids: Seq<u64>, i: int, j: int)
    requires
        0 <= i < v.len(),
        0 <= j < v.len(),
        ids.contains(reordered(v, ids, ZOrder::ToBack)[i].id),
        !ids.contains(reordered(v, ids, ZOrder::ToBack)[j].id),
    ensures
        i < j,
{
    let p = |e: Item| ids.contains(e.id);
    let q = |e: Item| !ids.contains(e.id);
    let a = only(v, ids);
    let b = without(v, ids);
    law_reorder_keeps_the_elements(v, ids, ZOrder::ToBack);
    (a + b).to_multiset_ensures();
    v.to_multiset_ensures();
    assert((a + b).len() == v.len());
    if j < a.len() {
        v.lemma_filter_pred(p, j);
        assert(p((a + b)[j]));
    }
    if i >= a.len() {
        v.lemma_filter_pred(q, i - a.len());
        assert(q((a + b)[i]));
    }
}

/// A move through the paint order can be undone.
pub proof fn law_undo_restores_the_order(b: BoardState, op: ZOrder)
    requires
        restacked(b, op) != b,
    ensures
        undone(restacked(b, op)).scene == b.scene,
{
    law_undo_restores(b, restacked(b, op));
}

} // verus!
