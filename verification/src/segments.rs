//! Lines that are tied to the sides of elements.
use crate::board::{WhiteboardView, BoardState};
use crate::mindmap::set_segment;
use crate::scene::{connector_capable, find_element, holds_id, is_boxed, item_of, items};
use crate::scene::{segment_in, segment_of, with_item, with_segment, Element, Item, SceneView};
use crate::scene::{Segment, SegmentAnchor};
use vstd::prelude::*;

verus! {

/// An end of a line that the host moves to where it is tied: the line, its
/// first or second end, and what it is tied to.
#[derive(Clone, Copy, PartialEq, Eq, Debug, Structural)]
pub struct TiedEnd {
    pub id: u64,
    pub which: usize,
    pub anchor: SegmentAnchor,
}

/// Whether there is a side that an anchor stands for.
pub open spec fn is_solid(v: Seq<Item>, a: SegmentAnchor) -> bool {
    match item_of(v, a.element_id) {
        Some(e) => is_boxed(e.kind) && a.connector < 4,
        None => false,
    }
}

/// An end that is tied to one of the listed elements.
pub open spec fn end_in(
    v: Seq<Item>,
    ids: Seq<u64>,
    id: u64,
    which: usize,
    a: Option<SegmentAnchor>,
) -> Seq<TiedEnd> {
    match a {
        Some(x) => if ids.contains(x.element_id) && is_solid(v, x) {
            seq![TiedEnd { id, which, anchor: x }]
        } else {
            Seq::empty()
        },
        None => Seq::empty(),
    }
}

/// The ends of an element that are tied to one of the listed elements.
pub open spec fn ends_in(v: Seq<Item>, ids: Seq<u64>, e: Item) -> Seq<TiedEnd> {
    match segment_in(e.kind) {
        Some(s) => end_in(v, ids, e.id, 0, s.start_anchor) + end_in(v, ids, e.id, 1, s.end_anchor),
        None => Seq::empty(),
    }
}

/// The ends that are tied to one of the listed elements, among the first `n`.
pub open spec fn ends_upto(v: Seq<Item>, ids: Seq<u64>, n: int) -> Seq<TiedEnd>
    decreases n,
{
    if n <= 0 {
        Seq::empty()
    } else {
        ends_upto(v, ids, n - 1) + ends_in(v, ids, v[n - 1])
    }
}

/// An end that stays tied while the listed elements move.
pub open spec fn kept_tie(ids: Seq<u64>, a: Option<SegmentAnchor>) -> Option<SegmentAnchor> {
    match a {
        Some(x) => if ids.contains(x.element_id) {
            Some(x)
        } else {
            None
        },
        None => None,
    }
}

/// A line among the listed elements, loose from all others.
pub open spec fn detached(e: Item, ids: Seq<u64>) -> Item {
    match segment_in(e.kind) {
        Some(s) => if ids.contains(e.id) {
            Item {
                kind: with_segment(
                    e.kind,
                    Segment {
                        start_anchor: kept_tie(ids, s.start_anchor),
                        end_anchor: kept_tie(ids, s.end_anchor),
                        ..s
                    },
                ),
                ..e
            }
        } else {
            e
        },
        None => e,
    }
}

/// A line with one end tied elsewhere.
pub open spec fn tied(s: Segment, which: usize, a: Option<SegmentAnchor>) -> Segment {
    if which == 0 {
        Segment { start_anchor: a, ..s }
    } else {
        Segment { end_anchor: a, ..s }
    }
}

/// The elements with one end of a line tied elsewhere.
pub open spec fn end_tied(v: Seq<Item>, id: u64, which: usize, a: Option<SegmentAnchor>) -> Seq<Item> {
    match item_of(v, id) {
        Some(e) => match segment_in(e.kind) {
            Some(s) => with_item(v, id, Item { kind: with_segment(e.kind, tied(s, which, a)), ..e }),
            None => v,
        },
        None => v,
    }
}

fn solid(v: &Vec<Element>, a: SegmentAnchor) -> (r: bool)
    ensures
        r == is_solid(items(v@), a),
{
    match find_element(v, a.element_id) {
        Some(i) => {
            assert(items(v@)[i as int] == v@[i as int]@);
            connector_capable(&v[i].kind) && a.connector < 4
        },
        None => false,
    }
}

fn push_end(
    out: &mut Vec<TiedEnd>,
    v: &Vec<Element>,
    ids: &Vec<u64>,
    id: u64,
    which: usize,
    a: Option<SegmentAnchor>,
)
    ensures
        final(out)@ == old(out)@ + end_in(items(v@), ids@, id, which, a),
{
    let ghost before = out@;
    match a {
        Some(x) => {
            if holds_id(ids, x.element_id) && solid(v, x) {
                out.push(TiedEnd { id, which, anchor: x });
            }
        },
        None => {},
    }
    assert(out@ =~= before + end_in(items(v@), ids@, id, which, a));
}

/// Loosens the listed lines from the elements that are not listed.
fn detach(v: &mut Vec<Element>, ids: &Vec<u64>)
    ensures
        items(final(v)@) == items(old(v)@).map_values(|e: Item| detached(e, ids@)),
{
    let ghost all = items(v@);
    let ghost want = all.map_values(|e: Item| detached(e, ids@));
    let mut i: usize = 0;
    while i < v.len()
        invariant
            i <= v@.len(),
            v@.len() == all.len(),
            want == all.map_values(|e: Item| detached(e, ids@)),
            forall|k: int|
                #![trigger items(v@)[k]]
                0 <= k < all.len() ==> items(v@)[k] == if k < i {
                    want[k]
                } else {
                    all[k]
                },
        decreases v.len() - i,
    {
        let ghost before = v@;
        assert(items(v@)[i as int] == v@[i as int]@);
        match segment_of(&v[i].kind) {
            Some(s) => {
                if holds_id(ids, v[i].id) {
                    let t = Segment {
                        style: s.style,
                        start_anchor: keep_tie(ids, s.start_anchor),
                        end_anchor: keep_tie(ids, s.end_anchor),
                    };
                    set_segment(&mut v[i], t);
                }
            },
            None => {},
        }
        proof {
            assert(v@[i as int]@ == want[i as int]);
            assert forall|k: int|
                #![trigger items(v@)[k]]
                0 <= k < all.len() implies items(v@)[k] == if k < i + 1 {
                want[k]
            } else {
                all[k]
            } by {
                assert(items(before)[k] == before[k]@);
                assert(items(v@)[k] == v@[k]@);
            }
        }
        i += 1;
    }
    assert(items(v@) =~= want);
}

fn keep_tie(ids: &Vec<u64>, a: Option<SegmentAnchor>) -> (r: Option<SegmentAnchor>)
    ensures
        r == kept_tie(ids@, a),
{
    match a {
        Some(x) => if holds_id(ids, x.element_id) {
            Some(x)
        } else {
            None
        },
        None => None,
    }
}

impl WhiteboardView {
    /// The ends of lines that follow the listed elements, for the host to move.
    pub fn sync_segment_anchors_for(&self, changed_ids: &Vec<u64>) -> (r: Vec<TiedEnd>)
        ensures
            r@ == ends_upto(
                self@.scene.elements,
                changed_ids@,
                self@.scene.elements.len() as int,
            ),
    {
        let ghost v = self@.scene.elements;
        let mut out: Vec<TiedEnd> = Vec::new();
        let mut i: usize = 0;
        while i < self.scene.elements.len()
            invariant
                i <= self.scene.elements@.len(),
                v == items(self.scene.elements@),
                out@ == ends_upto(v, changed_ids@, i as int),
            decreases self.scene.elements.len() - i,
        {
            let ghost before = out@;
            assert(v[i as int] == self.scene.elements@[i as int]@);
            match segment_of(&self.scene.elements[i].kind) {
                Some(s) => {
                    let id: u64 = self.scene.elements[i].id;
                    push_end(&mut out, &self.scene.elements, changed_ids, id, 0, s.start_anchor);
                    push_end(&mut out, &self.scene.elements, changed_ids, id, 1, s.end_anchor);
                },
                None => {},
            }
            assert(out@ =~= before + ends_in(v, changed_ids@, v[i as int]));
            i += 1;
        }
        out
    }

    /// Loosens the listed lines from the elements that do not move with them.
    pub fn detach_segment_bindings_for_move(&mut self, ids: &Vec<u64>)
        ensures
            final(self)@ == (BoardState {
                scene: SceneView {
                    elements: old(self)@.scene.elements.map_values(|e: Item| detached(e, ids@)),
                    ..old(self)@.scene
                },
                ..old(self)@
            }),
    {
        detach(&mut self.scene.elements, ids);
    }

    /// Ties one end of a line to the side of an element, or loosens it. Returns
    /// whether the host moves the end there.
    pub fn set_segment_endpoint_anchor(
        &mut self,
        segment_id: u64,
        endpoint: usize,
        anchor: Option<SegmentAnchor>,
    ) -> (moves: bool)
        ensures
            final(self)@ == (BoardState {
                scene: SceneView {
                    elements: end_tied(old(self)@.scene.elements, segment_id, endpoint, anchor),
                    ..old(self)@.scene
                },
                ..old(self)@
            }),
            moves == ((anchor matches Some(a) && is_solid(old(self)@.scene.elements, a)) && (item_of(
                old(self)@.scene.elements,
                segment_id,
            ) matches Some(e) && segment_in(e.kind) is Some)),
    {
        let aimed = match anchor {
            Some(a) => solid(&self.scene.elements, a),
            None => false,
        };
        match find_element(&self.scene.elements, segment_id) {
            Some(i) => {
                let ghost v = self.scene.elements@;
                assert(items(v)[i as int] == v[i as int]@);
                match segment_of(&self.scene.elements[i].kind) {
                    Some(s) => {
                        let t = if endpoint == 0 {
                            Segment { style: s.style, start_anchor: anchor, end_anchor: s.end_anchor }
                        } else {
                            Segment { style: s.style, start_anchor: s.start_anchor, end_anchor: anchor }
                        };
                        set_segment(&mut self.scene.elements[i], t);
                        assert(items(self.scene.elements@) =~= items(v).update(
                            i as int,
                            self.scene.elements@[i as int]@,
                        ));
                        aimed
                    },
                    None => false,
                }
            },
            None => false,
        }
    }
}

/// A line that moves with the elements at its ends stays tied to them; one that
/// does not move is left alone.
pub proof fn law_moving_together_keeps_ties(e: Item, ids: Seq<u64>)
    ensures
        !ids.contains(e.id) ==> detached(e, ids) == e,
        segment_in(e.kind) matches Some(s) && (s.start_anchor matches Some(a) ==> ids.contains(
            a.element_id,
        )) && (s.end_anchor matches Some(a) ==> ids.contains(a.element_id)) ==> detached(e, ids) == e,
{
}

/// After a move, a line that moved is tied to nothing that stayed behind.
pub proof fn law_moved_lines_are_loose(e: Item, ids: Seq<u64>)
    requires
        ids.contains(e.id),
        segment_in(e.kind) is Some,
    ensures
        segment_in(detached(e, ids).kind) matches Some(s) && (s.start_anchor matches Some(a)
            ==> ids.contains(a.element_id)) && (s.end_anchor matches Some(a) ==> ids.contains(
            a.element_id,
        )),
{
}

} // verus!
