//! What the seeds of diagrams look like, and what a frame does to the pages that
//! are kept.
use crate::cache::{after_frame, after_parse, holds, looked_up, Slot};
use crate::cheap::is_cheap;
use crate::diagrams::{
    diagram_items, flowchart_boxes, half_pixels, mindmap_boxes, pixels, Diagram, NodeBoxView, Term,
};
use crate::render::ready;
use crate::scene::{is_boxed, is_closed, is_rotatable, ElementKind, Item, MindMapSide};
use crate::scene::segment_in;
use vstd::prelude::*;

verus! {

// --- Kinds ---

/// Which kinds of element can be filled, have a box, and can be turned.
pub proof fn law_kinds_of_elements(k: ElementKind<Seq<char>>)
    ensures
        is_closed(k) <==> k is Rect || k is Ellipse || k is Diamond || k is Triangle
            || k is RoundRect || k is Star || k is Hexagon,
        is_boxed(k) <==> is_closed(k) || k is Text || k is Image,
        is_rotatable(k) <==> !(k is Embed),
        segment_in(k) is Some <==> k is Line || k is Arrow,
        !(is_closed(k) && segment_in(k) is Some),
{
}

// --- Seeds ---

/// Whether an element is an arrow between two others.
pub open spec fn joins(e: Item, a: u64, b: u64) -> bool {
    &&& e.kind matches ElementKind::Arrow(s)
    &&& s.start_anchor is Some && s.start_anchor->0.element_id == a
    &&& s.end_anchor is Some && s.end_anchor->0.element_id == b
}

/// A new mind map is a root with two branches on each side, counted from zero,
/// and an arrow from the root to each.
pub proof fn law_a_new_mind_map_has_four_branches(n: int, p: int)
    requires
        0 <= n,
        n + 9 <= u64::MAX,
    ensures
        ({
            let v = diagram_items(Diagram::MindMap, n, p);
            let root = n as u64;
            &&& v.len() == 9
            &&& forall|i: int| 0 <= i < 9 ==> (#[trigger] v[i]).id == n + i
            &&& v[0].mindmap is Some && v[0].mindmap->0.parent is None
            &&& forall|i: int|
                1 <= i <= 4 ==> (#[trigger] v[i]).mindmap is Some && v[i].mindmap->0.parent == Some(
                    root,
                ) && v[i].mindmap->0.order == (i - 1) % 2 && v[i].mindmap->0.side == if i <= 2 {
                    MindMapSide::Right
                } else {
                    MindMapSide::Left
                }
            &&& forall|i: int| 5 <= i <= 8 ==> joins(#[trigger] v[i], root, (n + i - 4) as u64)
        }),
{
    let v = diagram_items(Diagram::MindMap, n, p);
    assert(v.len() == 9);
    assert forall|i: int| 0 <= i < 9 implies (#[trigger] v[i]).id == n + i by {}
    assert forall|i: int| 5 <= i <= 8 implies joins(#[trigger] v[i], n as u64, (n + i - 4) as u64) by {}
}

/// A new flowchart runs from a start by a step to a decision, from there to a
/// step on either side, and from both to an end; the start and the end are
/// ellipses and the decision is a diamond.
pub proof fn law_a_new_flowchart_runs_from_start_to_end(n: int, p: int)
    requires
        0 <= n,
        n + 12 <= u64::MAX,
    ensures
        ({
            let v = diagram_items(Diagram::Flowchart, n, p);
            let id = |i: int| (n + i) as u64;
            &&& v.len() == 12
            &&& forall|i: int| 0 <= i < 12 ==> (#[trigger] v[i]).id == n + i
            &&& v[0].kind is Ellipse && v[0].label == Some("Start"@)
            &&& v[1].kind is RoundRect && v[1].label == Some("Process"@)
            &&& v[2].kind is Diamond && v[2].label == Some("Decision"@)
            &&& v[3].kind is RoundRect && v[3].label == Some("Yes"@)
            &&& v[4].kind is RoundRect && v[4].label == Some("No"@)
            &&& v[5].kind is Ellipse && v[5].label == Some("End"@)
            &&& joins(v[6], id(0), id(1))
            &&& joins(v[7], id(1), id(2))
            &&& joins(v[8], id(2), id(3))
            &&& joins(v[9], id(2), id(4))
            &&& joins(v[10], id(3), id(5))
            &&& joins(v[11], id(4), id(5))
        }),
{
    let v = diagram_items(Diagram::Flowchart, n, p);
    assert(v.len() == 12);
    assert forall|i: int| 0 <= i < 12 implies (#[trigger] v[i]).id == n + i by {}
}

/// Where the middle of a box lies, in half pixels from the middle of the
/// diagram, across and down.
pub open spec fn middle(d: Diagram, b: NodeBoxView) -> (int, int) {
    (half_pixels(d, b.x) + pixels(d, b.w), half_pixels(d, b.y) + pixels(d, b.h))
}

/// A new mind map has its root in the middle and its branches mirrored round it;
/// a new flowchart runs down its middle, with the two ways of its decision
/// mirrored beside it.
pub proof fn law_new_diagrams_are_centred()
    ensures
        ({
            let v = mindmap_boxes();
            let m = |i: int| middle(Diagram::MindMap, v[i]);
            &&& v.len() == 5
            &&& m(0) == (0int, 0int)
            &&& m(1).0 > 0 && m(1).1 < 0
            &&& m(2) == (m(1).0, -m(1).1)
            &&& m(3) == (-m(1).0, m(1).1)
            &&& m(4) == (-m(1).0, -m(1).1)
        }),
        ({
            let v = flowchart_boxes();
            let m = |i: int| middle(Diagram::Flowchart, v[i]);
            &&& v.len() == 6
            &&& m(0).0 == 0 && m(1) == (0int, 0int) && m(2).0 == 0 && m(5).0 == 0
            &&& m(0).1 < 0 < m(2).1 < m(5).1
            &&& m(3).0 > 0 && m(4).0 == -m(3).0
            &&& m(3).1 == m(2).1 && m(4).1 == m(2).1
        }),
{
    let v = mindmap_boxes();
    assert forall|i: int| 0 <= i < 5 implies lengths_known(Diagram::MindMap, #[trigger] v[i]) by {
        lemma_known(Diagram::MindMap, v[i]);
    }
    let d = Diagram::MindMap;
    assert(length_at(d, v[1].x, 0) == 196 && length_at(d, v[1].x, 1) == 240);
    assert(length_at(d, v[3].x, 0) == -196 && length_at(d, v[3].x, 1) == -240);
    assert(length_at(d, v[3].x, 2) == -328);
    assert(length_at(d, v[1].y, 0) == -168 && length_at(d, v[1].y, 1) == -48);
    assert(length_at(d, v[2].y, 0) == 168 && length_at(d, v[2].y, 1) == -48);
    assert(middle(d, v[0]) == (0int, 0int));
    assert(middle(d, v[1]) == (600int, -168int));
    assert(middle(d, v[2]) == (600int, 168int));
    assert(middle(d, v[3]) == (-600int, -168int));
    assert(middle(d, v[4]) == (-600int, 168int));
    let w = flowchart_boxes();
    assert forall|i: int| 0 <= i < 6 implies lengths_known(Diagram::Flowchart, #[trigger] w[i]) by {
        lemma_known(Diagram::Flowchart, w[i]);
    }
    assert(lengths_known(Diagram::MindMap, v[0]) && lengths_known(Diagram::MindMap, v[1])
        && lengths_known(Diagram::MindMap, v[2]) && lengths_known(Diagram::MindMap, v[3])
        && lengths_known(Diagram::MindMap, v[4]));
    assert(lengths_known(Diagram::Flowchart, w[0]) && lengths_known(Diagram::Flowchart, w[1])
        && lengths_known(Diagram::Flowchart, w[2]) && lengths_known(Diagram::Flowchart, w[3])
        && lengths_known(Diagram::Flowchart, w[4]) && lengths_known(Diagram::Flowchart, w[5]));
}

/// What the places of a box of up to three lengths come to.
spec fn lengths_known(d: Diagram, b: NodeBoxView) -> bool {
    half_pixels(d, b.x) == sum_of(d, b.x) && half_pixels(d, b.y) == sum_of(d, b.y)
}

spec fn length_at(d: Diagram, t: Seq<Term>, i: int) -> int {
    if i < t.len() {
        let n = t[i].halves * pixels(d, t[i].of);
        if t[i].plus {
            n
        } else {
            -n
        }
    } else {
        0
    }
}

spec fn sum_of(d: Diagram, t: Seq<Term>) -> int {
    length_at(d, t, 0) + length_at(d, t, 1) + length_at(d, t, 2)
}

proof fn lemma_known(d: Diagram, b: NodeBoxView)
    requires
        b.x.len() <= 3,
        b.y.len() <= 3,
    ensures
        lengths_known(d, b),
{
    lemma_sum(d, b.x);
    lemma_sum(d, b.y);
}

proof fn lemma_sum(d: Diagram, t: Seq<Term>)
    requires
        t.len() <= 3,
    ensures
        half_pixels(d, t) == sum_of(d, t),
    decreases t.len(),
{
    if t.len() > 0 {
        let a = t.drop_last();
        lemma_sum(d, a);
        let n = t.len() as int;
        assert(t.last() == t[n - 1]);
        assert forall|i: int| 0 <= i < n - 1 implies length_at(d, a, i) == #[trigger] length_at(
            d,
            t,
            i,
        ) by {
            assert(a[i] == t[i]);
        }
        assert(half_pixels(d, t) == half_pixels(d, a) + length_at(d, t, n - 1));
        assert(length_at(d, a, n - 1) == 0);
        if n == 1 {
            assert(length_at(d, a, 0) == 0 && length_at(d, a, 1) == 0 && length_at(d, a, 2) == 0);
        } else if n == 2 {
            assert(length_at(d, a, 0) == length_at(d, t, 0));
        } else {
            assert(length_at(d, a, 0) == length_at(d, t, 0));
            assert(length_at(d, a, 1) == length_at(d, t, 1));
        }
    }
}

// --- Frames ---

/// A frame parses only what is cheap: a page that is kept is used, one that is
/// cheap is parsed and kept, and a costly one is left alone and shown as plain
/// text.
pub proof fn law_a_frame_parses_only_cheap_pages(s: Seq<Slot>, key: Seq<char>, clock: int)
    ensures
        !holds(s, key) && !is_cheap(key) ==> after_frame(s, key, clock) == s && ready(false, key)
            is None,
        holds(s, key) ==> after_frame(s, key, clock) == looked_up(s, key, clock + 1),
        !holds(s, key) && is_cheap(key) ==> after_frame(s, key, clock) == after_parse(
            s,
            key,
            clock + 1,
        ),
        ready(true, key) == crate::parse::markdown_blocks(key, true),
        is_cheap(key) ==> ready(false, key) == ready(true, key),
{
}

} // verus!
