//! What a reader of a board sees over its elements.
use crate::board::BoardState;
use crate::layers::{chrome_of, cursor_of, focus_of, shown_text, Cursor, Focus, LocalThumbnailMode};
use crate::scene::{item_of, ElementKind, Item};
use crate::text::{blank, trim};
use crate::tools::Tool;
use vstd::prelude::*;

verus! {

/// One selected element has a frame with handles, several have a common one, and
/// an element whose text is edited has none. Lines can be drawn from the one
/// framed element while none is being drawn.
pub proof fn law_the_selection_is_framed(b: BoardState, i: int, id: u64)
    requires
        0 <= i < b.scene.elements.len(),
        b.scene.elements[i].id == id,
        item_of(b.scene.elements, id) == Some(b.scene.elements[i]),
    ensures
        b.selected == seq![id] && b.ui.edit.editing != Some(id) ==> chrome_of(b).single == Some(id)
            && !chrome_of(b).group,
        b.selected == seq![id] && b.ui.edit.editing == Some(id) ==> chrome_of(b).single is None
            && !chrome_of(b).connectors && !chrome_of(b).rotate,
        b.selected.len() > 1 && b.selected.contains(id) ==> chrome_of(b).group
            && chrome_of(b).single is None && !chrome_of(b).connectors,
        b.selected.len() == 0 ==> chrome_of(b).single is None && !chrome_of(b).group
            && !chrome_of(b).connectors && !chrome_of(b).rotate,
        chrome_of(b).connectors ==> b.ui.drag.connecting is None && b.ui.drag.pending is None,
        chrome_of(b).pending == b.ui.drag.pending,
        chrome_of(b).marquee == b.ui.drag.marquee,
        chrome_of(b).snap is Some ==> b.ui.drag.connecting is Some && chrome_of(b).snap
            == b.ui.drag.hovered_connector && chrome_of(b).snap->0.id
            != b.ui.drag.connecting->0.id,
{
}

/// The pointer is a closed hand while the canvas is moved, an open one where a
/// drag would move it, and an arrow otherwise.
pub proof fn law_the_pointer_shows_what_a_drag_does(b: BoardState)
    ensures
        b.ui.drag.panning ==> cursor_of(b.ui) == Cursor::ClosedHand,
        !b.ui.drag.panning && b.ui.read_only ==> cursor_of(b.ui) == Cursor::OpenHand,
        !b.ui.drag.panning && b.ui.tool == Tool::Pan ==> cursor_of(b.ui) == Cursor::OpenHand,
        !b.ui.drag.panning && !b.ui.read_only && b.ui.tool != Tool::Pan ==> cursor_of(b.ui)
            == Cursor::Arrow,
{
}

/// A thumbnail of a kind of content is of that content where there is any, and
/// else of nothing; left to itself it is of the selection first, then of what is
/// in view, then of everything.
pub proof fn law_a_thumbnail_finds_its_content(b: BoardState, in_view: bool, i: int, id: u64)
    requires
        0 <= i < b.scene.elements.len(),
        b.scene.elements[i].id == id,
    ensures
        b.selected == seq![id] ==> focus_of(b, LocalThumbnailMode::Auto, in_view) == Some(
            Focus::Selection(Some(id)),
        ),
        b.selected.len() == 0 ==> focus_of(b, LocalThumbnailMode::Auto, true) == Some(
            Focus::Viewport,
        ),
        b.selected.len() == 0 ==> focus_of(b, LocalThumbnailMode::Auto, false) == Some(
            Focus::AllContent,
        ),
        b.selected == seq![id] ==> focus_of(b, LocalThumbnailMode::Selection, in_view) == Some(
            Focus::Selection(Some(id)),
        ),
        b.selected.len() == 0 ==> focus_of(b, LocalThumbnailMode::Selection, in_view) is None,
        focus_of(b, LocalThumbnailMode::Viewport, true) == Some(Focus::Viewport),
        focus_of(b, LocalThumbnailMode::Viewport, false) is None,
        focus_of(b, LocalThumbnailMode::AllContent, in_view) == Some(Focus::AllContent),
        item_of(b.scene.elements, id) is Some ==> focus_of(
            b,
            LocalThumbnailMode::Element(id),
            in_view,
        ) == Some(Focus::Element(id)),
{
    if b.selected == seq![id] {
        assert(b.selected[0] == id);
        assert(b.selected.contains(b.scene.elements[i].id));
    }
}

/// Whether an element is a shape that can hold a label.
pub open spec fn is_shape(kind: ElementKind<Seq<char>>) -> bool {
    kind is Rect || kind is Ellipse || kind is Diamond || kind is Triangle || kind is RoundRect
        || kind is Star || kind is Hexagon
}

/// A text is shown whole in its own colour; a closed shape shows its label
/// without the gaps round it, in the label's colour or else its own, and no
/// label that is blank unless it is being edited.
pub proof fn law_elements_show_their_text(e: Item, editing: Option<u64>)
    ensures
        e.kind matches ElementKind::Text(t) ==> shown_text(e, editing) is Some && shown_text(
            e,
            editing,
        )->0.text == t && shown_text(e, editing)->0.color == e.stroke,
        is_shape(e.kind) && e.label is Some && !blank(e.label->0) ==> shown_text(e, editing) is Some
            && shown_text(e, editing)->0.text == trim(e.label->0) && shown_text(e, editing)->0.color
            == if e.label_color is Some {
            e.label_color
        } else {
            e.stroke
        },
        is_shape(e.kind) && e.label is None && editing != Some(e.id) ==> shown_text(e, editing)
            is None,
        is_shape(e.kind) && e.label is Some && blank(e.label->0) && editing != Some(e.id)
            ==> shown_text(e, editing) is None,
        !is_shape(e.kind) && !(e.kind is Text) ==> shown_text(e, editing) is None,
        shown_text(e, editing) is Some ==> (shown_text(e, editing)->0.active <==> editing == Some(
            e.id,
        )),
{
}

} // verus!
