//! What holds of the changes that the controls make to a board.
use crate::board::{color_picked, first_color};
use crate::board::{law_undo_restores, locked, recolored, shown_color, stamped};
use crate::board::{template_applied, undone, with_tool, BoardState, PickerTarget, Popups, Ui};
use crate::board::EndpointDrag;
use crate::controls::{format_rows, hex_color, hex_of, menu_rows, row_chosen, MenuOutcomeView};
use crate::controls::{FormatRow, MenuRow};
use crate::diagrams::thing_added;
use crate::drags::{end_snap, endpoint_dragged, right_pressed, EndSnap};
use crate::editing::{committed, finished, KeyView};
use crate::key_laws::{is_command, is_listening};
use crate::keys::{key_pressed, BoardKeyView, KeyOutcomeView};
use crate::press::popped;
use crate::scene::{index_of, is_boxed, item_of, lemma_index_from, segment_in, ElementKind, Item};
use crate::scene::{Segment, SegmentAnchor};
use crate::segments::{end_in, end_tied, ends_in, ends_upto, TiedEnd};
use crate::styles::{Format, RunStyle};
use crate::text::blank;
use crate::tools::Tool;
use vstd::prelude::*;

verus! {

// --- Colours ---

/// Whether an element has an inside.
pub open spec fn has_inside(e: Item) -> bool {
    e.kind is Rect || e.kind is Ellipse || e.kind is Diamond || e.kind is Triangle
        || e.kind is RoundRect || e.kind is Star || e.kind is Hexagon
}

/// A colour that is picked goes to the new elements and to the selection: to the
/// outline of everything, and to the inside and the label of what has an inside.
/// Nothing else of an element changes, and nothing at all of the others.
pub proof fn law_a_colour_goes_to_the_selection(b: BoardState, color: Option<u32>, k: int)
    requires
        0 <= k < b.scene.elements.len(),
    ensures
        ({
            let r = recolored(b, color);
            let e = b.scene.elements[k];
            let f = r.scene.elements[k];
            let target = b.ui.pop.picker;
            &&& r.scene.elements.len() == b.scene.elements.len()
            &&& !b.selected.contains(e.id) ==> f == e
            &&& b.selected.contains(e.id) ==> match target {
                Some(PickerTarget::Fill) => f == if has_inside(e) {
                    Item { fill: color, ..e }
                } else {
                    e
                },
                Some(PickerTarget::Text) => f == if has_inside(e) {
                    Item { label_color: color, ..e }
                } else {
                    e
                },
                _ => f == (Item { stroke: color, ..e }),
            }
            &&& match target {
                Some(PickerTarget::Fill) => r.ui.ink.fill == color && r.ui.ink.stroke
                    == b.ui.ink.stroke && r.ui.ink.text == b.ui.ink.text,
                Some(PickerTarget::Text) => r.ui.ink.text == color && r.ui.ink.stroke
                    == b.ui.ink.stroke && r.ui.ink.fill == b.ui.ink.fill,
                _ => r.ui.ink.stroke == color && r.ui.ink.fill == b.ui.ink.fill && r.ui.ink.text
                    == b.ui.ink.text,
            }
            &&& r.selected == b.selected
            &&& r.history == b.history
        }),
{
}

/// A colour that is picked at once is one step to undo.
pub proof fn law_a_picked_colour_can_be_undone(b: BoardState, color: Option<u32>)
    requires
        b.selected.len() > 0,
    ensures
        color_picked(b, color).scene == recolored(b, color).scene,
        undone(color_picked(b, color)).scene == b.scene,
{
    law_undo_restores(b, color_picked(b, color));
}

/// The picker shows the colour of the one selected element, or else the one for
/// new elements.
pub proof fn law_the_picker_shows_the_colour(b: BoardState, target: PickerTarget)
    ensures
        ({
            let ink = match target {
                PickerTarget::Stroke => b.ui.ink.stroke,
                PickerTarget::Fill => b.ui.ink.fill,
                PickerTarget::Text => b.ui.ink.text,
            };
            &&& b.selected.len() != 1 ==> shown_color(b, target) == ink
            &&& b.selected.len() == 1 ==> match item_of(b.scene.elements, b.selected[0]) {
                Some(e) => {
                    let own = match target {
                        PickerTarget::Stroke => e.stroke,
                        PickerTarget::Fill => e.fill,
                        PickerTarget::Text => e.label_color,
                    };
                    shown_color(b, target) == if own is Some {
                        own
                    } else {
                        ink
                    }
                },
                None => shown_color(b, target) == ink,
            }
            &&& shown_color(b, target) matches Some(c) ==> first_color(b, target) == c
            &&& shown_color(b, target) is None ==> first_color(b, target) == 0x4080f0ff
        }),
{
}

/// The value of hexadecimal digits.
pub open spec fn hex_value(s: Seq<char>) -> int
    decreases s.len(),
{
    if s.len() == 0 {
        0
    } else {
        let c = s.last();
        hex_value(s.drop_last()) * 16 + if '0' <= c && c <= '9' {
            c as int - '0' as int
        } else {
            c as int - 'A' as int + 10
        }
    }
}

/// How many numbers `k` hexadecimal digits can write.
spec fn hex_room(k: nat) -> int
    decreases k,
{
    if k == 0 {
        1
    } else {
        16 * hex_room((k - 1) as nat)
    }
}

proof fn lemma_hex_value(n: int, k: nat)
    requires
        0 <= n < hex_room(k),
    ensures
        hex_value(hex_of(n, k)) == n,
    decreases k,
{
    if k > 0 {
        lemma_hex_value(n / 16, (k - 1) as nat);
        let s = hex_of(n, k);
        assert(s.drop_last() =~= hex_of(n / 16, (k - 1) as nat));
        assert(n == (n / 16) * 16 + n % 16);
    }
}

/// The text of a colour is a hash and the digits of its red, green and blue.
pub proof fn law_hex_reads_back(c: u32)
    ensures
        hex_color(c)[0] == '#',
        hex_value(hex_color(c).skip(1)) == c as int / 256,
{
    reveal_with_fuel(hex_room, 7);
    assert(hex_room(6) == 0x1000000);
    lemma_hex_value(c as int / 256, 6);
    assert(hex_color(c).skip(1) =~= hex_of(c as int / 256, 6));
}

// --- Tools and locks ---

/// Picking a tool makes it the active one and closes the flyout. The selection
/// goes, unless the tool was active or is the one that selects; a read-only board
/// keeps to panning.
pub proof fn law_a_tool_is_picked(b: BoardState, t: Tool)
    ensures
        ({
            let r = with_tool(b, t);
            &&& r.scene == b.scene
            &&& r.history == b.history
            &&& r.ui.pop.open_group is None
            &&& b.ui.read_only ==> r.ui.tool == Tool::Pan && r.selected.len() == 0
            &&& !b.ui.read_only ==> r.ui.tool == t && if t == b.ui.tool || t == Tool::Select {
                r.selected == b.selected
            } else {
                r.selected.len() == 0
            }
        }),
{
}

/// A board that is locked keeps to panning: nothing is edited, drawn or open.
/// Unlocking it changes nothing else.
pub proof fn law_a_lock_closes_everything(u: Ui)
    ensures
        ({
            let r = locked(u, true);
            &&& r.read_only
            &&& r.tool == Tool::Pan
            &&& r.edit.editing is None
            &&& !r.edit.text_selecting
            &&& r.edit.marked_range is None
            &&& r.drag.pending is None
            &&& r.drag.connecting is None
            &&& r.drag.hovered_connector is None
            &&& r.pop.picker is None
            &&& r.pop.open_group is None
            &&& !r.pop.width_open
            &&& !r.pop.font_open
            &&& !r.pop.templates_open
            &&& !r.pop.context_menu
            &&& !r.pop.format_flyout
            &&& r.ink == u.ink
            &&& r.toolbar_vertical == u.toolbar_vertical
            &&& r.dirty == u.dirty
            &&& locked(u, false) == (Ui { read_only: false, ..u })
        }),
{
}

// --- Adding ---

/// A group of elements that is put on a board is there as it was, under ids of
/// its own, behind what was there; it is selected, with the tool that selects,
/// and goes again with one undo.
pub proof fn law_a_group_is_put_as_it_was(b: BoardState, v: Seq<Item>, k: int)
    requires
        b.next_id + v.len() <= u64::MAX,
        0 <= k < v.len(),
    ensures
        ({
            let r = stamped(b, v);
            let n = b.scene.elements.len();
            &&& r.scene.elements.len() == n + v.len()
            &&& r.scene.elements.take(n as int) == b.scene.elements
            &&& r.scene.elements[n + k] == (Item { id: (b.next_id + k) as u64, ..v[k] })
            &&& r.selected.len() == v.len()
            &&& r.selected[k] == b.next_id + k
            &&& r.next_id == b.next_id + v.len()
            &&& r.ui.tool == Tool::Select
            &&& undone(r).scene == b.scene
        }),
{
    let r = stamped(b, v);
    assert(r.scene.elements.take(b.scene.elements.len() as int) =~= b.scene.elements);
    law_undo_restores(b, r);
}

/// A template is put on the board like a group of its elements, and the gallery
/// closes; there is nothing to put where there is no such template.
pub proof fn law_a_template_is_put(b: BoardState, index: int)
    requires
        0 <= index,
    ensures
        index >= b.templates.len() ==> template_applied(b, index) == b,
        index < b.templates.len() ==> {
            let r = template_applied(b, index);
            let s = stamped(b, b.templates[index].elements);
            &&& r.scene == s.scene
            &&& r.selected == s.selected
            &&& r.history == s.history
            &&& r.next_id == s.next_id
            &&& !r.ui.pop.templates_open
            &&& r.templates == b.templates
        },
{
}

/// A card or an image that is put on a board lies on top, where it was put, is
/// the one thing selected, and goes again with one undo.
pub proof fn law_a_thing_is_put_on_top(b: BoardState, place: u64, kind: ElementKind<Seq<char>>)
    requires
        b.next_id < u64::MAX,
    ensures
        ({
            let r = thing_added(b, place, kind);
            let w = r.scene.elements;
            &&& w.len() == b.scene.elements.len() + 1
            &&& w.drop_last() == b.scene.elements
            &&& w.last().id == b.next_id
            &&& w.last().kind == kind
            &&& w.last().place == place
            &&& r.selected == seq![b.next_id]
            &&& r.next_id == b.next_id + 1
            &&& r.ui.tool == Tool::Select
            &&& undone(r).scene == b.scene
        }),
{
    let r = thing_added(b, place, kind);
    assert(r.scene.elements.drop_last() =~= b.scene.elements);
    law_undo_restores(b, r);
}

// --- Lines ---

/// An end of a line that is dragged is tied to the element that it is on, and to
/// nothing where it is on none or with a modifier. The other end stays, and so
/// does everything else.
pub proof fn law_a_dragged_end_is_tied(
    b: BoardState,
    ep: EndpointDrag,
    shift: bool,
    alt: bool,
    target: Option<(crate::board::ConnectPoint, bool)>,
    e: Item,
    s: Segment,
)
    requires
        item_of(b.scene.elements, ep.id) == Some(e),
        segment_in(e.kind) == Some(s),
        ep.which < 2,
    ensures
        ({
            let snap = end_snap(shift, alt, target);
            let r = endpoint_dragged(b, ep, snap);
            let i = index_of(b.scene.elements, ep.id)->0;
            let t = segment_in(r.scene.elements[i].kind);
            let hold = if !shift && !alt && (target matches Some(x) && x.1) {
                Some(
                    SegmentAnchor {
                        element_id: (target->0).0.id,
                        connector: (target->0).0.index,
                    },
                )
            } else {
                None
            };
            &&& shift ==> snap == EndSnap::Angle
            &&& !shift && alt ==> snap == EndSnap::Grid
            &&& r.scene.elements.len() == b.scene.elements.len()
            &&& t is Some
            &&& ep.which == 0 ==> t->0 == (Segment { start_anchor: hold, ..s })
            &&& ep.which == 1 ==> t->0 == (Segment { end_anchor: hold, ..s })
            &&& (r.scene.elements[i].kind is Line) == (e.kind is Line)
            &&& forall|k: int|
                0 <= k < b.scene.elements.len() && k != i ==> #[trigger] r.scene.elements[k]
                    == b.scene.elements[k]
            &&& r.selected == b.selected
            &&& r.history == b.history
        }),
{
    let v = b.scene.elements;
    lemma_index_from(v, ep.id, 0);
    let i = index_of(v, ep.id)->0;
    let loose = end_tied(v, ep.id, ep.which, None);
    assert(loose == v.update(i, loose[i]));
    assert forall|k: int| 0 <= k < v.len() implies (#[trigger] v[k]).id == loose[k].id by {}
    crate::board_laws::lemma_index_of_same(v, loose, ep.id, 0);
}

/// Every end of a line that is tied to an element that moves follows it.
pub proof fn law_every_tied_end_follows(
    v: Seq<Item>,
    ids: Seq<u64>,
    n: int,
    k: int,
    s: Segment,
    e: Item,
    a: SegmentAnchor,
)
    requires
        0 <= k < n <= v.len(),
        segment_in(v[k].kind) == Some(s),
        s.start_anchor == Some(a) || s.end_anchor == Some(a),
        ids.contains(a.element_id),
        item_of(v, a.element_id) == Some(e),
        is_boxed(e.kind),
        a.connector < 4,
    ensures
        s.start_anchor == Some(a) ==> ends_upto(v, ids, n).contains(
            TiedEnd { id: v[k].id, which: 0, anchor: a },
        ),
        s.end_anchor == Some(a) ==> ends_upto(v, ids, n).contains(
            TiedEnd { id: v[k].id, which: 1, anchor: a },
        ),
    decreases n,
{
    let before = ends_upto(v, ids, n - 1);
    let here = ends_in(v, ids, v[n - 1]);
    let all = ends_upto(v, ids, n);
    assert(all == before + here);
    if k < n - 1 {
        law_every_tied_end_follows(v, ids, n - 1, k, s, e, a);
        if s.start_anchor == Some(a) {
            let t = TiedEnd { id: v[k].id, which: 0, anchor: a };
            assert(all[before.index_of(t)] == t);
        }
        if s.end_anchor == Some(a) {
            let t = TiedEnd { id: v[k].id, which: 1, anchor: a };
            assert(all[before.index_of(t)] == t);
        }
    } else {
        let first = end_in(v, ids, v[k].id, 0, s.start_anchor);
        if s.start_anchor == Some(a) {
            assert(first[0] == TiedEnd { id: v[k].id, which: 0, anchor: a });
            assert(all[before.len() as int] == first[0]);
        }
        if s.end_anchor == Some(a) {
            let last = end_in(v, ids, v[k].id, 1, s.end_anchor);
            assert(last[0] == TiedEnd { id: v[k].id, which: 1, anchor: a });
            assert(all[(before.len() + first.len()) as int] == last[0]);
        }
    }
}

// --- Text ---

proof fn lemma_keep_all(v: Seq<Item>, keep: spec_fn(Item) -> bool)
    requires
        forall|k: int| 0 <= k < v.len() ==> keep(#[trigger] v[k]),
    ensures
        v.filter(keep) == v,
    decreases v.len(),
{
    reveal(Seq::filter);
    if v.len() > 0 {
        lemma_keep_all(v.drop_last(), keep);
        assert(v.drop_last().push(v.last()) =~= v);
    }
}

/// Once the editing ends, a text that says something stays as it was typed, and
/// so does every element but the one that was edited.
pub proof fn law_a_typed_text_stays(b: BoardState, id: u64, e: Item)
    requires
        b.ui.edit.editing == Some(id),
        item_of(b.scene.elements, id) == Some(e),
        forall|k: int|
            0 <= k < b.scene.elements.len() && (#[trigger] b.scene.elements[k]).id == id ==> (
            b.scene.elements[k].kind matches ElementKind::Text(t) ==> !blank(t)),
        has_inside(e) ==> (e.label matches Some(l) && !blank(l)),
    ensures
        committed(b).scene == b.scene,
        committed(b).ui.edit.editing is None,
        committed(b).selected == b.selected,
{
    let v = b.scene.elements;
    let keep = |x: Item| x.id != id || !(x.kind matches ElementKind::Text(t) && blank(t));
    lemma_keep_all(v, keep);
    assert(finished(v, id) == v);
}

// --- The menu ---

/// The rows of the context menu do what their keys do, and close it.
pub proof fn law_rows_do_what_their_keys_do(b: BoardState, r: MenuRow, k: KeyView)
    requires
        is_listening(b),
        b.selected.len() > 0,
        is_command(k),
        match r {
            MenuRow::Front => k.key == "]"@ && k.shift,
            MenuRow::Forward => k.key == "]"@ && !k.shift,
            MenuRow::Back => k.key == "["@ && k.shift,
            MenuRow::Backward => k.key == "["@ && !k.shift,
            MenuRow::Copy => k.key == "c"@,
            MenuRow::Cut => k.key == "x"@,
            MenuRow::Paste => k.key == "v"@,
            _ => false,
        },
    ensures
        ({
            let shut = popped(b, Popups { context_menu: false, ..b.ui.pop });
            let by_row = row_chosen(b, r);
            let by_key = key_pressed(shut, k);
            &&& by_row.0 == by_key.0
            &&& by_key.1 == KeyOutcomeView::Board(
                match by_row.1 {
                    MenuOutcomeView::Done(save) => BoardKeyView::Done(save),
                    MenuOutcomeView::Copy(v) => BoardKeyView::Copy(v),
                    MenuOutcomeView::Cut(v) => BoardKeyView::Cut(v),
                    _ => BoardKeyView::Paste,
                },
            )
        }),
{
    crate::key_laws::lemma_words();
    assert(k.key.len() == 1);
    let c = k.key[0];
    assert("z"@[0] == 'z' && "x"@[0] == 'x' && "c"@[0] == 'c' && "v"@[0] == 'v');
    assert("["@[0] == '[' && "]"@[0] == ']' && "{"@[0] == '{' && "}"@[0] == '}');
}

/// The menu offers what can be done: moving, copying and cutting a selection,
/// pasting where there is something to paste, and formatting while text is
/// edited.
pub proof fn law_the_menu_offers_what_can_be_done(b: BoardState, can_paste: bool, can_save: bool)
    ensures
        ({
            let rows = menu_rows(b, can_paste, can_save);
            let chosen = b.selected.len() > 0;
            &&& rows.contains(MenuRow::Text) <==> b.ui.edit.editing is Some
            &&& rows.contains(MenuRow::Front) <==> chosen
            &&& rows.contains(MenuRow::Forward) <==> chosen
            &&& rows.contains(MenuRow::Backward) <==> chosen
            &&& rows.contains(MenuRow::Back) <==> chosen
            &&& rows.contains(MenuRow::Copy) <==> chosen
            &&& rows.contains(MenuRow::Cut) <==> chosen
            &&& rows.contains(MenuRow::Paste) <==> can_paste
            &&& rows.contains(MenuRow::SaveTemplate) <==> chosen && can_save
        }),
{
    let none = Seq::<MenuRow>::empty();
    let a = if b.ui.edit.editing is Some {
        seq![MenuRow::Text, MenuRow::Divider]
    } else {
        none
    };
    let c = if b.selected.len() > 0 {
        seq![
            MenuRow::Front,
            MenuRow::Forward,
            MenuRow::Backward,
            MenuRow::Back,
            MenuRow::Divider,
            MenuRow::Copy,
            MenuRow::Cut,
        ]
    } else {
        none
    };
    let d = if can_paste {
        seq![MenuRow::Paste]
    } else {
        none
    };
    let e = if b.selected.len() > 0 && can_save {
        seq![MenuRow::Divider, MenuRow::SaveTemplate]
    } else {
        none
    };
    let rows = menu_rows(b, can_paste, can_save);
    assert(rows == a + c + d + e);
    let n = a.len() as int;
    let m = n + c.len();
    if b.ui.edit.editing is Some {
        assert(rows[0] == MenuRow::Text);
    }
    if b.selected.len() > 0 {
        assert(rows[n] == MenuRow::Front && rows[n + 1] == MenuRow::Forward);
        assert(rows[n + 2] == MenuRow::Backward && rows[n + 3] == MenuRow::Back);
        assert(rows[n + 5] == MenuRow::Copy && rows[n + 6] == MenuRow::Cut);
    }
    if can_paste {
        assert(rows[m] == MenuRow::Paste);
    }
    if b.selected.len() > 0 && can_save {
        assert(rows[m + d.len() + 1] == MenuRow::SaveTemplate);
    }
}

/// A press of the right button opens the menu where there is something to do,
/// and closes it otherwise; nothing else changes.
pub proof fn law_the_right_button_opens_the_menu(b: BoardState, on_picker: bool, can_paste: bool)
    ensures
        ({
            let r = right_pressed(b, on_picker, can_paste);
            &&& r.scene == b.scene
            &&& r.selected == b.selected
            &&& b.ui.read_only ==> !r.ui.pop.context_menu
            &&& !b.ui.read_only && b.ui.pop.picker is Some && on_picker ==> r == b
            &&& !b.ui.read_only && !(b.ui.pop.picker is Some && on_picker) ==> r.ui.pop.context_menu
                == (b.selected.len() > 0 || can_paste)
        }),
{
}

/// The formatting menu lists the formats, each marked where the text has it.
pub proof fn law_the_format_menu_marks_what_is_on(st: RunStyle)
    ensures
        format_rows(st).contains((FormatRow::Toggle(Format::Bold), st.bold)),
        format_rows(st).contains((FormatRow::Toggle(Format::Italic), st.italic)),
        format_rows(st).contains((FormatRow::Toggle(Format::Underline), st.underline)),
        format_rows(st).contains((FormatRow::Toggle(Format::Strike), st.strike)),
        format_rows(st).contains((FormatRow::Highlight, st.highlight is Some)),
        format_rows(st).len() == 5,
{
    let r = format_rows(st);
    assert(r[0] == (FormatRow::Toggle(Format::Bold), st.bold));
    assert(r[1] == (FormatRow::Toggle(Format::Italic), st.italic));
    assert(r[2] == (FormatRow::Toggle(Format::Underline), st.underline));
    assert(r[3] == (FormatRow::Toggle(Format::Strike), st.strike));
    assert(r[4] == (FormatRow::Highlight, st.highlight is Some));
}

} // verus!
