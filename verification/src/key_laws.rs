//! What holds of keys: what the board and the text being edited are after one.
use crate::board::{law_delete_removes_the_selection, law_redo_undoes_undo, law_undo_restores};
use crate::board::BoardState;
use crate::editing::KeyView;
use crate::keys::{key_pressed, tool_for, BoardKeyView, KeyOutcomeView};
use crate::scene::Item;
use crate::tools::{law_one_tool_per_key, tool_key, Tool};
use crate::zorder::{ids_of, law_back_is_behind, law_front_is_in_front, law_one_step_moves};
use crate::zorder::{law_reorder_keeps_the_elements, reordered};
use crate::zorder::{restacked, ZOrder};
use vstd::prelude::*;

verus! {

// --- The board ---

/// Whether keys are for the board: it can be edited, no text is, and the
/// toolbar is not dragged.
pub open spec fn is_listening(b: BoardState) -> bool {
    !b.ui.read_only && b.ui.edit.editing is None && !b.ui.drag.toolbar
}

/// Whether a key is pressed with the command modifier.
pub open spec fn is_command(k: KeyView) -> bool {
    k.platform || k.control
}

/// Whether a key is pressed without a modifier but Shift.
pub open spec fn is_bare(k: KeyView) -> bool {
    !k.platform && !k.control && !k.alt
}

proof fn lemma_tool_keys(t: Tool)
    ensures
        tool_key(t) matches Some(s) ==> s.len() == 1,
{
    reveal_strlit("h");
    reveal_strlit("v");
    reveal_strlit("p");
    reveal_strlit("r");
    reveal_strlit("o");
    reveal_strlit("d");
    reveal_strlit("g");
    reveal_strlit("u");
    reveal_strlit("s");
    reveal_strlit("x");
    reveal_strlit("l");
    reveal_strlit("a");
    reveal_strlit("k");
    reveal_strlit("t");
    reveal_strlit("m");
    reveal_strlit("f");
    reveal_strlit("i");
}

proof fn lemma_no_tool(key: Seq<char>)
    requires
        key.len() != 1,
    ensures
        tool_for(key) is None,
{
    assert forall|t: Tool| #[trigger] tool_key(t) != Some(key) by {
        lemma_tool_keys(t);
    }
}

pub(crate) proof fn lemma_words()
    ensures
        "delete"@.len() == 6,
        "backspace"@.len() == 9,
        "escape"@.len() == 6,
        "escape"@ != "delete"@,
        "z"@.len() == 1 && "z"@[0] == 'z',
        "x"@.len() == 1 && "x"@[0] == 'x',
        "c"@.len() == 1 && "c"@[0] == 'c',
        "v"@.len() == 1 && "v"@[0] == 'v',
        "["@.len() == 1 && "["@[0] == '[',
        "]"@.len() == 1 && "]"@[0] == ']',
        "{"@.len() == 1 && "{"@[0] == '{',
        "}"@.len() == 1 && "}"@[0] == '}',
{
    reveal_strlit("delete");
    reveal_strlit("backspace");
    reveal_strlit("escape");
    reveal_strlit("z");
    reveal_strlit("x");
    reveal_strlit("c");
    reveal_strlit("v");
    reveal_strlit("[");
    reveal_strlit("]");
    reveal_strlit("{");
    reveal_strlit("}");
    assert("escape"@[0] == 'e' && "delete"@[0] == 'd');
}

/// Delete and Backspace remove the selection: none of it is left, everything
/// else is, in the order it had; nothing is selected, the host saves, and the
/// undo key brings the scene back. Without a selection they do nothing.
pub proof fn law_delete_key_removes_the_selection(b: BoardState, k: KeyView, z: KeyView)
    requires
        is_listening(b),
        is_bare(k),
        k.key == "delete"@ || k.key == "backspace"@,
        is_command(z),
        z.key == "z"@,
        !z.shift,
    ensures
        ({
            let r = key_pressed(b, k);
            &&& r.1 == KeyOutcomeView::Board(BoardKeyView::Done(b.selected.len() > 0))
            &&& b.selected.len() == 0 ==> r.0 == b
            &&& b.selected.len() > 0 ==> {
                &&& r.0.selected.len() == 0
                &&& r.0.scene.elements == b.scene.elements.filter(
                    |e: Item| !b.selected.contains(e.id),
                )
                &&& forall|e: Item|
                    #[trigger] r.0.scene.elements.contains(e) <==> b.scene.elements.contains(e)
                        && !b.selected.contains(e.id)
                &&& r.0.scene.camera == b.scene.camera
                &&& r.0.next_id == b.next_id
                &&& r.0.ui.tool == b.ui.tool
                &&& key_pressed(r.0, z).0.scene == b.scene
                &&& key_pressed(r.0, z).1 == KeyOutcomeView::Board(BoardKeyView::Done(true))
            }
        }),
{
    lemma_words();
    lemma_no_tool(k.key);
    let r = key_pressed(b, k).0;
    if b.selected.len() > 0 {
        assert forall|e: Item|
            #[trigger] r.scene.elements.contains(e) <==> b.scene.elements.contains(e)
                && !b.selected.contains(e.id) by {
            law_delete_removes_the_selection(b, e);
        }
        law_undo_restores(b, r);
    }
}

/// The undo key brings back the scene that was remembered last, and with Shift
/// the step is made again: scene and history are then as they were.
pub proof fn law_undo_key_goes_back_and_forth(b: BoardState, z: KeyView, y: KeyView)
    requires
        is_listening(b),
        is_command(z),
        is_command(y),
        z.key == "z"@,
        y.key == "z"@,
        !z.shift,
        y.shift,
    ensures
        b.history.len() == 0 ==> key_pressed(b, z) == (
            b,
            KeyOutcomeView::Board(BoardKeyView::Done(false)),
        ),
        b.redo.len() == 0 ==> key_pressed(b, y) == (
            b,
            KeyOutcomeView::Board(BoardKeyView::Done(false)),
        ),
        b.history.len() > 0 ==> {
            let u = key_pressed(b, z);
            &&& u.1 == KeyOutcomeView::Board(BoardKeyView::Done(true))
            &&& u.0.scene == b.history.last()
            &&& u.0.history == b.history.drop_last()
            &&& u.0.selected.len() == 0
            &&& key_pressed(u.0, y).1 == KeyOutcomeView::Board(BoardKeyView::Done(true))
            &&& key_pressed(u.0, y).0.scene == b.scene
            &&& key_pressed(u.0, y).0.history == b.history
            &&& key_pressed(u.0, y).0.redo == b.redo
        },
{
    lemma_words();
    if b.history.len() > 0 {
        law_redo_undoes_undo(b);
    }
}

/// The copy key hands the selection to the clipboard, whole and in its order,
/// and leaves the board as it is. The cut key hands over the same and leaves the
/// board as Delete does.
pub proof fn law_cut_key_copies_and_deletes(b: BoardState, c: KeyView, x: KeyView, d: KeyView)
    requires
        is_listening(b),
        is_command(c),
        c.key == "c"@,
        is_command(x),
        x.key == "x"@,
        is_bare(d),
        d.key == "delete"@,
    ensures
        ({
            let chosen = b.scene.elements.filter(|e: Item| b.selected.contains(e.id));
            &&& key_pressed(b, c).0 == b
            &&& chosen.len() > 0 ==> {
                &&& key_pressed(b, c).1 == KeyOutcomeView::Board(BoardKeyView::Copy(chosen))
                &&& key_pressed(b, x).1 == KeyOutcomeView::Board(BoardKeyView::Cut(chosen))
                &&& key_pressed(b, x).0 == key_pressed(b, d).0
            }
            &&& chosen.len() == 0 ==> {
                &&& key_pressed(b, c).1 == KeyOutcomeView::Board(BoardKeyView::Done(false))
                &&& key_pressed(b, x) == (b, KeyOutcomeView::Board(BoardKeyView::Done(false)))
            }
        }),
{
    lemma_words();
    lemma_no_tool(d.key);
    assert(c.key[0] == 'c' && x.key[0] == 'x');
}

/// The paste key asks for the clipboard and changes nothing by itself.
pub proof fn law_paste_key_asks_for_the_clipboard(b: BoardState, k: KeyView)
    requires
        is_listening(b),
        is_command(k),
        k.key == "v"@,
    ensures
        key_pressed(b, k) == (b, KeyOutcomeView::Board(BoardKeyView::Paste)),
{
    lemma_words();
    assert(k.key[0] == 'v');
}

/// Escape drops the selection, and changes nothing else.
pub proof fn law_escape_drops_the_selection(b: BoardState, k: KeyView)
    requires
        is_listening(b),
        is_bare(k),
        k.key == "escape"@,
        b.ui.drag.connecting is None,
        b.ui.pop.picker is None,
        !b.ui.pop.templates_open,
    ensures
        key_pressed(b, k).0 == (BoardState { selected: Seq::empty(), ..b }),
        key_pressed(b, k).1 == KeyOutcomeView::Board(
            if b.selected.len() > 0 {
                BoardKeyView::Done(false)
            } else {
                BoardKeyView::Pass
            },
        ),
{
    lemma_words();
    lemma_no_tool(k.key);
    reveal_strlit("escape");
    reveal_strlit("backspace");
    assert("backspace"@[0] == 'b');
    if b.selected.len() == 0 {
        assert(b.selected =~= Seq::empty());
    }
}

/// Escape gives up a line that is dragged out of an element, or closes the
/// picker and the gallery; the scene and the selection stay.
pub proof fn law_escape_backs_out_first(b: BoardState, k: KeyView)
    requires
        !b.ui.read_only,
        k.key == "escape"@,
        b.ui.drag.connecting is Some || b.ui.pop.picker is Some || b.ui.pop.templates_open,
    ensures
        ({
            let r = key_pressed(b, k);
            &&& r.1 == KeyOutcomeView::Done
            &&& r.0.scene == b.scene
            &&& r.0.selected == b.selected
            &&& r.0.history == b.history
            &&& if b.ui.drag.connecting is Some {
                &&& r.0.ui.drag.connecting is None
                &&& r.0.ui.drag.pending is None
                &&& r.0.ui.drag.hovered_connector is None
                &&& r.0.ui.pop == b.ui.pop
            } else {
                &&& r.0.ui.pop.picker is None
                &&& !r.0.ui.pop.templates_open
                &&& r.0.ui.drag == b.ui.drag
            }
        }),
{
}

/// The key of a tool picks that tool: the scene stays, and so does the
/// selection where the tool was active or is the one that selects.
pub proof fn law_tool_key_picks_the_tool(b: BoardState, k: KeyView, t: Tool)
    requires
        is_listening(b),
        is_bare(k),
        tool_key(t) == Some(k.key),
    ensures
        ({
            let r = key_pressed(b, k);
            &&& r.1 == KeyOutcomeView::Board(BoardKeyView::Done(false))
            &&& r.0.ui.tool == t
            &&& r.0.scene == b.scene
            &&& r.0.history == b.history
            &&& t == Tool::Select || t == b.ui.tool ==> r.0.selected == b.selected
            &&& t != Tool::Select && t != b.ui.tool ==> r.0.selected.len() == 0
            &&& r.0.ui.pop.open_group is None
        }),
{
    lemma_words();
    lemma_tool_keys(t);
    let u = tool_for(k.key)->0;
    assert(tool_key(u) == Some(k.key));
    law_one_tool_per_key(t, u);
}

/// The keys of the tools are the letters that the tooltips name.
pub proof fn law_tool_keys(b: BoardState, k: KeyView)
    requires
        is_listening(b),
        is_bare(k),
    ensures
        ({
            let t = key_pressed(b, k).0.ui.tool;
            &&& k.key == seq!['h'] ==> t == Tool::Pan
            &&& k.key == seq!['v'] ==> t == Tool::Select
            &&& k.key == seq!['p'] ==> t == Tool::Pen
            &&& k.key == seq!['r'] ==> t == Tool::Rect
            &&& k.key == seq!['o'] ==> t == Tool::Ellipse
            &&& k.key == seq!['d'] ==> t == Tool::Diamond
            &&& k.key == seq!['g'] ==> t == Tool::Triangle
            &&& k.key == seq!['u'] ==> t == Tool::RoundRect
            &&& k.key == seq!['s'] ==> t == Tool::Star
            &&& k.key == seq!['x'] ==> t == Tool::Hexagon
            &&& k.key == seq!['l'] ==> t == Tool::Line
            &&& k.key == seq!['a'] ==> t == Tool::Arrow
            &&& k.key == seq!['k'] ==> t == Tool::DashedArrow
            &&& k.key == seq!['t'] ==> t == Tool::Text
            &&& k.key == seq!['m'] ==> t == Tool::MindMap
            &&& k.key == seq!['f'] ==> t == Tool::Flowchart
            &&& k.key == seq!['i'] ==> t == Tool::Image
        }),
{
    reveal_strlit("h");
    reveal_strlit("v");
    reveal_strlit("p");
    reveal_strlit("r");
    reveal_strlit("o");
    reveal_strlit("d");
    reveal_strlit("g");
    reveal_strlit("u");
    reveal_strlit("s");
    reveal_strlit("x");
    reveal_strlit("l");
    reveal_strlit("a");
    reveal_strlit("k");
    reveal_strlit("t");
    reveal_strlit("m");
    reveal_strlit("f");
    reveal_strlit("i");
    assert("h"@ =~= seq!['h']);
    assert("v"@ =~= seq!['v']);
    assert("p"@ =~= seq!['p']);
    assert("r"@ =~= seq!['r']);
    assert("o"@ =~= seq!['o']);
    assert("d"@ =~= seq!['d']);
    assert("g"@ =~= seq!['g']);
    assert("u"@ =~= seq!['u']);
    assert("s"@ =~= seq!['s']);
    assert("x"@ =~= seq!['x']);
    assert("l"@ =~= seq!['l']);
    assert("a"@ =~= seq!['a']);
    assert("k"@ =~= seq!['k']);
    assert("t"@ =~= seq!['t']);
    assert("m"@ =~= seq!['m']);
    assert("f"@ =~= seq!['f']);
    assert("i"@ =~= seq!['i']);
    let tools = seq![
        Tool::Pan,
        Tool::Select,
        Tool::Pen,
        Tool::Rect,
        Tool::Ellipse,
        Tool::Diamond,
        Tool::Triangle,
        Tool::RoundRect,
        Tool::Star,
        Tool::Hexagon,
        Tool::Line,
        Tool::Arrow,
        Tool::DashedArrow,
        Tool::Text,
        Tool::MindMap,
        Tool::Flowchart,
        Tool::Image,
    ];
    assert forall|i: int|
        0 <= i < tools.len() && tool_key(#[trigger] tools[i]) == Some(k.key) implies key_pressed(
        b,
        k,
    ).0.ui.tool == tools[i] by {
        law_tool_key_picks_the_tool(b, k, tools[i]);
    }
    assert(tools[0] == Tool::Pan && tools[1] == Tool::Select && tools[2] == Tool::Pen);
    assert(tools[3] == Tool::Rect && tools[4] == Tool::Ellipse && tools[5] == Tool::Diamond);
    assert(tools[6] == Tool::Triangle && tools[7] == Tool::RoundRect && tools[8] == Tool::Star);
    assert(tools[9] == Tool::Hexagon && tools[10] == Tool::Line && tools[11] == Tool::Arrow);
    assert(tools[12] == Tool::DashedArrow && tools[13] == Tool::Text && tools[14] == Tool::MindMap);
    assert(tools[15] == Tool::Flowchart && tools[16] == Tool::Image);
}

/// What a bracket key asks for.
spec fn bracket_op(close: bool, shift: bool) -> ZOrder {
    match (close, shift) {
        (true, true) => ZOrder::ToFront,
        (true, false) => ZOrder::Forward,
        (false, true) => ZOrder::ToBack,
        (false, false) => ZOrder::Backward,
    }
}

proof fn lemma_bracket(b: BoardState, k: KeyView)
    requires
        is_listening(b),
        is_command(k),
        k.key == "]"@ || k.key == "["@,
        b.selected.len() > 0,
    ensures
        key_pressed(b, k).0 == restacked(b, bracket_op(k.key == "]"@, k.shift)),
{
    lemma_words();
    reveal_strlit("escape");
    assert(k.key.len() == 1);
    if k.key == "]"@ {
        assert(k.key[0] == ']');
    } else {
        assert(k.key[0] == '[');
        assert("]"@[0] == ']');
    }
}

proof fn lemma_same_length(v: Seq<Item>, w: Seq<Item>)
    requires
        v.to_multiset() == w.to_multiset(),
    ensures
        v.len() == w.len(),
{
    v.to_multiset_ensures();
    w.to_multiset_ensures();
}

proof fn lemma_either(v: Seq<Item>, w: Seq<Item>, u: Seq<Item>, i: int)
    requires
        v.len() == w.len(),
        u == if ids_of(w) == ids_of(v) {
            v
        } else {
            w
        },
        0 <= i < v.len(),
    ensures
        u[i].id == w[i].id,
{
    if ids_of(w) == ids_of(v) {
        assert(ids_of(w)[i] == w[i].id && ids_of(v)[i] == v[i].id);
    }
}

proof fn lemma_restacked(b: BoardState, op: ZOrder)
    ensures
        restacked(b, op).scene.elements.to_multiset() == b.scene.elements.to_multiset(),
        restacked(b, op).selected == b.selected,
{
    let v = b.scene.elements;
    let w = reordered(v, b.selected, op);
    law_reorder_keeps_the_elements(v, b.selected, op);
    if ids_of(w) == ids_of(v) {
        assert(restacked(b, op) == b);
    } else {
        assert(restacked(b, op).scene.elements == w);
    }
}

proof fn lemma_stacked_apart(b: BoardState, op: ZOrder, i: int, j: int)
    requires
        0 <= i < b.scene.elements.len(),
        0 <= j < b.scene.elements.len(),
        b.selected.contains(restacked(b, op).scene.elements[i].id),
        !b.selected.contains(restacked(b, op).scene.elements[j].id),
    ensures
        op == ZOrder::ToFront ==> j < i,
        op == ZOrder::ToBack ==> i < j,
{
    let v = b.scene.elements;
    let w = reordered(v, b.selected, op);
    let u = restacked(b, op).scene.elements;
    law_reorder_keeps_the_elements(v, b.selected, op);
    lemma_same_length(v, w);
    lemma_either(v, w, u, i);
    lemma_either(v, w, u, j);
    if op == ZOrder::ToFront {
        law_front_is_in_front(v, b.selected, i, j);
    } else if op == ZOrder::ToBack {
        law_back_is_behind(v, b.selected, i, j);
    }
}

/// A bracket key with the command modifier moves the selection through the
/// paint order: with Shift to the front of everything else, or to the back. The
/// elements stay, and so does the selection.
pub proof fn law_bracket_keys_move_the_selection(b: BoardState, k: KeyView, i: int, j: int)
    requires
        is_listening(b),
        is_command(k),
        k.key == "]"@ || k.key == "["@,
        b.selected.len() > 0,
        0 <= i < b.scene.elements.len(),
        0 <= j < b.scene.elements.len(),
    ensures
        ({
            let v = b.scene.elements;
            let sel = b.selected;
            let r = key_pressed(b, k).0;
            let w = r.scene.elements;
            &&& w.to_multiset() == v.to_multiset()
            &&& r.selected == sel
            &&& k.shift && sel.contains(w[i].id) && !sel.contains(w[j].id) ==> if k.key == "]"@ {
                j < i
            } else {
                i < j
            }
        }),
{
    lemma_bracket(b, k);
    let op = bracket_op(k.key == "]"@, k.shift);
    lemma_restacked(b, op);
    let w = restacked(b, op).scene.elements;
    if b.selected.contains(w[i].id) && !b.selected.contains(w[j].id) {
        lemma_stacked_apart(b, op, i, j);
    }
}

/// Without Shift a bracket key moves the selection one place: each member that
/// lies next to something else goes past it.
pub proof fn law_bracket_keys_step(b: BoardState, k: KeyView, i: int)
    requires
        is_listening(b),
        is_command(k),
        k.key == "]"@ || k.key == "["@,
        !k.shift,
        b.selected.len() > 0,
        0 <= i,
        i + 1 < b.scene.elements.len(),
    ensures
        ({
            let v = b.scene.elements;
            let sel = b.selected;
            let w = key_pressed(b, k).0.scene.elements;
            &&& k.key == "]"@ && sel.contains(v[i].id) && !sel.contains(v[i + 1].id) ==> w[i + 1]
                == v[i]
            &&& k.key == "["@ && !sel.contains(v[i].id) && sel.contains(v[i + 1].id) ==> w[i] == v[i
                + 1]
        }),
{
    lemma_bracket(b, k);
    lemma_words();
    let v = b.scene.elements;
    let sel = b.selected;
    let op = bracket_op(k.key == "]"@, false);
    let w = reordered(v, sel, op);
    law_one_step_moves(v, sel, i);
    law_reorder_keeps_the_elements(v, sel, op);
    w.to_multiset_ensures();
    v.to_multiset_ensures();
    if ids_of(w) == ids_of(v) {
        assert(ids_of(w)[i] == w[i].id && ids_of(v)[i] == v[i].id);
        assert(ids_of(w)[i + 1] == w[i + 1].id && ids_of(v)[i + 1] == v[i + 1].id);
    }
}

/// A read-only board takes no key and stays as it is.
pub proof fn law_read_only_takes_no_key(b: BoardState, k: KeyView)
    requires
        b.ui.read_only,
    ensures
        key_pressed(b, k) == (b, KeyOutcomeView::Pass),
{
}

/// While no text is edited, only undo, redo, cut, the bracket keys, Delete and
/// Backspace change the scene.
pub proof fn law_few_keys_change_the_scene(b: BoardState, k: KeyView)
    requires
        b.ui.edit.editing is None,
        key_pressed(b, k).0.scene != b.scene,
    ensures
        is_listening(b),
        if is_command(k) {
            k.key == "z"@ || k.key == "x"@ || k.key == "["@ || k.key == "]"@ || k.key == "{"@ || k.key
                == "}"@
        } else {
            !k.alt && (k.key == "delete"@ || k.key == "backspace"@) && b.selected.len() > 0
        },
{
}

} // verus!
