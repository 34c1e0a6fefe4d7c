//! The keyboard: what a key does on a board and in the text being edited.
use crate::board::{
    deleted, only, redone, undone, with_tool, WhiteboardView, BoardState, Drag, Popups,
};
use crate::board::Ui;
use crate::caret::{caret_left, caret_right, floor_boundary, line_end};
use crate::caret::{line_start, next_of, prev_of};
use crate::editing::{command_key, cut_out, is_printable, plain_key};
use crate::editing::{settled, text_at, text_key, text_key_view, KeyPress};
use crate::editing::{KeyView, TextKey, HIGHLIGHT_DEFAULT};
use crate::scene::{items, Element, Item};
use crate::styles::Format;
use crate::text::{blen, control, index_at, lemma_index_at, lemma_offset_end, lemma_offset_mono};
use crate::text::{offset, on_boundary, part, str_is, to_string, Text};
use crate::tools::{tool_key, Tool};
use crate::zorder::{ids_of, reordered, restacked, ZOrder};
use vstd::prelude::*;

verus! {

/// What is left to the host after a key on the board.
#[derive(Debug)]
pub enum BoardKey {
    /// The key is for someone else.
    Pass,
    /// Something changed; the host may have to save.
    Done(bool),
    /// These elements go to the clipboard.
    Copy(Vec<Element>),
    /// These go to the clipboard, and left the board, which the host saves.
    Cut(Vec<Element>),
    /// The clipboard's elements are put on the board, if it holds any; else the
    /// key is for someone else.
    Paste,
}

/// A [`BoardKey`] as a value.
pub enum BoardKeyView {
    Pass,
    Done(bool),
    Copy(Seq<Item>),
    Cut(Seq<Item>),
    Paste,
}

impl View for BoardKey {
    type V = BoardKeyView;

    open spec fn view(&self) -> BoardKeyView {
        match self {
            BoardKey::Pass => BoardKeyView::Pass,
            BoardKey::Done(save) => BoardKeyView::Done(*save),
            BoardKey::Copy(v) => BoardKeyView::Copy(items(v@)),
            BoardKey::Cut(v) => BoardKeyView::Cut(items(v@)),
            BoardKey::Paste => BoardKeyView::Paste,
        }
    }
}

/// What is left to the host after a key.
#[derive(Debug)]
pub enum KeyOutcome {
    /// The key is for someone else.
    Pass,
    /// Nothing is left to do.
    Done,
    /// The toolbar was flipped, and the host keeps that.
    Flipped,
    Board(BoardKey),
    Text(TextKey<String>),
}

/// A [`KeyOutcome`] as a value.
pub enum KeyOutcomeView {
    Pass,
    Done,
    Flipped,
    Board(BoardKeyView),
    Text(TextKey<Seq<char>>),
}

impl View for KeyOutcome {
    type V = KeyOutcomeView;

    open spec fn view(&self) -> KeyOutcomeView {
        match self {
            KeyOutcome::Pass => KeyOutcomeView::Pass,
            KeyOutcome::Done => KeyOutcomeView::Done,
            KeyOutcome::Flipped => KeyOutcomeView::Flipped,
            KeyOutcome::Board(k) => KeyOutcomeView::Board(k@),
            KeyOutcome::Text(t) => KeyOutcomeView::Text(text_key_view(*t)),
        }
    }
}

/// The move through the paint order that a bracket key asks for.
pub open spec fn bracket_move(k: KeyView) -> Option<ZOrder> {
    let close = k.key == "]"@ || k.key == "}"@;
    let open = k.key == "["@ || k.key == "{"@;
    let all = k.shift || k.key == "}"@ || k.key == "{"@;
    if close {
        Some(
            if all {
                ZOrder::ToFront
            } else {
                ZOrder::Forward
            },
        )
    } else if open {
        Some(
            if all {
                ZOrder::ToBack
            } else {
                ZOrder::Backward
            },
        )
    } else {
        None
    }
}

/// Whether a move changes the paint order.
pub open spec fn moves(b: BoardState, op: ZOrder) -> bool {
    ids_of(reordered(b.scene.elements, b.selected, op)) != ids_of(b.scene.elements)
}

/// The tool that a key picks.
pub open spec fn tool_for(key: Seq<char>) -> Option<Tool> {
    if exists|t: Tool| #[trigger] tool_key(t) == Some(key) {
        Some(choose|t: Tool| #[trigger] tool_key(t) == Some(key))
    } else {
        None
    }
}

/// What a key does on the board while no text is edited.
pub open spec fn shortcut(b: BoardState, k: KeyView) -> (BoardState, BoardKeyView) {
    let cmd = k.platform || k.control;
    let chosen = only(b.scene.elements, b.selected);
    if cmd && k.key == "z"@ {
        if k.shift {
            (redone(b), BoardKeyView::Done(b.redo.len() > 0))
        } else {
            (undone(b), BoardKeyView::Done(b.history.len() > 0))
        }
    } else if cmd && bracket_move(k) is Some {
        let op = bracket_move(k)->0;
        if b.selected.len() == 0 {
            (b, BoardKeyView::Pass)
        } else {
            (restacked(b, op), BoardKeyView::Done(moves(b, op)))
        }
    } else if cmd && k.key == "c"@ {
        if chosen.len() == 0 {
            (b, BoardKeyView::Done(false))
        } else {
            (b, BoardKeyView::Copy(chosen))
        }
    } else if cmd && k.key == "x"@ {
        if chosen.len() == 0 {
            (b, BoardKeyView::Done(false))
        } else {
            (deleted(b), BoardKeyView::Cut(chosen))
        }
    } else if cmd && k.key == "v"@ {
        (b, BoardKeyView::Paste)
    } else if cmd || k.alt {
        (b, BoardKeyView::Pass)
    } else if tool_for(k.key) is Some {
        (with_tool(b, tool_for(k.key)->0), BoardKeyView::Done(false))
    } else if k.key == "backspace"@ || k.key == "delete"@ {
        (deleted(b), BoardKeyView::Done(b.selected.len() > 0))
    } else if k.key == "escape"@ && b.selected.len() > 0 {
        (BoardState { selected: Seq::empty(), ..b }, BoardKeyView::Done(false))
    } else {
        (b, BoardKeyView::Pass)
    }
}

/// What a key does.
pub open spec fn key_pressed(b: BoardState, k: KeyView) -> (BoardState, KeyOutcomeView) {
    let plain = !(k.platform || k.control || k.alt);
    if b.ui.read_only {
        (b, KeyOutcomeView::Pass)
    } else if k.key == "escape"@ && b.ui.drag.connecting is Some {
        let d = Drag { connecting: None, pending: None, hovered_connector: None, ..b.ui.drag };
        (BoardState { ui: Ui { drag: d, ..b.ui }, ..b }, KeyOutcomeView::Done)
    } else if k.key == "escape"@ && (b.ui.pop.picker is Some || b.ui.pop.templates_open) {
        let p = Popups { picker: None, templates_open: false, ..b.ui.pop };
        (BoardState { ui: Ui { pop: p, ..b.ui }, ..b }, KeyOutcomeView::Done)
    } else if b.ui.drag.toolbar {
        if k.key == "r"@ && plain {
            (
                BoardState { ui: Ui { toolbar_vertical: !b.ui.toolbar_vertical, ..b.ui }, ..b },
                KeyOutcomeView::Flipped,
            )
        } else {
            (b, KeyOutcomeView::Done)
        }
    } else if b.ui.edit.editing is None {
        let r = shortcut(b, k);
        (r.0, KeyOutcomeView::Board(r.1))
    } else {
        let r = text_key(b, k);
        (r.0, KeyOutcomeView::Text(r.1))
    }
}

fn key_is(k: &KeyPress, s: &str) -> (r: bool)
    ensures
        r == (k@.key == s@),
{
    str_is(k.key.as_str(), s)
}

fn printable(k: &KeyPress) -> (r: bool)
    ensures
        r == is_printable(k@),
{
    match &k.key_char {
        None => false,
        Some(t) => {
            let u = Text::new(t.as_str());
            u.chars.len() > 0 && !control(u.chars[0])
        },
    }
}

proof fn lemma_steps(c: Seq<char>, at: int)
    requires
        on_boundary(c, at),
    ensures
        on_boundary(c, prev_of(c, at)),
        on_boundary(c, next_of(c, at)),
        0 <= prev_of(c, at) <= at <= next_of(c, at) <= blen(c),
{
    let i = index_at(c, at);
    assert(0 <= i <= c.len() && offset(c, i) == at);
    lemma_offset_end(c);
    assert(c.take(0) =~= Seq::<char>::empty());
    lemma_index_at(c, 0);
    lemma_index_at(c, c.len() as int);
    lemma_offset_mono(c, i, c.len() as int);
    if i > 0 {
        lemma_index_at(c, i - 1);
        lemma_offset_mono(c, i - 1, i);
    }
    if i < c.len() {
        lemma_index_at(c, i + 1);
        lemma_offset_mono(c, i, i + 1);
        lemma_offset_mono(c, i + 1, c.len() as int);
    }
}

/// The bytes from `s` to `e` of a text.
fn slice_text(c: &str, s: usize, e: usize) -> (r: String)
    requires
        s <= e,
        on_boundary(c@, s as int),
        on_boundary(c@, e as int),
    ensures
        r@ == cut_out(c@, s as int, e as int),
{
    let t = Text::new(c);
    let i: usize = match t.index_of(s) {
        Some(i) => i,
        None => 0,
    };
    let j: usize = match t.index_of(e) {
        Some(j) => j,
        None => 0,
    };
    proof {
        if j < i {
            lemma_offset_mono(c@, j as int, i as int);
        }
    }
    to_string(part(&t.chars, i, j))
}

/// Whether the caret and the selection's other end stand in a text.
spec fn is_settled(b: BoardState, id: u64, c: Seq<char>) -> bool {
    &&& text_at(b, id) == Some(c)
    &&& on_boundary(c, b.ui.edit.caret as int)
    &&& on_boundary(c, b.ui.edit.sel_anchor as int)
}

impl WhiteboardView {
    fn command_key(&mut self, id: u64, c: &String, k: &KeyPress) -> (r: TextKey<String>)
        requires
            is_settled(old(self)@, id, c@),
        ensures
            (final(self)@, text_key_view(r)) == command_key(old(self)@, id, c@, k@),
    {
        let (s, e) = self.sel_range();
        if key_is(k, "a") {
            let t = Text::new(c.as_str());
            let n: usize = t.chars.len();
            proof {
                lemma_offset_end(c@);
            }
            self.ui.edit.sel_anchor = 0;
            self.ui.edit.caret = t.offs[n];
            TextKey::Done
        } else if key_is(k, "b") {
            self.apply_format(Format::Bold);
            TextKey::Done
        } else if key_is(k, "i") {
            self.apply_format(Format::Italic);
            TextKey::Done
        } else if key_is(k, "u") {
            self.apply_format(Format::Underline);
            TextKey::Done
        } else if key_is(k, "x") && k.shift {
            self.apply_format(Format::Strike);
            TextKey::Done
        } else if key_is(k, "h") && k.shift {
            self.apply_highlight(HIGHLIGHT_DEFAULT);
            TextKey::Done
        } else if key_is(k, "c") || key_is(k, "x") {
            if s < e {
                let text = slice_text(c.as_str(), s, e);
                if key_is(k, "x") {
                    proof {
                        reveal_strlit("");
                        assert(""@ =~= Seq::<char>::empty());
                    }
                    self.replace_range(id, s, e, "");
                }
                TextKey::Copy(text)
            } else {
                TextKey::Done
            }
        } else if key_is(k, "v") {
            TextKey::Paste
        } else {
            TextKey::Pass
        }
    }

    fn plain_key(&mut self, id: u64, c: &String, k: &KeyPress) -> (r: TextKey<String>)
        requires
            is_settled(old(self)@, id, c@),
        ensures
            (final(self)@, text_key_view(r)) == plain_key(old(self)@, id, c@, k@),
    {
        let (s, e) = self.sel_range();
        let at: usize = self.ui.edit.caret;
        proof {
            lemma_steps(c@, at as int);
            reveal_strlit("");
            assert(""@ =~= Seq::<char>::empty());
            let i = index_at(c@, at as int);
            assert(0 <= i <= c@.len() && offset(c@, i) == at);
            lemma_offset_end(c@);
            lemma_offset_mono(c@, i, c@.len() as int);
        }
        if key_is(k, "left") {
            let to: usize = if !k.shift && s < e {
                s
            } else {
                caret_left(c.as_str(), at)
            };
            self.move_caret(to, k.shift);
            TextKey::Done
        } else if key_is(k, "right") {
            let to: usize = if !k.shift && s < e {
                e
            } else {
                caret_right(c.as_str(), at)
            };
            self.move_caret(to, k.shift);
            TextKey::Done
        } else if key_is(k, "up") {
            TextKey::Vertical { down: false, extend: k.shift }
        } else if key_is(k, "down") {
            TextKey::Vertical { down: true, extend: k.shift }
        } else if key_is(k, "home") {
            let to: usize = line_start(c.as_str(), at);
            self.move_caret(to, k.shift);
            TextKey::Done
        } else if key_is(k, "end") {
            let to: usize = line_end(c.as_str(), at);
            self.move_caret(to, k.shift);
            TextKey::Done
        } else if key_is(k, "backspace") {
            if s < e {
                self.replace_range(id, s, e, "");
            } else if at > 0 {
                let from: usize = caret_left(c.as_str(), at);
                self.replace_range(id, from, at, "");
            }
            TextKey::Done
        } else if key_is(k, "delete") {
            let t = Text::new(c.as_str());
            let n: usize = t.chars.len();
            if s < e {
                self.replace_range(id, s, e, "");
            } else if at < t.offs[n] {
                let to: usize = caret_right(c.as_str(), at);
                self.replace_range(id, at, to, "");
            }
            TextKey::Done
        } else if key_is(k, "enter") {
            self.replace_selection(id, "\n");
            TextKey::Done
        } else if key_is(k, "tab") || !printable(k) {
            TextKey::Pass
        } else {
            TextKey::Ignored
        }
    }

    /// What a key does while text is edited: the caret, the selection, the
    /// clipboard, formats, and the end of the editing.
    pub fn text_edit_key(&mut self, k: &KeyPress) -> (r: TextKey<String>)
        ensures
            (final(self)@, text_key_view(r)) == text_key(old(self)@, k@),
    {
        let id = match self.ui.edit.editing {
            Some(id) => id,
            None => {
                return TextKey::Ignored;
            },
        };
        let c = match self.edit_text(id) {
            Some(c) => c,
            None => {
                let _save = self.commit_text();
                return TextKey::Committed;
            },
        };
        let caret: usize = floor_boundary(c.as_str(), self.ui.edit.caret);
        let anchor: usize = floor_boundary(c.as_str(), self.ui.edit.sel_anchor);
        self.ui.edit.caret = caret;
        self.ui.edit.sel_anchor = anchor;
        assert(self@ == settled(old(self)@, c@));
        if k.composing {
            TextKey::Ignored
        } else if key_is(k, "escape") {
            let _save = self.commit_text();
            TextKey::Committed
        } else if k.platform || k.control {
            self.command_key(id, &c, k)
        } else if key_is(k, "tab") && self.is_mindmap_node(id) {
            let _save = self.commit_text();
            TextKey::Grow { id, sibling: false }
        } else if key_is(k, "enter") && self.is_mindmap_node(id) {
            let _save = self.commit_text();
            TextKey::Grow { id, sibling: true }
        } else {
            self.plain_key(id, &c, k)
        }
    }

    /// What a key does on the board while no text is edited: tools, undo, the
    /// clipboard, the paint order and the selection.
    pub fn handle_shortcut(&mut self, k: &KeyPress) -> (r: BoardKey)
        ensures
            (final(self)@, r@) == shortcut(old(self)@, k@),
    {
        let cmd = k.platform || k.control;
        if cmd && key_is(k, "z") {
            let save = if k.shift {
                self.redo()
            } else {
                self.undo()
            };
            return BoardKey::Done(save);
        }
        let close = key_is(k, "]") || key_is(k, "}");
        let open = key_is(k, "[") || key_is(k, "{");
        if cmd && (close || open) {
            if self.selected.len() == 0 {
                return BoardKey::Pass;
            }
            let all = k.shift || key_is(k, "}") || key_is(k, "{");
            let op = match (close, all) {
                (true, true) => ZOrder::ToFront,
                (true, false) => ZOrder::Forward,
                (false, true) => ZOrder::ToBack,
                (false, false) => ZOrder::Backward,
            };
            let save = self.reorder_selection(op);
            return BoardKey::Done(save);
        }
        if cmd && key_is(k, "c") {
            return match self.selection() {
                Some(v) => BoardKey::Copy(v),
                None => BoardKey::Done(false),
            };
        }
        if cmd && key_is(k, "x") {
            return match self.selection() {
                Some(v) => {
                    let _save = self.delete_selected();
                    BoardKey::Cut(v)
                },
                None => BoardKey::Done(false),
            };
        }
        if cmd && key_is(k, "v") {
            return BoardKey::Paste;
        }
        if cmd || k.alt {
            return BoardKey::Pass;
        }
        match Tool::shortcut(k.key.as_str()) {
            Some(tool) => {
                proof {
                    let t = tool_for(k@.key)->0;
                    assert(tool_key(t) == Some(k@.key));
                    crate::tools::law_one_tool_per_key(tool, t);
                }
                self.set_tool(tool);
                return BoardKey::Done(false);
            },
            None => {},
        }
        if key_is(k, "backspace") || key_is(k, "delete") {
            let save = self.delete_selected();
            return BoardKey::Done(save);
        }
        if key_is(k, "escape") && self.selected.len() > 0 {
            self.selected.clear();
            return BoardKey::Done(false);
        }
        BoardKey::Pass
    }

    /// What a key does.
    pub fn on_key(&mut self, k: &KeyPress) -> (r: KeyOutcome)
        ensures
            (final(self)@, r@) == key_pressed(old(self)@, k@),
    {
        if self.ui.read_only {
            return KeyOutcome::Pass;
        }
        if key_is(k, "escape") && self.ui.drag.connecting.is_some() {
            self.ui.drag.connecting = None;
            self.ui.drag.pending = None;
            self.ui.drag.hovered_connector = None;
            return KeyOutcome::Done;
        }
        if key_is(k, "escape") && (self.ui.pop.picker.is_some() || self.ui.pop.templates_open) {
            self.ui.pop.picker = None;
            self.ui.pop.templates_open = false;
            return KeyOutcome::Done;
        }
        if self.ui.drag.toolbar {
            if key_is(k, "r") && !(k.platform || k.control || k.alt) {
                self.ui.toolbar_vertical = !self.ui.toolbar_vertical;
                return KeyOutcome::Flipped;
            }
            return KeyOutcome::Done;
        }
        if self.ui.edit.editing.is_none() {
            let r = self.handle_shortcut(k);
            return KeyOutcome::Board(r);
        }
        let r = self.text_edit_key(k);
        KeyOutcome::Text(r)
    }
}

} // verus!
