//! Editing the text of a board's elements: the caret, the selection, what is
//! typed, and the keys that do it.
use crate::board::{WhiteboardView, BoardState, Edit, Popups, Ui};
use crate::caret::floor_of;
use crate::caret::{next_of, prev_of, word_end, word_range, word_start, floor_from};
use crate::mindmap::meta_of;
use crate::scene::{find_element, is_closed, is_closed_shape, item_of, items, with_item};
use crate::scene::{Element, ElementKind, Item, SceneView, index_of};
use crate::styles::{active_style, bears, changed, format_toggle, highlight_toggle, left_of, plain};
use crate::styles::{shared_style, splice_styles, spliced, style_at, style_of, toggle_format};
use crate::styles::{toggle_highlight, with, Format, RunStyle};
use crate::text::{blank, blen, index_at, is_control, lemma_blen_concat};
use crate::text::{lemma_offset_end, line_end_from, line_start_of, offset, on_boundary, part};
use crate::text::{lemma_offset_mono, skip_space, to_string, Text};
use crate::tree::{opt_view, Span};
use std::ops::Range;
use vstd::prelude::*;

verus! {

/// The colour of the highlighter.
pub const HIGHLIGHT_DEFAULT: u32 = 0xffe06680;

/// A key that was pressed.
#[derive(Debug)]
pub struct KeyPress {
    pub key: String,
    pub platform: bool,
    pub control: bool,
    pub shift: bool,
    pub alt: bool,
    /// Whether an input method is composing.
    pub composing: bool,
    /// The text that the key stands for.
    pub key_char: Option<String>,
}

/// A [`KeyPress`] as a value.
pub struct KeyView {
    pub key: Seq<char>,
    pub platform: bool,
    pub control: bool,
    pub shift: bool,
    pub alt: bool,
    pub composing: bool,
    pub key_char: Option<Seq<char>>,
}

impl View for KeyPress {
    type V = KeyView;

    open spec fn view(&self) -> KeyView {
        KeyView {
            key: self.key@,
            platform: self.platform,
            control: self.control,
            shift: self.shift,
            alt: self.alt,
            composing: self.composing,
            key_char: opt_view(self.key_char),
        }
    }
}

/// What is left to the host after a key in a text.
#[derive(Debug)]
pub enum TextKey<S> {
    /// Nothing happened.
    Ignored,
    /// The key is for someone else.
    Pass,
    /// The text, the caret or the style changed.
    Done,
    /// This text goes to the clipboard.
    Copy(S),
    /// The clipboard's text replaces the selection.
    Paste,
    /// The caret goes a line up or down, where the font says.
    Vertical { down: bool, extend: bool },
    /// The editing ended, and the host saves.
    Committed,
    /// The same, and a node is added beside or under this one.
    Grow { id: u64, sibling: bool },
}

/// The text of an element that can be edited: its content, or the label of a
/// closed shape.
pub open spec fn text_in(e: Item) -> Option<Seq<char>> {
    match e.kind {
        ElementKind::Text(s) => Some(s),
        _ => if is_closed(e.kind) {
            match e.label {
                Some(l) => Some(l),
                None => Some(Seq::empty()),
            }
        } else {
            None
        },
    }
}

/// An element with another text.
pub open spec fn with_text(e: Item, t: Seq<char>) -> Item {
    match e.kind {
        ElementKind::Text(_) => Item { kind: ElementKind::Text(t), ..e },
        _ => Item { label: Some(t), ..e },
    }
}

/// The text of the element of an id.
pub open spec fn text_at(b: BoardState, id: u64) -> Option<Seq<char>> {
    match item_of(b.scene.elements, id) {
        Some(e) => text_in(e),
        None => None,
    }
}

/// The selected text's ends, in order.
pub open spec fn range_of(d: Edit) -> (usize, usize) {
    if d.caret <= d.sel_anchor {
        (d.caret, d.sel_anchor)
    } else {
        (d.sel_anchor, d.caret)
    }
}

/// `c` with the bytes from `s` to `e` replaced.
pub open spec fn replaced_text(c: Seq<char>, s: int, e: int, ins: Seq<char>) -> Seq<char> {
    c.take(index_at(c, s)) + ins + c.skip(index_at(c, e))
}

/// Whether bytes `s` to `e` can be replaced in the text of an element.
pub open spec fn fits(b: BoardState, id: u64, s: int, e: int) -> bool {
    text_at(b, id) matches Some(c) ==> s <= e && on_boundary(c, s) && on_boundary(c, e)
}

/// The style of text that is typed at byte `s` of an element.
pub open spec fn typing_style(b: BoardState, e: Item, s: int) -> RunStyle {
    match b.ui.edit.pending_style {
        Some(p) => p,
        None => style_of(e.styles, left_of(s)),
    }
}

/// An element with the bytes from `s` to `e` of its text replaced.
pub open spec fn retyped(x: Item, c: Seq<char>, s: int, e: int, ins: Seq<char>, st: RunStyle) -> Item {
    Item {
        styles: spliced(x.styles, s, e, blen(ins) as int, st),
        ..with_text(x, replaced_text(c, s, e, ins))
    }
}

/// The board with the bytes from `s` to `e` of an element's text replaced.
pub open spec fn replaced(b: BoardState, id: u64, s: int, e: int, ins: Seq<char>) -> BoardState {
    match item_of(b.scene.elements, id) {
        None => b,
        Some(x) => match text_in(x) {
            None => b,
            Some(c) => {
                let at = (s + blen(ins)) as usize;
                BoardState {
                    scene: SceneView {
                        elements: with_item(
                            b.scene.elements,
                            id,
                            retyped(x, c, s, e, ins, typing_style(b, x, s)),
                        ),
                        ..b.scene
                    },
                    ui: Ui {
                        edit: Edit { caret: at, sel_anchor: at, marked_range: None, ..b.ui.edit },
                        dirty: true,
                        ..b.ui
                    },
                    ..b
                }
            },
        },
    }
}

/// The caret at `to`, with the selection collapsed or extended.
pub open spec fn caret_moved(d: Edit, to: usize, extend: bool) -> Edit {
    Edit {
        caret: to,
        sel_anchor: if extend {
            d.sel_anchor
        } else {
            to
        },
        pending_style: None,
        ..d
    }
}

/// The style of the selected text.
pub open spec fn style_selected(b: BoardState) -> RunStyle {
    let r = range_of(b.ui.edit);
    match b.ui.edit.editing {
        None => plain(),
        Some(id) => if r.0 >= r.1 && b.ui.edit.pending_style is Some {
            b.ui.edit.pending_style->0
        } else {
            match item_of(b.scene.elements, id) {
                Some(e) => shared_style(e.styles, r.0 as int, r.1 as int),
                None => plain(),
            }
        },
    }
}

/// The board with the selected text restyled by `c`, or the next text by `p`.
pub open spec fn format_applied(b: BoardState, f: Format) -> BoardState {
    let r = range_of(b.ui.edit);
    match b.ui.edit.editing {
        None => b,
        Some(id) => if r.0 < r.1 {
            match item_of(b.scene.elements, id) {
                Some(e) => restyled_board(
                    b,
                    id,
                    e,
                    changed(
                        e.styles,
                        r.0 as int,
                        r.1 as int,
                        format_toggle(e.styles, r.0 as int, r.1 as int, f),
                    ),
                ),
                None => b,
            }
        } else {
            let p = style_selected(b);
            next_styled(b, with(p, f, !bears(p, f)))
        },
    }
}

/// The board with the selected text highlighted, or the next text.
pub open spec fn highlight_applied(b: BoardState, color: u32) -> BoardState {
    let r = range_of(b.ui.edit);
    match b.ui.edit.editing {
        None => b,
        Some(id) => if r.0 < r.1 {
            match item_of(b.scene.elements, id) {
                Some(e) => restyled_board(
                    b,
                    id,
                    e,
                    changed(
                        e.styles,
                        r.0 as int,
                        r.1 as int,
                        highlight_toggle(e.styles, r.0 as int, r.1 as int, color),
                    ),
                ),
                None => b,
            }
        } else {
            let p = style_selected(b);
            next_styled(
                b,
                RunStyle {
                    highlight: if p.highlight == Some(color) {
                        None
                    } else {
                        Some(color)
                    },
                    ..p
                },
            )
        },
    }
}

/// The board with other styles on an element.
pub open spec fn restyled_board(
    b: BoardState,
    id: u64,
    e: Item,
    styles: Seq<crate::styles::StyleSpan>,
) -> BoardState {
    BoardState {
        scene: SceneView {
            elements: with_item(b.scene.elements, id, Item { styles, ..e }),
            ..b.scene
        },
        ui: Ui { dirty: true, ..b.ui },
        ..b
    }
}

/// The board with a style for the next text.
pub open spec fn next_styled(b: BoardState, st: RunStyle) -> BoardState {
    BoardState { ui: Ui { edit: Edit { pending_style: Some(st), ..b.ui.edit }, ..b.ui }, ..b }
}

/// The elements once the text of an element is done with: an empty label is
/// dropped, and so is a text without content.
pub open spec fn finished(v: Seq<Item>, id: u64) -> Seq<Item> {
    let w = match item_of(v, id) {
        Some(e) => if is_closed(e.kind) && (e.label matches Some(l) ==> blank(l)) {
            with_item(v, id, Item { label: None, ..e })
        } else {
            v
        },
        None => v,
    };
    w.filter(|e: Item| e.id != id || !(e.kind matches ElementKind::Text(t) && blank(t)))
}

/// The controls once no text is edited.
pub open spec fn edit_closed(u: Ui) -> Ui {
    Ui {
        edit: Edit {
            editing: None,
            text_selecting: false,
            pending_style: None,
            marked_range: None,
            ..u.edit
        },
        pop: Popups { format_flyout: false, ..u.pop },
        ..u
    }
}

/// The board once the editing ended.
pub open spec fn committed(b: BoardState) -> BoardState {
    match b.ui.edit.editing {
        None => BoardState { ui: edit_closed(b.ui), ..b },
        Some(id) => BoardState {
            scene: SceneView { elements: finished(b.scene.elements, id), ..b.scene },
            ui: Ui { dirty: false, ..edit_closed(b.ui) },
            ..b
        },
    }
}

/// The controls once the text of an element is edited.
pub open spec fn edit_begun(u: Ui, id: u64, at: usize) -> Ui {
    Ui {
        edit: Edit {
            editing: Some(id),
            caret: at,
            sel_anchor: at,
            marked_range: None,
            ..u.edit
        },
        ..u
    }
}

/// The board with the caret and the selection's other end between characters.
pub open spec fn settled(b: BoardState, c: Seq<char>) -> BoardState {
    BoardState {
        ui: Ui {
            edit: Edit {
                caret: floor_of(c, b.ui.edit.caret as int) as usize,
                sel_anchor: floor_of(c, b.ui.edit.sel_anchor as int) as usize,
                ..b.ui.edit
            },
            ..b.ui
        },
        ..b
    }
}

/// The bytes from `s` to `e` of `c`.
pub open spec fn cut_out(c: Seq<char>, s: int, e: int) -> Seq<char> {
    c.subrange(index_at(c, s), index_at(c, e))
}

/// The board with the caret moved.
pub open spec fn with_caret(b: BoardState, to: int, extend: bool) -> BoardState {
    BoardState { ui: Ui { edit: caret_moved(b.ui.edit, to as usize, extend), ..b.ui }, ..b }
}

/// What a key with the command modifier does.
pub open spec fn command_key(b: BoardState, id: u64, c: Seq<char>, k: KeyView) -> (
    BoardState,
    TextKey<Seq<char>>,
) {
    let r = range_of(b.ui.edit);
    let (s, e) = (r.0 as int, r.1 as int);
    if k.key == "a"@ {
        let all = Edit { sel_anchor: 0, caret: blen(c) as usize, ..b.ui.edit };
        (BoardState { ui: Ui { edit: all, ..b.ui }, ..b }, TextKey::Done)
    } else if k.key == "b"@ {
        (format_applied(b, Format::Bold), TextKey::Done)
    } else if k.key == "i"@ {
        (format_applied(b, Format::Italic), TextKey::Done)
    } else if k.key == "u"@ {
        (format_applied(b, Format::Underline), TextKey::Done)
    } else if k.key == "x"@ && k.shift {
        (format_applied(b, Format::Strike), TextKey::Done)
    } else if k.key == "h"@ && k.shift {
        (highlight_applied(b, HIGHLIGHT_DEFAULT), TextKey::Done)
    } else if k.key == "c"@ || k.key == "x"@ {
        if s < e {
            (
                if k.key == "x"@ {
                    replaced(b, id, s, e, Seq::empty())
                } else {
                    b
                },
                TextKey::Copy(cut_out(c, s, e)),
            )
        } else {
            (b, TextKey::Done)
        }
    } else if k.key == "v"@ {
        (b, TextKey::Paste)
    } else {
        (b, TextKey::Pass)
    }
}

/// Whether a key stands for text that is typed by other means.
pub open spec fn is_printable(k: KeyView) -> bool {
    k.key_char matches Some(t) && t.len() > 0 && !is_control(t[0])
}

/// What a key without the command modifier does.
pub open spec fn plain_key(b: BoardState, id: u64, c: Seq<char>, k: KeyView) -> (
    BoardState,
    TextKey<Seq<char>>,
) {
    let r = range_of(b.ui.edit);
    let (s, e) = (r.0 as int, r.1 as int);
    let at = b.ui.edit.caret as int;
    if k.key == "left"@ {
        let to = if !k.shift && s < e {
            s
        } else {
            prev_of(c, at)
        };
        (with_caret(b, to, k.shift), TextKey::Done)
    } else if k.key == "right"@ {
        let to = if !k.shift && s < e {
            e
        } else {
            next_of(c, at)
        };
        (with_caret(b, to, k.shift), TextKey::Done)
    } else if k.key == "up"@ {
        (b, TextKey::Vertical { down: false, extend: k.shift })
    } else if k.key == "down"@ {
        (b, TextKey::Vertical { down: true, extend: k.shift })
    } else if k.key == "home"@ {
        let to = offset(c, line_start_of(c, index_at(c, at))) as int;
        (with_caret(b, to, k.shift), TextKey::Done)
    } else if k.key == "end"@ {
        let to = offset(c, line_end_from(c, index_at(c, at))) as int;
        (with_caret(b, to, k.shift), TextKey::Done)
    } else if k.key == "backspace"@ {
        if s < e {
            (replaced(b, id, s, e, Seq::empty()), TextKey::Done)
        } else if at > 0 {
            (replaced(b, id, prev_of(c, at), at, Seq::empty()), TextKey::Done)
        } else {
            (b, TextKey::Done)
        }
    } else if k.key == "delete"@ {
        if s < e {
            (replaced(b, id, s, e, Seq::empty()), TextKey::Done)
        } else if at < blen(c) {
            (replaced(b, id, at, next_of(c, at), Seq::empty()), TextKey::Done)
        } else {
            (b, TextKey::Done)
        }
    } else if k.key == "enter"@ {
        (replaced(b, id, s, e, "\n"@), TextKey::Done)
    } else if k.key == "tab"@ || !is_printable(k) {
        (b, TextKey::Pass)
    } else {
        (b, TextKey::Ignored)
    }
}

/// What a key does in a text that reads `c`.
pub open spec fn key_in_text(b: BoardState, id: u64, c: Seq<char>, k: KeyView) -> (
    BoardState,
    TextKey<Seq<char>>,
) {
    if k.composing {
        (b, TextKey::Ignored)
    } else if k.key == "escape"@ {
        (committed(b), TextKey::Committed)
    } else if k.platform || k.control {
        command_key(b, id, c, k)
    } else if k.key == "tab"@ && meta_of(b.scene.elements, id) is Some {
        (committed(b), TextKey::Grow { id, sibling: false })
    } else if k.key == "enter"@ && meta_of(b.scene.elements, id) is Some {
        (committed(b), TextKey::Grow { id, sibling: true })
    } else {
        plain_key(b, id, c, k)
    }
}

/// What a key does while text is edited.
pub open spec fn text_key(b: BoardState, k: KeyView) -> (BoardState, TextKey<Seq<char>>) {
    match b.ui.edit.editing {
        None => (b, TextKey::Ignored),
        Some(id) => match text_at(b, id) {
            None => (committed(b), TextKey::Committed),
            Some(c) => key_in_text(settled(b, c), id, c, k),
        },
    }
}

/// What is left to the host, as a value.
pub open spec fn text_key_view(t: TextKey<String>) -> TextKey<Seq<char>> {
    match t {
        TextKey::Ignored => TextKey::Ignored,
        TextKey::Pass => TextKey::Pass,
        TextKey::Done => TextKey::Done,
        TextKey::Copy(s) => TextKey::Copy(s@),
        TextKey::Paste => TextKey::Paste,
        TextKey::Vertical { down, extend } => TextKey::Vertical { down, extend },
        TextKey::Committed => TextKey::Committed,
        TextKey::Grow { id, sibling } => TextKey::Grow { id, sibling },
    }
}

/// The board with composed text in the place of a range.
pub open spec fn composed(
    b: BoardState,
    id: u64,
    s: int,
    e: int,
    text: Seq<char>,
    picked: Option<(int, int)>,
    mark: bool,
) -> BoardState {
    let r = replaced(b, id, s, e, text);
    let end = s + blen(text);
    let caret = match picked {
        Some(p) => s + p.1,
        None => end,
    };
    let anchor = match picked {
        Some(p) => s + p.0,
        None => caret,
    };
    BoardState {
        ui: Ui {
            edit: Edit {
                caret: caret as usize,
                sel_anchor: anchor as usize,
                marked_range: if mark && text.len() > 0 {
                    Some(Span { start: s as usize, end: end as usize })
                } else {
                    None
                },
                ..r.ui.edit
            },
            ..r.ui
        },
        ..r
    }
}

// --- How it is done ---

/// The text of an element that can be edited.
fn text_of(e: &Element) -> (r: Option<String>)
    ensures
        opt_view(r) == text_in(e@),
{
    match &e.kind {
        ElementKind::Text(s) => Some(s.as_str().to_owned()),
        _ => if is_closed_shape(&e.kind) {
            match &e.label {
                Some(l) => Some(l.as_str().to_owned()),
                None => {
                    let t = String::new();
                    assert(t@ =~= Seq::<char>::empty());
                    Some(t)
                },
            }
        } else {
            None
        },
    }
}

/// Whether `s` is all whitespace.
fn is_blank(s: &str) -> (r: bool)
    ensures
        r == blank(s@),
{
    let t = Text::new(s);
    let i: usize = skip_space(&t.chars, 0);
    i == t.chars.len()
}

/// `c` with the bytes from `s` to `e` replaced, and the byte past the new text.
fn splice_text(c: &str, s: usize, e: usize, ins: &str) -> (r: (String, usize, usize))
    requires
        s <= e,
        on_boundary(c@, s as int),
        on_boundary(c@, e as int),
    ensures
        r.0@ == replaced_text(c@, s as int, e as int, ins@),
        r.1 == blen(ins@),
        r.2 == s + blen(ins@),
{
    let t = Text::new(c);
    let u = Text::new(ins);
    let i: usize = match t.index_of(s) {
        Some(i) => i,
        None => 0,
    };
    let j: usize = match t.index_of(e) {
        Some(j) => j,
        None => 0,
    };
    let n: usize = t.chars.len();
    proof {
        if j < i {
            lemma_offset_mono(c@, j as int, i as int);
        }
    }
    let mut out = to_string(part(&t.chars, 0, i));
    out.append(ins);
    let ghost head = out@;
    let tail = to_string(part(&t.chars, j, n));
    out.append(tail.as_str());
    let w = Text::new(out.as_str());
    let k: usize = u.chars.len();
    proof {
        assert(c@.subrange(0, i as int) =~= c@.take(i as int));
        assert(c@.subrange(j as int, n as int) =~= c@.skip(j as int));
        assert(head =~= c@.take(i as int) + ins@);
        assert(out@ =~= replaced_text(c@, s as int, e as int, ins@));
        assert(out@.take(i + k) =~= c@.take(i as int) + ins@);
        lemma_blen_concat(c@.take(i as int), ins@);
        lemma_offset_end(ins@);
        assert(w@.len() >= i + k);
        assert(w.offs@[i + k] == offset(w@, i + k));
    }
    let m: usize = w.chars.len();
    assert(i + k <= m);
    (out, u.offs[k], w.offs[i + k])
}

impl WhiteboardView {
    /// The text of an element that can be edited.
    pub fn edit_text(&self, id: u64) -> (r: Option<String>)
        ensures
            opt_view(r) == text_at(self@, id),
    {
        match find_element(&self.scene.elements, id) {
            Some(i) => {
                assert(items(self.scene.elements@)[i as int] == self.scene.elements@[i as int]@);
                text_of(&self.scene.elements[i])
            },
            None => None,
        }
    }

    /// The text that is being edited.
    pub fn editing_content(&self) -> (r: Option<String>)
        ensures
            opt_view(r) == (match self@.ui.edit.editing {
                Some(id) => text_at(self@, id),
                None => None,
            }),
    {
        match self.ui.edit.editing {
            Some(id) => self.edit_text(id),
            None => None,
        }
    }

    /// The selected text's ends, in order.
    pub fn sel_range(&self) -> (r: (usize, usize))
        ensures
            r == range_of(self@.ui.edit),
            r.0 <= r.1,
    {
        if self.ui.edit.caret <= self.ui.edit.sel_anchor {
            (self.ui.edit.caret, self.ui.edit.sel_anchor)
        } else {
            (self.ui.edit.sel_anchor, self.ui.edit.caret)
        }
    }

    /// Moves the caret, and unless `extend` the selection's other end with it.
    pub fn move_caret(&mut self, to: usize, extend: bool)
        ensures
            final(self)@ == with_caret(old(self)@, to as int, extend),
    {
        self.ui.edit.caret = to;
        if !extend {
            self.ui.edit.sel_anchor = to;
        }
        self.ui.edit.pending_style = None;
    }

    /// Replaces the bytes from `s` to `e` of an element's text. The caret goes
    /// past the new text; the styles follow.
    pub fn replace_range(&mut self, id: u64, s: usize, e: usize, ins: &str)
        requires
            fits(old(self)@, id, s as int, e as int),
        ensures
            final(self)@ == replaced(old(self)@, id, s as int, e as int, ins@),
    {
        let i: usize = match find_element(&self.scene.elements, id) {
            Some(i) => i,
            None => {
                return;
            },
        };
        let ghost v = self.scene.elements@;
        let ghost x = v[i as int]@;
        assert(items(v)[i as int] == x);
        let c = match text_of(&self.scene.elements[i]) {
            Some(c) => c,
            None => {
                return;
            },
        };
        let left: usize = if s > 0 {
            s - 1
        } else {
            s
        };
        let st = match self.ui.edit.pending_style {
            Some(p) => p,
            None => style_at(&self.scene.elements[i].styles, left),
        };
        let (text, n, at) = splice_text(c.as_str(), s, e, ins);
        let styles = splice_styles(&self.scene.elements[i].styles, s, e, n, st);
        let is_text = match self.scene.elements[i].kind {
            ElementKind::Text(_) => true,
            _ => false,
        };
        self.scene.elements[i].styles = styles;
        if is_text {
            self.scene.elements[i].kind = ElementKind::Text(text);
        } else {
            self.scene.elements[i].label = Some(text);
        }
        proof {
            let y = retyped(x, c@, s as int, e as int, ins@, st);
            assert(self.scene.elements@[i as int]@ == y);
            assert(items(self.scene.elements@) =~= items(v).update(i as int, y));
        }
        self.ui.edit.caret = at;
        self.ui.edit.sel_anchor = at;
        self.ui.edit.marked_range = None;
        self.ui.dirty = true;
    }

    /// Replaces the selected text.
    pub fn replace_selection(&mut self, id: u64, ins: &str)
        requires
            fits(
                old(self)@,
                id,
                range_of(old(self)@.ui.edit).0 as int,
                range_of(old(self)@.ui.edit).1 as int,
            ),
        ensures
            final(self)@ == replaced(
                old(self)@,
                id,
                range_of(old(self)@.ui.edit).0 as int,
                range_of(old(self)@.ui.edit).1 as int,
                ins@,
            ),
    {
        let (s, e) = self.sel_range();
        self.replace_range(id, s, e, ins);
    }

    /// Puts text that an input method composed in the place of a range of the
    /// text being edited. `selected_range_relative` is what it selects of it.
    pub fn replace_text_in_visible_range(
        &mut self,
        visible_range: Range<usize>,
        new_text: &str,
        selected_range_relative: Option<Range<usize>>,
        mark_inserted_text: bool,
    )
        requires
            old(self)@.ui.edit.editing matches Some(id) ==> {
                &&& fits(old(self)@, id, visible_range.start as int, visible_range.end as int)
                &&& visible_range.start + blen(new_text@) <= usize::MAX
                &&& selected_range_relative matches Some(r) ==> visible_range.start + r.start
                    <= usize::MAX && visible_range.start + r.end <= usize::MAX
            },
        ensures
            final(self)@ == (match old(self)@.ui.edit.editing {
                None => old(self)@,
                Some(id) => composed(
                    old(self)@,
                    id,
                    visible_range.start as int,
                    visible_range.end as int,
                    new_text@,
                    match selected_range_relative {
                        Some(r) => Some((r.start as int, r.end as int)),
                        None => None,
                    },
                    mark_inserted_text,
                ),
            }),
    {
        let id = match self.ui.edit.editing {
            Some(id) => id,
            None => {
                return;
            },
        };
        let start: usize = visible_range.start;
        self.replace_range(id, start, visible_range.end, new_text);
        let t = Text::new(new_text);
        let n: usize = t.chars.len();
        proof {
            lemma_offset_end(new_text@);
        }
        let end: usize = start + t.offs[n];
        self.ui.edit.marked_range = if mark_inserted_text && n > 0 {
            Some(Span { start, end })
        } else {
            None
        };
        match selected_range_relative {
            Some(r) => {
                self.ui.edit.caret = start + r.end;
                self.ui.edit.sel_anchor = start + r.start;
            },
            None => {
                self.ui.edit.caret = end;
                self.ui.edit.sel_anchor = end;
            },
        }
    }

    /// The style of the selected text; with nothing selected, that of the text
    /// that would be typed.
    pub fn selection_style(&self) -> (r: RunStyle)
        ensures
            r == style_selected(self@),
    {
        let (s, e) = self.sel_range();
        match self.ui.edit.editing {
            None => RunStyle::default(),
            Some(id) => {
                if s >= e {
                    match self.ui.edit.pending_style {
                        Some(p) => {
                            return p;
                        },
                        None => {},
                    }
                }
                match find_element(&self.scene.elements, id) {
                    Some(i) => {
                        assert(items(self.scene.elements@)[i as int]
                            == self.scene.elements@[i as int]@);
                        active_style(&self.scene.elements[i].styles, s, e)
                    },
                    None => RunStyle::default(),
                }
            },
        }
    }

    /// Toggles a format of the selected text; with nothing selected, of the
    /// text that is typed next.
    pub fn apply_format(&mut self, format: Format)
        ensures
            final(self)@ == format_applied(old(self)@, format),
    {
        let id = match self.ui.edit.editing {
            Some(id) => id,
            None => {
                return;
            },
        };
        let (s, e) = self.sel_range();
        if s < e {
            match find_element(&self.scene.elements, id) {
                Some(i) => {
                    let ghost v = self.scene.elements@;
                    assert(items(v)[i as int] == v[i as int]@);
                    let styles = toggle_format(&self.scene.elements[i].styles, s, e, format);
                    self.scene.elements[i].styles = styles;
                    assert(items(self.scene.elements@) =~= items(v).update(
                        i as int,
                        Item { styles: styles@, ..v[i as int]@ },
                    ));
                    self.ui.dirty = true;
                },
                None => {},
            }
        } else {
            let mut p = self.selection_style();
            let on = !format.get(&p);
            format.set(&mut p, on);
            self.ui.edit.pending_style = Some(p);
        }
    }

    /// Toggles the highlight of the selected text; with nothing selected, of
    /// the text that is typed next.
    pub fn apply_highlight(&mut self, color: u32)
        ensures
            final(self)@ == highlight_applied(old(self)@, color),
    {
        let id = match self.ui.edit.editing {
            Some(id) => id,
            None => {
                return;
            },
        };
        let (s, e) = self.sel_range();
        if s < e {
            match find_element(&self.scene.elements, id) {
                Some(i) => {
                    let ghost v = self.scene.elements@;
                    assert(items(v)[i as int] == v[i as int]@);
                    let styles = toggle_highlight(&self.scene.elements[i].styles, s, e, color);
                    self.scene.elements[i].styles = styles;
                    assert(items(self.scene.elements@) =~= items(v).update(
                        i as int,
                        Item { styles: styles@, ..v[i as int]@ },
                    ));
                    self.ui.dirty = true;
                },
                None => {},
            }
        } else {
            let mut p = self.selection_style();
            p.highlight = if p.highlight == Some(color) {
                None
            } else {
                Some(color)
            };
            self.ui.edit.pending_style = Some(p);
        }
    }

    /// Starts to edit the text of an element, with the caret at byte `at`.
    pub fn begin_text_edit(&mut self, id: u64, at: usize)
        ensures
            final(self)@ == (BoardState { ui: edit_begun(old(self)@.ui, id, at), ..old(self)@ }),
    {
        self.ui.edit.editing = Some(id);
        self.ui.edit.caret = at;
        self.ui.edit.sel_anchor = at;
        self.ui.edit.marked_range = None;
    }

    /// Puts the caret where the text of `id` was clicked: at byte `idx`, or
    /// around the word there. Does nothing where there is no text.
    pub fn place_caret_from_click(&mut self, id: u64, idx: usize, double: bool, shift: bool)
        ensures
            final(self)@ == (match text_at(old(self)@, id) {
                None => old(self)@,
                Some(c) => BoardState {
                    ui: Ui { edit: caret_placed(old(self)@.ui.edit, c, idx, double, shift), ..old(self)@.ui },
                    ..old(self)@
                },
            }),
    {
        let c = match self.edit_text(id) {
            Some(c) => c,
            None => {
                return;
            },
        };
        if double {
            let (s, e) = word_range(c.as_str(), idx);
            self.ui.edit.sel_anchor = s;
            self.ui.edit.caret = e;
            self.ui.edit.text_selecting = false;
        } else {
            self.ui.edit.caret = idx;
            if !shift {
                self.ui.edit.sel_anchor = idx;
            }
            self.ui.edit.text_selecting = true;
        }
        self.ui.edit.marked_range = None;
    }

    /// Ends the editing. A text without content goes; an empty label is
    /// dropped. Returns whether the host has to save.
    pub fn commit_text(&mut self) -> (save: bool)
        ensures
            final(self)@ == committed(old(self)@),
            save == old(self)@.ui.edit.editing is Some,
    {
        let editing = self.ui.edit.editing;
        self.ui.edit.text_selecting = false;
        self.ui.edit.pending_style = None;
        self.ui.edit.marked_range = None;
        self.ui.edit.editing = None;
        self.ui.pop.format_flyout = false;
        let id = match editing {
            Some(id) => id,
            None => {
                return false;
            },
        };
        finish(&mut self.scene.elements, id);
        self.ui.dirty = true;
        self.flush()
    }
}

/// The caret after a click into a text.
pub open spec fn caret_placed(d: Edit, c: Seq<char>, idx: usize, double: bool, shift: bool) -> Edit {
    if double {
        let i = floor_from(c, idx as int, c.len() as int);
        Edit {
            sel_anchor: offset(c, word_start(c, i)) as usize,
            caret: offset(c, word_end(c, i)) as usize,
            text_selecting: false,
            marked_range: None,
            ..d
        }
    } else {
        Edit {
            caret: idx,
            sel_anchor: if shift {
                d.sel_anchor
            } else {
                idx
            },
            text_selecting: true,
            marked_range: None,
            ..d
        }
    }
}

/// Drops an empty label, and a text without content.
fn finish(v: &mut Vec<Element>, id: u64)
    ensures
        items(final(v)@) == finished(items(old(v)@), id),
{
    let ghost first = v@;
    match find_element(v, id) {
        Some(i) => {
            assert(items(v@)[i as int] == v@[i as int]@);
            let empty = match &v[i].label {
                Some(l) => is_blank(l.as_str()),
                None => true,
            };
            if is_closed_shape(&v[i].kind) && empty {
                v[i].label = None;
                assert(items(v@) =~= items(first).update(
                    i as int,
                    Item { label: None, ..first[i as int]@ },
                ));
            }
        },
        None => {},
    }
    let ghost all = items(v@);
    let ghost p = |e: Item| e.id != id || !(e.kind matches ElementKind::Text(t) && blank(t));
    let mut rest: Vec<Element> = Vec::new();
    std::mem::swap(v, &mut rest);
    let ghost src = rest@;
    let ghost mut n: int = 0;
    for e in it: rest
        invariant
            it.seq() == src,
            n == it.index(),
            0 <= n <= src.len(),
            all == items(src),
            p == (|e: Item| e.id != id || !(e.kind matches ElementKind::Text(t) && blank(t))),
            items(v@) == all.take(n).filter(p),
    {
        let ghost now = v@;
        proof {
            assert(all[n] == e@);
            assert(all.take(n + 1).drop_last() =~= all.take(n));
            reveal_with_fuel(Seq::filter, 2);
            assert(items(now.push(e)) =~= items(now).push(e@));
        }
        let hollow = match &e.kind {
            ElementKind::Text(t) => is_blank(t.as_str()),
            _ => false,
        };
        if e.id != id || !hollow {
            v.push(e);
        }
        proof {
            n = n + 1;
        }
    }
    assert(all.take(all.len() as int) =~= all);
}

} // verus!
