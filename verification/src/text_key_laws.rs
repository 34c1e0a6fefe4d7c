//! What holds of keys in a text: what the text and the caret are after one.
use crate::board::BoardState;
use crate::caret::{floor_of, lemma_floor_of, next_of, prev_of};
use crate::editing::{replaced_text, settled, text_at, text_in, KeyView, TextKey};
use crate::key_laws::is_command;
use crate::keys::{key_pressed, KeyOutcomeView};
use crate::mindmap::meta_of;
use crate::scene::{index_of, item_of, lemma_index_from, Item};
use crate::text::{blen, lemma_index_at, lemma_line_start, lemma_offset_end, lemma_offset_mono};
use crate::text::{index_at, lemma_index_of, line_end_from, line_start_of, offset};
use vstd::prelude::*;

verus! {

/// Whether the text `c` of element `id` is edited, with the characters from `i`
/// to `j` selected, or the caret at `i` where nothing is.
pub open spec fn is_editing(b: BoardState, id: u64, c: Seq<char>, i: int, j: int) -> bool {
    &&& !b.ui.read_only
    &&& !b.ui.drag.toolbar
    &&& b.ui.drag.connecting is None
    &&& b.ui.pop.picker is None
    &&& !b.ui.pop.templates_open
    &&& b.ui.edit.editing == Some(id)
    &&& text_at(b, id) == Some(c)
    &&& 0 <= i <= j <= c.len()
    &&& ({
        let d = b.ui.edit;
        (d.caret == offset(c, i) && d.sel_anchor == offset(c, j)) || (d.caret == offset(c, j)
            && d.sel_anchor == offset(c, i))
    })
    &&& blen(c) <= usize::MAX
}

/// Whether a key is pressed without a modifier but Shift, and nothing is
/// composed.
pub open spec fn is_typed(k: KeyView) -> bool {
    !k.platform && !k.control && !k.alt && !k.composing
}

/// Whether only the text of element `id` differs between two boards: it now
/// reads `c`, with the caret at character `i`.
pub open spec fn now_reads(b: BoardState, r: BoardState, id: u64, c: Seq<char>, i: int) -> bool {
    let v = b.scene.elements;
    let w = r.scene.elements;
    &&& text_at(r, id) == Some(c)
    &&& r.ui.edit.caret == offset(c, i)
    &&& r.ui.edit.sel_anchor == offset(c, i)
    &&& r.ui.edit.editing == Some(id)
    &&& r.selected == b.selected
    &&& r.history == b.history
    &&& w.len() == v.len()
    &&& forall|k: int|
        0 <= k < v.len() ==> (#[trigger] w[k]).id == v[k].id && w[k].place == v[k].place && w[k].mindmap
            == v[k].mindmap && (v[k].id != id ==> w[k] == v[k])
}

/// Whether the board is as it was but for the caret at character `to` and the
/// other end of the selection at character `from`.
pub open spec fn caret_at(b: BoardState, r: BoardState, c: Seq<char>, from: int, to: int) -> bool {
    &&& r.scene == b.scene
    &&& r.selected == b.selected
    &&& r.history == b.history
    &&& r.ui.edit.editing == b.ui.edit.editing
    &&& r.ui.edit.caret == offset(c, to)
    &&& r.ui.edit.sel_anchor == offset(c, from)
}

proof fn lemma_bound(c: Seq<char>, i: int)
    requires
        0 <= i <= c.len(),
    ensures
        offset(c, i) <= blen(c),
        index_at(c, offset(c, i) as int) == i,
        floor_of(c, offset(c, i) as int) == offset(c, i),
        i > 0 ==> prev_of(c, offset(c, i) as int) == offset(c, i - 1),
        i < c.len() ==> next_of(c, offset(c, i) as int) == offset(c, i + 1),
        i > 0 <==> offset(c, i) > 0,
        i < c.len() <==> offset(c, i) < blen(c),
{
    lemma_index_at(c, i);
    lemma_offset_end(c);
    lemma_offset_mono(c, 0, i);
    lemma_offset_mono(c, i, c.len() as int);
    lemma_floor_of(c, offset(c, i) as int);
    assert(c.take(0) =~= Seq::<char>::empty());
}

pub(crate) proof fn lemma_settled(b: BoardState, id: u64, c: Seq<char>, i: int, j: int)
    requires
        is_editing(b, id, c, i, j),
    ensures
        settled(b, c) == b,
        i < j <==> offset(c, i) < offset(c, j),
{
    lemma_bound(c, i);
    lemma_bound(c, j);
    lemma_offset_mono(c, i, j);
}

proof fn lemma_replaced_reads(
    b: BoardState,
    id: u64,
    c: Seq<char>,
    i: int,
    j: int,
    ins: Seq<char>,
)
    requires
        text_at(b, id) == Some(c),
        b.ui.edit.editing == Some(id),
        0 <= i <= j <= c.len(),
        offset(c, i) + blen(ins) <= usize::MAX,
    ensures
        now_reads(
            b,
            crate::editing::replaced(b, id, offset(c, i) as int, offset(c, j) as int, ins),
            id,
            c.take(i) + ins + c.skip(j),
            (i + ins.len()) as int,
        ),
{
    let r = crate::editing::replaced(b, id, offset(c, i) as int, offset(c, j) as int, ins);
    let d = c.take(i) + ins + c.skip(j);
    let v = b.scene.elements;
    let x = item_of(v, id)->0;
    let at = index_of(v, id)->0;
    lemma_bound(c, i);
    lemma_bound(c, j);
    lemma_index_from(v, id, 0);
    assert(replaced_text(c, offset(c, i) as int, offset(c, j) as int, ins) == d);
    let w = r.scene.elements;
    assert(w == v.update(at, w[at]));
    lemma_same_place(v, w, id);
    assert(item_of(w, id) == Some(w[at]));
    assert(text_in(w[at]) == Some(d));
    assert(d.take((i + ins.len()) as int) =~= c.take(i) + ins);
    crate::text::lemma_blen_concat(c.take(i), ins);
}

proof fn lemma_same_place(v: Seq<Item>, w: Seq<Item>, id: u64)
    requires
        v.len() == w.len(),
        forall|k: int| 0 <= k < v.len() ==> (#[trigger] v[k]).id == w[k].id,
    ensures
        index_of(v, id) == index_of(w, id),
{
    lemma_index_from(v, id, 0);
    lemma_index_from(w, id, 0);
    lemma_same_from(v, w, id, 0);
}

proof fn lemma_same_from(v: Seq<Item>, w: Seq<Item>, id: u64, i: int)
    requires
        v.len() == w.len(),
        forall|k: int| 0 <= k < v.len() ==> (#[trigger] v[k]).id == w[k].id,
        0 <= i,
    ensures
        crate::scene::index_from(v, id, i) == crate::scene::index_from(w, id, i),
    decreases v.len() - i,
{
    if i < v.len() {
        assert(v[i].id == w[i].id);
        lemma_same_from(v, w, id, i + 1);
    }
}

pub(crate) proof fn lemma_names()
    ensures
        "escape"@.len() == 6 && "escape"@[0] == 'e',
        "backspace"@.len() == 9,
        "delete"@.len() == 6 && "delete"@[0] == 'd',
        "enter"@.len() == 5 && "enter"@[0] == 'e',
        "tab"@.len() == 3 && "tab"@[0] == 't',
        "left"@.len() == 4 && "left"@[0] == 'l',
        "right"@.len() == 5 && "right"@[0] == 'r',
        "up"@.len() == 2,
        "down"@.len() == 4 && "down"@[0] == 'd',
        "home"@.len() == 4 && "home"@[0] == 'h',
        "end"@.len() == 3 && "end"@[0] == 'e',
        "a"@.len() == 1 && "a"@[0] == 'a',
        "b"@.len() == 1 && "b"@[0] == 'b',
        "i"@.len() == 1 && "i"@[0] == 'i',
        "u"@.len() == 1 && "u"@[0] == 'u',
        "x"@.len() == 1 && "x"@[0] == 'x',
        "h"@.len() == 1 && "h"@[0] == 'h',
        "c"@.len() == 1 && "c"@[0] == 'c',
        "v"@.len() == 1 && "v"@[0] == 'v',
{
    reveal_strlit("escape");
    reveal_strlit("backspace");
    reveal_strlit("delete");
    reveal_strlit("enter");
    reveal_strlit("tab");
    reveal_strlit("left");
    reveal_strlit("right");
    reveal_strlit("up");
    reveal_strlit("down");
    reveal_strlit("home");
    reveal_strlit("end");
    reveal_strlit("a");
    reveal_strlit("b");
    reveal_strlit("i");
    reveal_strlit("u");
    reveal_strlit("x");
    reveal_strlit("h");
    reveal_strlit("c");
    reveal_strlit("v");
}

/// Backspace and Delete remove the selected characters; where none are, the one
/// before the caret and the one behind it. The caret stands where they were.
pub proof fn law_backspace_and_delete(
    b: BoardState,
    k: KeyView,
    id: u64,
    c: Seq<char>,
    i: int,
    j: int,
)
    requires
        is_editing(b, id, c, i, j),
        is_typed(k),
        k.key == "backspace"@ || k.key == "delete"@,
    ensures
        ({
            let r = key_pressed(b, k);
            let back = k.key == "backspace"@;
            &&& r.1 == KeyOutcomeView::Text(TextKey::Done)
            &&& i < j ==> now_reads(b, r.0, id, c.take(i) + c.skip(j), i)
            &&& i == j && back && i > 0 ==> now_reads(b, r.0, id, c.take(i - 1) + c.skip(i), i - 1)
            &&& i == j && !back && i < c.len() ==> now_reads(
                b,
                r.0,
                id,
                c.take(i) + c.skip(i + 1),
                i,
            )
            &&& i == j && (if back {
                i == 0
            } else {
                i == c.len()
            }) ==> r.0.scene == b.scene
        }),
{
    lemma_names();
    lemma_settled(b, id, c, i, j);
    lemma_bound(c, i);
    lemma_bound(c, j);
    let none = Seq::<char>::empty();
    if i < j {
        lemma_replaced_reads(b, id, c, i, j, none);
        assert(c.take(i) + none + c.skip(j) =~= c.take(i) + c.skip(j));
    } else {
        if i > 0 {
            lemma_bound(c, i - 1);
            lemma_replaced_reads(b, id, c, i - 1, i, none);
            assert(c.take(i - 1) + none + c.skip(i) =~= c.take(i - 1) + c.skip(i));
        }
        if i < c.len() {
            lemma_replaced_reads(b, id, c, i, i + 1, none);
            assert(c.take(i) + none + c.skip(i + 1) =~= c.take(i) + c.skip(i + 1));
        }
    }
}

/// Enter puts a line feed in the place of the selection, with the caret behind
/// it; in a mind map it ends the editing and asks for a sibling, as Tab asks for
/// a child.
pub proof fn law_enter_and_tab(b: BoardState, k: KeyView, id: u64, c: Seq<char>, i: int, j: int)
    requires
        is_editing(b, id, c, i, j),
        is_typed(k),
        offset(c, i) < usize::MAX,
    ensures
        ({
            let r = key_pressed(b, k);
            let is_node = meta_of(b.scene.elements, id) is Some;
            &&& k.key == "enter"@ && !is_node ==> {
                &&& r.1 == KeyOutcomeView::Text(TextKey::Done)
                &&& now_reads(b, r.0, id, c.take(i) + seq!['\n'] + c.skip(j), i + 1)
            }
            &&& k.key == "enter"@ && is_node ==> {
                &&& r.1 == KeyOutcomeView::Text(TextKey::Grow { id, sibling: true })
                &&& r.0.ui.edit.editing is None
            }
            &&& k.key == "tab"@ && is_node ==> {
                &&& r.1 == KeyOutcomeView::Text(TextKey::Grow { id, sibling: false })
                &&& r.0.ui.edit.editing is None
            }
            &&& k.key == "tab"@ && !is_node ==> r == (b, KeyOutcomeView::Text(TextKey::Pass))
            &&& k.key == "escape"@ ==> {
                &&& r.1 == KeyOutcomeView::Text(TextKey::Committed)
                &&& r.0.ui.edit.editing is None
            }
        }),
{
    lemma_names();
    lemma_settled(b, id, c, i, j);
    lemma_bound(c, i);
    lemma_bound(c, j);
    if k.key == "enter"@ && meta_of(b.scene.elements, id) is None {
        reveal_strlit("\n");
        assert("\n"@ =~= seq!['\n']);
        assert(blen(seq!['\n']) == 1) by {
            assert(seq!['\n'].drop_last() =~= Seq::<char>::empty());
        }
        lemma_replaced_reads(b, id, c, i, j, seq!['\n']);
    }
}

/// The arrow keys move the caret by one character, or to the end of the
/// selection that they point to; with Shift the other end of the selection
/// stays. The text stays.
pub proof fn law_arrow_keys(b: BoardState, k: KeyView, id: u64, c: Seq<char>, i: int, j: int)
    requires
        is_editing(b, id, c, i, j),
        is_typed(k),
        b.ui.edit.caret == offset(c, j),
        k.key == "left"@ || k.key == "right"@,
    ensures
        ({
            let r = key_pressed(b, k);
            let left = k.key == "left"@;
            let to = if left {
                if j > 0 {
                    j - 1
                } else {
                    0
                }
            } else if j < c.len() {
                j + 1
            } else {
                j
            };
            &&& r.1 == KeyOutcomeView::Text(TextKey::Done)
            &&& k.shift && b.ui.edit.sel_anchor == offset(c, i) ==> caret_at(b, r.0, c, i, to)
            &&& !k.shift && i == j ==> caret_at(b, r.0, c, to, to)
            &&& !k.shift && i < j ==> if left {
                caret_at(b, r.0, c, i, i)
            } else {
                caret_at(b, r.0, c, j, j)
            }
        }),
{
    lemma_names();
    lemma_settled(b, id, c, i, j);
    lemma_bound(c, i);
    lemma_bound(c, j);
    if j > 0 {
        lemma_bound(c, j - 1);
    }
    if j < c.len() {
        lemma_bound(c, j + 1);
    } else {
        lemma_offset_end(c);
    }
    assert(c.take(0) =~= Seq::<char>::empty());
}

/// Whether `h` is where the line of character `i` begins.
pub open spec fn is_line_start(c: Seq<char>, i: int, h: int) -> bool {
    0 <= h <= i && (h == 0 || c[h - 1] == '\n') && forall|k: int| h <= k < i ==> c[k] != '\n'
}

/// Whether `e` is where the line of character `i` ends.
pub open spec fn is_line_end(c: Seq<char>, i: int, e: int) -> bool {
    i <= e <= c.len() && (e == c.len() || c[e] == '\n') && forall|k: int| i <= k < e ==> c[k] != '\n'
}

/// Home and End take the caret to the start and the end of its line.
pub proof fn law_home_and_end(
    b: BoardState,
    k: KeyView,
    id: u64,
    c: Seq<char>,
    i: int,
    j: int,
    to: int,
)
    requires
        is_editing(b, id, c, i, j),
        is_typed(k),
        b.ui.edit.caret == offset(c, j),
        b.ui.edit.sel_anchor == offset(c, i),
        (k.key == "home"@ && is_line_start(c, j, to)) || (k.key == "end"@ && is_line_end(c, j, to)),
    ensures
        key_pressed(b, k).1 == KeyOutcomeView::Text(TextKey::Done),
        caret_at(
            b,
            key_pressed(b, k).0,
            c,
            if k.shift {
                i
            } else {
                to
            },
            to,
        ),
{
    lemma_names();
    lemma_settled(b, id, c, i, j);
    lemma_bound(c, i);
    lemma_bound(c, j);
    lemma_bound(c, to);
    if k.key == "home"@ {
        lemma_line_start(c, j);
        let h = line_start_of(c, j);
        if h < to {
            assert(c[to - 1] != '\n');
        } else if to < h {
            assert(c[h - 1] != '\n');
        }
    } else {
        lemma_index_of(c, '\n', j);
        let e = line_end_from(c, j);
        if e < to {
            assert(c[e] != '\n');
        } else if to < e {
            assert(c[to] != '\n');
        }
    }
}

/// With the command modifier: A selects the whole text; C copies the selected
/// characters and X cuts them out; V asks for the clipboard. Without a selection
/// there is nothing to copy.
pub proof fn law_clipboard_keys(b: BoardState, k: KeyView, id: u64, c: Seq<char>, i: int, j: int)
    requires
        is_editing(b, id, c, i, j),
        is_command(k),
        !k.composing,
        !k.shift,
    ensures
        ({
            let r = key_pressed(b, k);
            &&& k.key == "a"@ ==> caret_at(b, r.0, c, 0, c.len() as int)
            &&& k.key == "c"@ ==> {
                &&& r.0 == b
                &&& r.1 == KeyOutcomeView::Text(
                    if i < j {
                        TextKey::Copy(c.subrange(i, j))
                    } else {
                        TextKey::Done
                    },
                )
            }
            &&& k.key == "x"@ && i < j ==> {
                &&& r.1 == KeyOutcomeView::Text(TextKey::Copy(c.subrange(i, j)))
                &&& now_reads(b, r.0, id, c.take(i) + c.skip(j), i)
            }
            &&& k.key == "x"@ && i == j ==> r == (b, KeyOutcomeView::Text(TextKey::Done))
            &&& k.key == "v"@ ==> r == (b, KeyOutcomeView::Text(TextKey::Paste))
        }),
{
    lemma_names();
    lemma_settled(b, id, c, i, j);
    lemma_bound(c, i);
    lemma_bound(c, j);
    lemma_offset_end(c);
    assert(c.take(0) =~= Seq::<char>::empty());
    let none = Seq::<char>::empty();
    if k.key == "x"@ && i < j {
        assert(k.key[0] == 'x');
        lemma_replaced_reads(b, id, c, i, j, none);
        assert(c.take(i) + none + c.skip(j) =~= c.take(i) + c.skip(j));
    }
    if k.key == "a"@ {
        assert(k.key[0] == 'a');
    }
    if k.key == "c"@ {
        assert(k.key[0] == 'c');
    }
    if k.key == "v"@ {
        assert(k.key[0] == 'v');
    }
}

} // verus!
