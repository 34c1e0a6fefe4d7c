//! What holds of formats: what toggling one does to the selected text.
use crate::board::BoardState;
use crate::editing::{format_applied, highlight_applied, KeyView};
use crate::key_laws::is_command;
use crate::keys::key_pressed;
use crate::scene::{index_of, item_of, lemma_index_from, Item};
use crate::styles::{all_have, all_lit, bears, changed, changed_at, format_toggle};
use crate::styles::{highlight_toggle, is_changed, is_tidy, plain, style_from, style_of};
use crate::styles::{Format, Restyle, RunStyle, StyleSpan};
use crate::text_key_laws::{is_editing, lemma_settled};
use vstd::prelude::*;

verus! {

// --- Writing a styling down ---

/// Whether spans end at byte `n` at the latest.
spec fn ends_by(v: Seq<StyleSpan>, n: int) -> bool {
    forall|k: int| 0 <= k < v.len() ==> (#[trigger] v[k]).end <= n
}

proof fn lemma_style_push(v: Seq<StyleSpan>, x: StyleSpan, i: int, k: int)
    requires
        ends_by(v, x.start as int),
        0 <= k <= v.len(),
    ensures
        style_from(v.push(x), i, k) == if x.start <= i < x.end {
            x.style
        } else {
            style_from(v, i, k)
        },
    decreases v.len() - k,
{
    let w = v.push(x);
    if k < v.len() {
        assert(w[k] == v[k]);
        lemma_style_push(v, x, i, k + 1);
    } else {
        assert(w[k] == x);
        assert(style_from(w, i, k + 1) == plain());
    }
}

proof fn lemma_plain_past(v: Seq<StyleSpan>, i: int, k: int, n: int)
    requires
        ends_by(v, n),
        n <= i,
        0 <= k <= v.len(),
    ensures
        style_from(v, i, k) == plain(),
    decreases v.len() - k,
{
    if k < v.len() {
        lemma_plain_past(v, i, k + 1, n);
    }
}

/// Every styling of the first `n` bytes can be written down.
proof fn lemma_written(g: spec_fn(int) -> RunStyle, n: int) -> (r: Seq<StyleSpan>)
    requires
        0 <= n <= usize::MAX,
    ensures
        is_tidy(r),
        ends_by(r, n),
        forall|i: int| 0 <= i < n ==> #[trigger] style_of(r, i) == g(i),
    decreases n,
{
    if n == 0 {
        Seq::empty()
    } else {
        let v = lemma_written(g, n - 1);
        let st = g(n - 1);
        lemma_plain_past(v, n - 1, 0, n - 1);
        if st == plain() {
            v
        } else if v.len() > 0 && v.last().end == n - 1 && v.last().style == st {
            let u = v.drop_last();
            let x = StyleSpan { end: n as usize, ..v.last() };
            let r = u.push(x);
            assert(ends_by(u, x.start as int)) by {
                assert forall|k: int| 0 <= k < u.len() implies (#[trigger] u[k]).end <= x.start by {
                    assert(v[k].end <= v[v.len() - 1].start);
                }
            }
            assert(u.push(v.last()) =~= v);
            assert forall|i: int| 0 <= i < n implies #[trigger] style_of(r, i) == g(i) by {
                lemma_style_push(u, x, i, 0);
                lemma_style_push(u, v.last(), i, 0);
                if i < n - 1 {
                    assert(style_of(v, i) == g(i));
                }
            }
            assert forall|k: int| 0 <= k < r.len() implies (#[trigger] r[k]).start < r[k].end
                && r[k].style != plain() by {
                assert(v[k].start < v[k].end);
            }
            assert forall|j: int, k: int|
                #![trigger r[j], r[k]]
                0 <= j < k < r.len() implies r[j].end <= r[k].start && (r[j].end == r[k].start
                ==> r[j].style != r[k].style) by {
                assert(v[j].end <= v[k].start);
                assert(v[j].end == v[k].start ==> v[j].style != v[k].style);
            }
            r
        } else {
            let x = StyleSpan { start: (n - 1) as usize, end: n as usize, style: st };
            let r = v.push(x);
            assert forall|i: int| 0 <= i < n implies #[trigger] style_of(r, i) == g(i) by {
                lemma_style_push(v, x, i, 0);
                if i < n - 1 {
                    assert(style_of(v, i) == g(i));
                }
            }
            assert forall|j: int, k: int|
                #![trigger r[j], r[k]]
                0 <= j < k < r.len() implies r[j].end <= r[k].start && (r[j].end == r[k].start
                ==> r[j].style != r[k].style) by {
                assert(r[j] == v[j]);
                if k < v.len() {
                    assert(r[k] == v[k]);
                } else if j < v.len() - 1 {
                    assert(v[j].end <= v[v.len() - 1].start);
                }
            }
            r
        }
    }
}

proof fn lemma_change_written(v: Seq<StyleSpan>, s: int, e: int, c: Restyle)
    ensures
        is_changed(changed(v, s, e, c), v, s, e, c),
{
    let g = |i: int| changed_at(v, s, e, c, i);
    let r = lemma_written(g, usize::MAX as int);
    assert(is_changed(r, v, s, e, c)) by {
        assert forall|i: int| 0 <= i < usize::MAX implies #[trigger] style_of(r, i) == changed_at(
            v,
            s,
            e,
            c,
            i,
        ) by {
            assert(style_of(r, i) == g(i));
        }
    }
}

// --- Toggling ---

/// Whether a style has a format.
pub open spec fn has_format(st: RunStyle, f: Format) -> bool {
    match f {
        Format::Bold => st.bold,
        Format::Italic => st.italic,
        Format::Underline => st.underline,
        Format::Strike => st.strike,
    }
}

/// Whether `w` is `v` with a format turned on for the bytes from `s` to `e`, or
/// off where all of them had it: nothing else changes.
pub open spec fn is_toggled(
    v: Seq<StyleSpan>,
    w: Seq<StyleSpan>,
    s: int,
    e: int,
    f: Format,
) -> bool {
    let off = forall|i: int| s <= i < e ==> has_format(#[trigger] style_of(v, i), f);
    forall|i: int|
        0 <= i < usize::MAX ==> {
            let a = style_of(v, i);
            let b = #[trigger] style_of(w, i);
            if s <= i < e {
                &&& has_format(b, f) == !off
                &&& b.highlight == a.highlight
                &&& forall|g: Format| g != f ==> #[trigger] has_format(b, g) == has_format(a, g)
            } else {
                b == a
            }
        }
}

/// Whether `w` is `v` with the bytes from `s` to `e` in a highlight, or in none
/// where all of them were in it.
pub open spec fn is_relit(
    v: Seq<StyleSpan>,
    w: Seq<StyleSpan>,
    s: int,
    e: int,
    color: u32,
) -> bool {
    let off = forall|i: int| s <= i < e ==> (#[trigger] style_of(v, i)).highlight == Some(color);
    forall|i: int|
        0 <= i < usize::MAX ==> {
            let a = style_of(v, i);
            let b = #[trigger] style_of(w, i);
            if s <= i < e {
                &&& b.highlight == if off {
                    None
                } else {
                    Some(color)
                }
                &&& forall|g: Format| #[trigger] has_format(b, g) == has_format(a, g)
            } else {
                b == a
            }
        }
}

proof fn lemma_toggled(v: Seq<StyleSpan>, s: int, e: int, f: Format)
    requires
        0 <= s <= e <= usize::MAX,
    ensures
        is_toggled(v, changed(v, s, e, format_toggle(v, s, e, f)), s, e, f),
{
    let c = format_toggle(v, s, e, f);
    let w = changed(v, s, e, c);
    lemma_change_written(v, s, e, c);
    let off = forall|i: int| s <= i < e ==> has_format(#[trigger] style_of(v, i), f);
    assert(off == all_have(v, s, e, f)) by {
        if off {
            assert forall|i: int| s <= i < e implies bears(#[trigger] style_of(v, i), f) by {
                assert(has_format(style_of(v, i), f));
            }
        }
        if all_have(v, s, e, f) {
            assert forall|i: int| s <= i < e implies has_format(#[trigger] style_of(v, i), f) by {
                assert(bears(style_of(v, i), f));
            }
        }
    }
    assert forall|i: int| 0 <= i < usize::MAX implies {
        let a = style_of(v, i);
        let b = #[trigger] style_of(w, i);
        if s <= i < e {
            &&& has_format(b, f) == !off
            &&& b.highlight == a.highlight
            &&& forall|g: Format| g != f ==> #[trigger] has_format(b, g) == has_format(a, g)
        } else {
            b == a
        }
    } by {
        assert(style_of(w, i) == changed_at(v, s, e, c, i));
    }
}

proof fn lemma_relit(v: Seq<StyleSpan>, s: int, e: int, color: u32)
    requires
        0 <= s <= e <= usize::MAX,
    ensures
        is_relit(v, changed(v, s, e, highlight_toggle(v, s, e, color)), s, e, color),
{
    let c = highlight_toggle(v, s, e, color);
    let w = changed(v, s, e, c);
    lemma_change_written(v, s, e, c);
    let off = forall|i: int| s <= i < e ==> (#[trigger] style_of(v, i)).highlight == Some(color);
    assert(off == all_lit(v, s, e, Some(color)));
    assert forall|i: int| 0 <= i < usize::MAX implies {
        let a = style_of(v, i);
        let b = #[trigger] style_of(w, i);
        if s <= i < e {
            &&& b.highlight == if off {
                None
            } else {
                Some(color)
            }
            &&& forall|g: Format| #[trigger] has_format(b, g) == has_format(a, g)
        } else {
            b == a
        }
    } by {
        assert(style_of(w, i) == changed_at(v, s, e, c, i));
    }
}

/// Whether `r` is `b` with other styles on the first element of an id alone.
pub open spec fn only_styled(b: BoardState, r: BoardState, id: u64) -> bool {
    let v = b.scene.elements;
    let w = r.scene.elements;
    &&& w.len() == v.len()
    &&& forall|k: int|
        0 <= k < v.len() ==> if index_of(v, id) == Some(k) {
            #[trigger] w[k] == (Item { styles: w[k].styles, ..v[k] })
        } else {
            w[k] == v[k]
        }
    &&& r.ui.edit == b.ui.edit
    &&& r.selected == b.selected
    &&& r.history == b.history
}

/// Applying a format to selected text toggles it there: the selected characters
/// all have it then, or none has it where all had. Everything else stays.
pub proof fn law_a_format_is_toggled(b: BoardState, f: Format, id: u64, x: Item)
    requires
        b.ui.edit.editing == Some(id),
        item_of(b.scene.elements, id) == Some(x),
        b.ui.edit.caret != b.ui.edit.sel_anchor,
    ensures
        ({
            let d = b.ui.edit;
            let s = if d.caret < d.sel_anchor {
                d.caret
            } else {
                d.sel_anchor
            };
            let e = if d.caret < d.sel_anchor {
                d.sel_anchor
            } else {
                d.caret
            };
            let r = format_applied(b, f);
            let k = index_of(b.scene.elements, id)->0;
            &&& only_styled(b, r, id)
            &&& is_toggled(x.styles, r.scene.elements[k].styles, s as int, e as int, f)
        }),
{
    let r = crate::editing::range_of(b.ui.edit);
    lemma_index_from(b.scene.elements, id, 0);
    lemma_toggled(x.styles, r.0 as int, r.1 as int, f);
}

/// Highlighting selected text does the same with a colour.
pub proof fn law_a_highlight_is_toggled(b: BoardState, color: u32, id: u64, x: Item)
    requires
        b.ui.edit.editing == Some(id),
        item_of(b.scene.elements, id) == Some(x),
        b.ui.edit.caret != b.ui.edit.sel_anchor,
    ensures
        ({
            let d = b.ui.edit;
            let s = if d.caret < d.sel_anchor {
                d.caret
            } else {
                d.sel_anchor
            };
            let e = if d.caret < d.sel_anchor {
                d.sel_anchor
            } else {
                d.caret
            };
            let r = highlight_applied(b, color);
            let k = index_of(b.scene.elements, id)->0;
            &&& only_styled(b, r, id)
            &&& is_relit(x.styles, r.scene.elements[k].styles, s as int, e as int, color)
        }),
{
    let r = crate::editing::range_of(b.ui.edit);
    lemma_index_from(b.scene.elements, id, 0);
    lemma_relit(x.styles, r.0 as int, r.1 as int, color);
}

/// Without a selection a format is toggled for the text that is typed next, and
/// the scene stays.
pub proof fn law_a_format_for_the_next_text(b: BoardState, f: Format, id: u64, st: RunStyle)
    requires
        b.ui.edit.editing == Some(id),
        b.ui.edit.caret == b.ui.edit.sel_anchor,
        b.ui.edit.pending_style == Some(st),
    ensures
        ({
            let r = format_applied(b, f);
            &&& r.scene == b.scene
            &&& r.ui.edit.pending_style matches Some(n) && has_format(n, f) != has_format(st, f)
                && n.highlight == st.highlight && forall|g: Format|
                g != f ==> #[trigger] has_format(n, g) == has_format(st, g)
        }),
{
}

/// With the command modifier B, I and U toggle bold, italic and underlined text,
/// and with Shift X and H toggle struck and highlighted text.
pub proof fn law_format_keys(b: BoardState, k: KeyView, id: u64, c: Seq<char>, i: int, j: int)
    requires
        is_editing(b, id, c, i, j),
        is_command(k),
        !k.composing,
    ensures
        k.key == "b"@ ==> key_pressed(b, k).0 == format_applied(b, Format::Bold),
        k.key == "i"@ ==> key_pressed(b, k).0 == format_applied(b, Format::Italic),
        k.key == "u"@ ==> key_pressed(b, k).0 == format_applied(b, Format::Underline),
        k.key == "x"@ && k.shift ==> key_pressed(b, k).0 == format_applied(b, Format::Strike),
        k.key == "h"@ && k.shift ==> key_pressed(b, k).0 == highlight_applied(b, 0xffe06680),
{
    crate::text_key_laws::lemma_names();
    lemma_settled(b, id, c, i, j);
    if k.key == "b"@ {
        assert(k.key[0] == 'b');
    }
    if k.key == "i"@ {
        assert(k.key[0] == 'i');
    }
    if k.key == "u"@ {
        assert(k.key[0] == 'u');
    }
    if k.key == "x"@ {
        assert(k.key[0] == 'x');
    }
    if k.key == "h"@ {
        assert(k.key[0] == 'h');
    }
}

} // verus!
