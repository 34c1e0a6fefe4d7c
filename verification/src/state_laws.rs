//! How a board begins, and what small steps change of it and of a document.
use crate::alerts::{fold_char, marker, prefix_at, AlertKind};
use crate::appearance_laws::lemma_fresh;
use crate::board::{closed_ui, flushed, is_fresh, BoardState, Edit};
use crate::caret::{floor_of, lemma_floor_of};
use crate::editing::{caret_moved, with_caret};
use crate::find::visible;
use crate::form_laws::{is_numbered, lemma_set_object};
use crate::inline::with_nodes;
use crate::inline_laws::{is_plain, law_plain_text_is_shown};
use crate::links::{tag_char, wiki_display, wiki_target, word_char};
use crate::math::{embedded, fence_words};
use crate::math_laws::{
    is_gap, is_prose, is_tight, lacks, lemma_closer_line, lemma_embedded, lemma_opener, math_line,
};
use crate::mindmap::{children, meta_of, slot_for};
use crate::pdf::{
    added, as_dict, dict_get, dict_in, entry_set, law_set_then_get, object_at, ObjId, PdfView, Val,
};
use crate::scene::{Item, MindMapSide};
use crate::source_laws::{lemma_fold_char, lemma_kind};
use crate::text;
use crate::text::{is_space, on_boundary, trim};
use crate::theme::{alert_icon, AlertIcons};
use crate::tools::Tool;
use crate::tree::{Kind, Tree};
use vstd::prelude::*;

verus! {

// --- Boards ---

/// A board that was just opened is looked at: it is moved by a drag, nothing of
/// it is edited, dragged or open, and there is nothing to save. Its next id is
/// above all that are in use.
pub proof fn law_a_new_board_is_at_rest(v: Seq<Item>, n: int, i: int)
    requires
        is_fresh(v, n),
        0 <= i < v.len(),
    ensures
        closed_ui().tool == Tool::Pan,
        !closed_ui().read_only && !closed_ui().dirty,
        closed_ui().edit.editing is None,
        ({
            let d = closed_ui().drag;
            &&& d.pending is None && d.connecting is None && d.resizing is None
            &&& d.group_resizing is None && d.endpoint is None && d.picker is None
            &&& !d.moving && !d.rotating && !d.marquee && !d.panning && !d.toolbar
        }),
        ({
            let p = closed_ui().pop;
            &&& p.picker is None && p.open_group is None
            &&& !p.width_open && !p.font_open && !p.templates_open && !p.context_menu
            &&& !p.format_flyout
        }),
        v[i].id < n,
{
}

/// Telling the host of changes keeps the board and leaves nothing to tell.
pub proof fn law_flushing_keeps_the_board(b: BoardState)
    ensures
        flushed(b).scene == b.scene,
        flushed(b).selected == b.selected,
        flushed(b).history == b.history,
        flushed(b).redo == b.redo,
        !flushed(b).ui.dirty,
        flushed(b).ui.tool == b.ui.tool,
        flushed(b).ui.edit == b.ui.edit,
        flushed(flushed(b)) == flushed(b),
{
}

/// Moving the caret drops the selection, or extends it to the caret, and drops
/// the style that waited for the next text.
pub proof fn law_the_caret_is_moved(b: BoardState, d: Edit, to: usize)
    ensures
        with_caret(b, to as int, false).ui.edit.caret == to,
        with_caret(b, to as int, false).ui.edit.sel_anchor == to,
        with_caret(b, to as int, true).ui.edit.caret == to,
        with_caret(b, to as int, true).ui.edit.sel_anchor == b.ui.edit.sel_anchor,
        with_caret(b, to as int, true).scene == b.scene,
        caret_moved(d, to, true).pending_style is None,
        caret_moved(d, to, true).editing == d.editing,
{
}

/// A node that is added under another becomes its last child on its side; one
/// that is added beside another comes right behind it, and beside a root it
/// becomes the last child on the right.
pub proof fn law_a_new_node_has_its_place(v: Seq<Item>, source: u64)
    ensures
        meta_of(v, source) is None ==> slot_for(v, source, true) is None && slot_for(
            v,
            source,
            false,
        ) is None,
        meta_of(v, source) matches Some(m) ==> {
            &&& slot_for(v, source, false) == Some(
                (source, m.side, children(v, source, m.side).len() as int),
            )
            &&& m.parent matches Some(p) ==> slot_for(v, source, true) == Some(
                (p, m.side, m.order + 1),
            )
            &&& m.parent is None ==> slot_for(v, source, true) == Some(
                (
                    source,
                    MindMapSide::Right,
                    children(v, source, MindMapSide::Right).len() as int,
                ),
            )
        },
{
}

// --- Text ---

/// A place inside a character is led back to its start.
pub proof fn law_a_place_is_led_back_to_a_boundary(s: Seq<char>, b: int)
    requires
        0 <= b,
    ensures
        on_boundary(s, floor_of(s, b)),
        floor_of(s, b) <= b,
        on_boundary(s, b) ==> floor_of(s, b) == b,
        forall|x: int| #[trigger] on_boundary(s, x) && x <= b ==> x <= floor_of(s, b),
{
    lemma_floor_of(s, b);
}

/// Plain text is visible as it stands.
pub proof fn law_plain_text_is_visible(t: Tree, v: Seq<char>)
    requires
        t.kind == Kind::Text(v),
        is_plain(v),
        v.len() > 0,
    ensures
        visible(seq![t]) == v,
{
    let nodes = seq![t];
    law_plain_text_is_shown(
        crate::inline::nothing(),
        t,
        v,
        crate::inline::plain_style(),
        crate::find::bare(),
    );
    reveal_with_fuel(with_nodes, 2);
    assert(nodes[0] == t);
    assert(Seq::<char>::empty() + v =~= v);
}

/// Inside a link to a page the name stands before a bar and the label behind it;
/// without a bar, or without a label, the name is the label.
pub proof fn law_a_link_has_a_name_and_a_label(name: Seq<char>, label: Seq<char>)
    requires
        is_tight(name),
        lacks(name, '|'),
    ensures
        wiki_target(name) == name,
        wiki_display(name) == name,
        wiki_target(name + seq!['|'] + label) == name,
        trim(label).len() > 0 ==> wiki_display(name + seq!['|'] + label) == trim(label),
        trim(label).len() == 0 ==> wiki_display(name + seq!['|'] + label) == name,
{
    text::lemma_trim_between(name, 0, name.len() as int);
    assert(name.subrange(0, name.len() as int) =~= name);
    text::lemma_index_of(name, '|', 0);
    let inner = name + seq!['|'] + label;
    let n = name.len() as int;
    assert(inner[n] == '|');
    text::lemma_index_of(inner, '|', 0);
    match text::index_of(inner, '|', 0) {
        Some(k) => {
            if k < n {
                assert(inner[k] == name[k]);
            }
        },
        None => {},
    }
    assert(inner.take(n) =~= name);
    assert(inner.skip(n + 1) =~= label);
}

/// Words with signs behind them open math, words with signs before them close
/// it, and words round a pair hold it.
pub proof fn law_math_beside_words_is_seen(
    words: Seq<char>,
    gap: Seq<char>,
    body: Seq<char>,
    gap2: Seq<char>,
    rest: Seq<char>,
)
    requires
        is_prose(words),
        is_gap(gap),
        is_tight(body),
        lacks(body, '$'),
        is_gap(gap2),
        is_tight(rest),
        lacks(rest, '$'),
    ensures
        fence_words(words + gap + seq!['$', '$']) == Some(true),
        fence_words(seq!['$', '$'] + rest) == Some(false),
        embedded(math_line(words, gap, body, gap2, rest)) == Some(
            (
                (words.len() + gap.len()) as int,
                (words.len() + gap.len() + 4 + body.len()) as int,
            ),
        ),
{
    lemma_opener(words, gap);
    lemma_closer_line(rest);
    let line = seq!['$', '$'] + rest;
    assert(line.last() == rest.last() && line[0] == '$');
    assert(!is_space(line[0]));
    text::lemma_trim_between(line, 0, line.len() as int);
    assert(line.subrange(0, line.len() as int) =~= line);
    assert(line.len() > crate::math::dollars().len());
    lemma_embedded(words, gap, body, gap2, rest);
}

/// Which characters make a tag, and which a word.
pub proof fn law_tag_and_word_characters(c: char)
    ensures
        tag_char(c) <==> text::is_letter(c) || text::is_digit(c) || c == '_' || c == '-' || c == '/',
        word_char(c) <==> text::is_letter(c) || text::is_digit(c) || c == '_',
{
}

// --- Callouts ---

/// The fold sign of a callout is the one behind its marker, and says whether it
/// is folded; gaps before the marker do not matter.
pub proof fn law_the_fold_sign_is_behind_the_marker(
    quote: Seq<char>,
    kind: AlertKind,
    c: char,
    rest: Seq<char>,
)
    requires
        forall|j: int| 0 <= j < quote.len() ==> #[trigger] quote[j] == '>' || quote[j] == ' ',
        c == '-' || c == '+',
        rest.len() == 0 || rest[0] == ' ',
    ensures
        fold_char(quote + marker(kind) + seq![c] + rest) == Some(
            ((quote.len() + marker(kind).len()) as int, c == '-'),
        ),
        prefix_at(marker(kind) + seq![' '] + rest) matches Some(m) && m.kind == kind && m.fold
            is None,
{
    lemma_fold_char(quote, kind, marker(kind), c, rest);
    let s = marker(kind) + seq![' '] + rest;
    lemma_kind(kind, seq![' '] + rest);
    assert(s =~= marker(kind) + (seq![' '] + rest));
    assert(s[0] == marker(kind)[0]);
    assert(!is_space(s[0]));
    assert(text::space_end(s, 0) == 0);
    assert(s[marker(kind).len() as int] == ' ');
}

/// A callout has the icon of its kind.
pub proof fn law_callouts_have_their_icons(i: AlertIcons)
    ensures
        alert_icon(AlertKind::Note, i) == i.note@,
        alert_icon(AlertKind::Tip, i) == i.tip@,
        alert_icon(AlertKind::Important, i) == i.important@,
        alert_icon(AlertKind::Warning, i) == i.warning@,
        alert_icon(AlertKind::Caution, i) == i.caution@,
{
}

// --- Documents ---

/// An object that is added is found under the number it is given, and every
/// other object as before.
pub proof fn law_an_added_object_is_found(p: PdfView, v: Val, id: ObjId)
    requires
        is_numbered(p),
        p.max_id < u32::MAX,
        !(v is Ref),
        object_at(p, id) is Some,
    ensures
        ({
            let (q, x) = added(p, v);
            &&& x is Some
            &&& object_at(q, x->0) == Some(v)
            &&& object_at(q, id) == object_at(p, id)
        }),
{
    lemma_fresh(p, v);
    crate::form_laws::lemma_added(p, v, id);
}

/// An entry that is set in a dictionary of a document is found there.
pub proof fn law_a_set_entry_is_found(p: PdfView, id: ObjId, key: Seq<char>, v: Val)
    requires
        as_dict(object_at(p, id)) is Some,
    ensures
        ({
            let (q, ok) = entry_set(p, id, key, v);
            &&& ok
            &&& as_dict(object_at(q, id)) is Some
            &&& dict_get(as_dict(object_at(q, id))->0, key) == Some(v)
        }),
        as_dict(object_at(p, id)) matches Some(d) ==> (dict_get(d, key) matches Some(Val::Dict(e))
            ==> dict_in(p, d, key) == Some(e)),
{
    lemma_set_object(p, id, key, v, id);
    law_set_then_get(as_dict(object_at(p, id))->0, key, v, key);
}

} // verus!
