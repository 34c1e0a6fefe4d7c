//! What the controls of a board show and do, told by the state that they show.
use crate::board::{BoardState, Edit, PickerTarget, Ui};
use crate::caret::{floor_from, word_end, word_start};
use crate::controls::{
    format_key, panels_of, reset_label, row_key, selected_root, toolbar_of, Button, FormatRow,
    MenuRow,
};
use crate::drags::{can_hover, hover_at, is_busy};
use crate::editing::{
    caret_placed, composed, edit_begun, range_of, replaced, style_selected,
};
use crate::form_edits::rects_upto;
use crate::forms::{is_widget, rect_at};
use crate::images::{below_image, lead_image, pictures_in, pictures_upto, text_node, Picture};
use crate::mindmap::{link_style, meta_of, root_of};
use crate::pdf::{as_dict, PdfView};
use crate::press::connector_hit;
use crate::scene::{ElementKind, MindMapConnectorStyle, MindMapRootDirection, Segment};
use crate::styles::{plain, shared_style, Format};
use crate::text;
use crate::text::{blen, offset};
use crate::theme::{alert_color, ink_color, AlertColors, MarkdownStyle};
use crate::tools::Tool;
use crate::tree::{Kind, Tree};
use vstd::prelude::*;

verus! {

// --- The toolbar ---

proof fn lemma_ends(head: Seq<Button>, middle: Seq<Button>, tail: Seq<Button>, x: Button)
    ensures
        head.contains(x) || middle.contains(x) || tail.contains(x) ==> (head + middle
            + tail).contains(x),
{
    let all = head + middle + tail;
    if head.contains(x) {
        let k = choose|k: int| 0 <= k < head.len() && head[k] == x;
        assert(all[k] == x);
    } else if middle.contains(x) {
        let k = choose|k: int| 0 <= k < middle.len() && middle[k] == x;
        assert(all[head.len() + k] == x);
    } else if tail.contains(x) {
        let k = choose|k: int| 0 <= k < tail.len() && tail[k] == x;
        assert(all[head.len() + middle.len() + k] == x);
    }
}

/// The toolbar always has the tools to move the canvas and to select, marked
/// where they are in use, and ends with the buttons to go back, go forth and
/// delete. While the root of a mind map is all that is selected it has a button
/// for each direction and each kind of link, marked where the map has it.
pub proof fn law_the_toolbar_shows_the_state(
    b: BoardState,
    has_fonts: bool,
    root: u64,
    d: MindMapRootDirection,
    s: MindMapConnectorStyle,
)
    ensures
        ({
            let v = toolbar_of(b, has_fonts);
            let n = v.len() as int;
            &&& v.contains(Button::Tool(Tool::Pan, b.ui.tool == Tool::Pan))
            &&& v.contains(Button::Tool(Tool::Select, b.ui.tool == Tool::Select))
            &&& n >= 3 && v[n - 3] is Undo && v[n - 2] is Redo && v[n - 1] is Delete
            &&& b.selected == seq![root] && meta_of(b.scene.elements, root) is Some && meta_of(
                b.scene.elements,
                root,
            )->0.parent is None ==> v.contains(
                Button::Direction(d, meta_of(b.scene.elements, root)->0.root_direction == d),
            ) && v.contains(
                Button::Connector(s, meta_of(b.scene.elements, root)->0.connector_style == s),
            )
            &&& b.selected.len() != 1 ==> v.contains(Button::Tool(Tool::Text, b.ui.tool == Tool::Text))
                && v.contains(Button::Width(b.ui.pop.width_open)) && v.contains(
                Button::Color(b.ui.pop.picker is Some),
            ) && v.contains(Button::Templates(b.ui.pop.templates_open))
            &&& b.selected.len() != 1 && has_fonts ==> v.contains(Button::Font(b.ui.pop.font_open))
            &&& b.selected.len() != 1 && b.ui.edit.editing is Some ==> v.contains(
                Button::Format(b.ui.pop.format_flyout),
            )
        }),
{
    let v = toolbar_of(b, has_fonts);
    let head = seq![
        Button::Grip,
        Button::Divider,
        crate::controls::tool_button(b.ui, Tool::Pan),
        crate::controls::tool_button(b.ui, Tool::Select),
    ];
    let middle = match selected_root(b) {
        Some(r) => crate::controls::root_buttons(b, r),
        None => crate::controls::drawing_buttons(b.ui, has_fonts),
    };
    let tail = seq![Button::Divider, Button::Undo, Button::Redo, Button::Delete];
    assert(v == head + middle + tail);
    assert(head[2] == Button::Tool(Tool::Pan, b.ui.tool == Tool::Pan));
    assert(head[3] == Button::Tool(Tool::Select, b.ui.tool == Tool::Select));
    lemma_ends(head, middle, tail, head[2]);
    lemma_ends(head, middle, tail, head[3]);
    if b.selected == seq![root] && meta_of(b.scene.elements, root) is Some && meta_of(
        b.scene.elements,
        root,
    )->0.parent is None {
        assert(b.selected[0] == root);
        let m = meta_of(b.scene.elements, root)->0;
        let k = match d {
            MindMapRootDirection::Both => 2int,
            MindMapRootDirection::Right => 3int,
            MindMapRootDirection::Left => 4int,
        };
        assert(middle[k] == Button::Direction(d, m.root_direction == d));
        lemma_ends(head, middle, tail, middle[k]);
        let j = match s {
            MindMapConnectorStyle::Straight => 7int,
            MindMapConnectorStyle::Bezier => 8int,
            MindMapConnectorStyle::Orthogonal => 9int,
        };
        assert(middle[j] == Button::Connector(s, m.connector_style == s));
        lemma_ends(head, middle, tail, middle[j]);
    }
    if b.selected.len() != 1 {
        let n = middle.len() as int;
        assert(middle[0] == Button::Color(b.ui.pop.picker is Some));
        assert(middle[1] == Button::Width(b.ui.pop.width_open));
        assert(middle[n - 3] == Button::Tool(Tool::Text, b.ui.tool == Tool::Text));
        assert(middle[n - 1] == Button::Templates(b.ui.pop.templates_open));
        lemma_ends(head, middle, tail, middle[0]);
        lemma_ends(head, middle, tail, middle[1]);
        lemma_ends(head, middle, tail, middle[n - 3]);
        lemma_ends(head, middle, tail, middle[n - 1]);
        if has_fonts {
            assert(middle[2] == Button::Font(b.ui.pop.font_open));
            lemma_ends(head, middle, tail, middle[2]);
        }
        if b.ui.edit.editing is Some {
            let k = if has_fonts {
                3int
            } else {
                2int
            };
            assert(middle[k] == Button::Format(b.ui.pop.format_flyout));
            lemma_ends(head, middle, tail, middle[k]);
        }
    }
}

/// A panel is shown while it is open, and those for text only while text is
/// edited.
pub proof fn law_open_panels_are_shown(u: Ui, has_fonts: bool)
    ensures
        ({
            let p = panels_of(u, has_fonts);
            &&& p.flyout == u.pop.open_group
            &&& p.width == u.pop.width_open
            &&& p.picker == u.pop.picker
            &&& p.templates == u.pop.templates_open
            &&& p.menu == u.pop.context_menu
            &&& p.font <==> u.pop.font_open && has_fonts
            &&& p.format <==> u.pop.format_flyout && u.edit.editing is Some
            &&& p.text_submenu <==> u.pop.context_menu && u.pop.ctx_text_sub && u.edit.editing
                is Some
        }),
{
}

/// The keys beside the rows of the menus.
pub proof fn law_rows_show_their_keys()
    ensures
        row_key(MenuRow::Copy) == seq!['⌘', 'C'],
        row_key(MenuRow::Cut) == seq!['⌘', 'X'],
        row_key(MenuRow::Paste) == seq!['⌘', 'V'],
        row_key(MenuRow::Front) == seq!['⌘', '⇧', ']'],
        row_key(MenuRow::Forward) == seq!['⌘', ']'],
        row_key(MenuRow::Backward) == seq!['⌘', '['],
        row_key(MenuRow::Back) == seq!['⌘', '⇧', '['],
        format_key(FormatRow::Toggle(Format::Bold)) == seq!['⌘', 'B'],
        format_key(FormatRow::Toggle(Format::Italic)) == seq!['⌘', 'I'],
        format_key(FormatRow::Toggle(Format::Underline)) == seq!['⌘', 'U'],
        format_key(FormatRow::Toggle(Format::Strike)) == seq!['⇧', '⌘', 'X'],
        format_key(FormatRow::Highlight) == seq!['⇧', '⌘', 'H'],
        reset_label(PickerTarget::Fill) == seq!['N', 'o', 'n', 'e'],
{
    reveal_strlit("⌘C");
    reveal_strlit("⌘X");
    reveal_strlit("⌘V");
    reveal_strlit("⌘⇧]");
    reveal_strlit("⌘]");
    reveal_strlit("⌘[");
    reveal_strlit("⌘⇧[");
    reveal_strlit("⌘B");
    reveal_strlit("⌘I");
    reveal_strlit("⌘U");
    reveal_strlit("⇧⌘X");
    reveal_strlit("⇧⌘H");
    reveal_strlit("None");
    assert("⌘C"@ =~= seq!['⌘', 'C']);
    assert("⌘X"@ =~= seq!['⌘', 'X']);
    assert("⌘V"@ =~= seq!['⌘', 'V']);
    assert("⌘⇧]"@ =~= seq!['⌘', '⇧', ']']);
    assert("⌘]"@ =~= seq!['⌘', ']']);
    assert("⌘["@ =~= seq!['⌘', '[']);
    assert("⌘⇧["@ =~= seq!['⌘', '⇧', '[']);
    assert("⌘B"@ =~= seq!['⌘', 'B']);
    assert("⌘I"@ =~= seq!['⌘', 'I']);
    assert("⌘U"@ =~= seq!['⌘', 'U']);
    assert("⇧⌘X"@ =~= seq!['⇧', '⌘', 'X']);
    assert("⇧⌘H"@ =~= seq!['⇧', '⌘', 'H']);
    assert("None"@ =~= seq!['N', 'o', 'n', 'e']);
}

// --- The pointer ---

/// A button to draw lines from is hovered only with the tool that selects, and
/// while nothing is dragged or edited.
pub proof fn law_nothing_is_hovered_meanwhile(b: BoardState, button: Option<usize>)
    ensures
        b.ui.tool != Tool::Select || b.ui.edit.editing is Some || b.ui.drag.connecting is Some
            || b.ui.drag.pending is Some || b.ui.drag.moving || b.ui.drag.rotating
            || b.ui.drag.marquee || b.ui.drag.resizing is Some || b.ui.drag.group_resizing is Some
            || b.ui.drag.endpoint is Some ==> hover_at(b, button) is None,
        can_hover(b) ==> !(b.ui.drag.moving || b.ui.drag.rotating || b.ui.drag.marquee),
        can_hover(b) ==> hover_at(b, button) == connector_hit(b, button),
        hover_at(b, button) is Some ==> b.selected == seq![hover_at(b, button)->0.id] && button
            == Some(hover_at(b, button)->0.index),
        is_busy(b.ui.drag) && b.ui.drag.picker is None ==> hover_at(b, button) is None,
{
    if hover_at(b, button) is Some {
        assert(b.selected =~= seq![hover_at(b, button)->0.id]);
    }
}

// --- Text ---

/// A click puts the caret where it is and drops the selection, or extends it
/// with the shift key; a double click selects the whole word.
pub proof fn law_a_click_puts_the_caret(d: Edit, c: Seq<char>, idx: usize, shift: bool)
    requires
        blen(c) <= usize::MAX,
    ensures
        caret_placed(d, c, idx, false, shift).caret == idx,
        !shift ==> caret_placed(d, c, idx, false, shift).sel_anchor == idx,
        shift ==> caret_placed(d, c, idx, false, shift).sel_anchor == d.sel_anchor,
        ({
            let i = floor_from(c, idx as int, c.len() as int);
            let e = caret_placed(d, c, idx, true, shift);
            &&& e.sel_anchor == offset(c, word_start(c, i))
            &&& e.caret == offset(c, word_end(c, i))
            &&& !e.text_selecting
        }),
        caret_placed(d, c, idx, false, shift).editing == d.editing,
        caret_placed(d, c, idx, true, shift).editing == d.editing,
{
    let i = floor_from(c, idx as int, c.len() as int);
    lemma_floor_in(c, idx as int, c.len() as int);
    crate::find_laws::law_a_word_is_whole(c, i);
    text::lemma_offset_mono(c, word_start(c, i), c.len() as int);
    text::lemma_offset_mono(c, word_end(c, i), c.len() as int);
    text::lemma_offset_end(c);
}

proof fn lemma_floor_in(c: Seq<char>, b: int, i: int)
    requires
        0 <= i <= c.len(),
    ensures
        0 <= floor_from(c, b, i) <= i,
    decreases i,
{
    if i > 0 && offset(c, i) > b {
        lemma_floor_in(c, b, i - 1);
    }
}

/// Composed text stands where the caret was, is marked while it is composed, and
/// has the caret behind it.
pub proof fn law_composed_text_is_marked(
    b: BoardState,
    id: u64,
    s: int,
    e: int,
    text: Seq<char>,
    mark: bool,
)
    requires
        0 <= s,
        s + blen(text) <= usize::MAX,
    ensures
        ({
            let r = composed(b, id, s, e, text, None, mark);
            let d = r.ui.edit;
            &&& r.scene == replaced(b, id, s, e, text).scene
            &&& d.caret == s + blen(text)
            &&& d.sel_anchor == d.caret
            &&& mark && text.len() > 0 ==> d.marked_range is Some && d.marked_range->0.start == s
                && d.marked_range->0.end == d.caret
            &&& !mark || text.len() == 0 ==> d.marked_range is None
        }),
{
}

/// Editing begins with the caret where it is put and nothing selected; the ends
/// of a selection come in order.
pub proof fn law_editing_begins_with_nothing_selected(u: Ui, id: u64, at: usize, d: Edit)
    ensures
        edit_begun(u, id, at).edit.editing == Some(id),
        edit_begun(u, id, at).edit.caret == at,
        edit_begun(u, id, at).edit.sel_anchor == at,
        edit_begun(u, id, at).tool == u.tool,
        range_of(edit_begun(u, id, at).edit) == (at, at),
        range_of(d).0 <= range_of(d).1,
        range_of(d) == (d.caret, d.sel_anchor) || range_of(d) == (d.sel_anchor, d.caret),
{
}

/// The style that the controls show: none while nothing is edited, the one that
/// waits for the next text where nothing is selected, and else what the selected
/// text shares.
pub proof fn law_the_controls_show_the_style(b: BoardState, id: u64, i: int)
    requires
        0 <= i < b.scene.elements.len(),
        crate::scene::item_of(b.scene.elements, id) == Some(b.scene.elements[i]),
    ensures
        b.ui.edit.editing is None ==> style_selected(b) == plain(),
        b.ui.edit.editing == Some(id) && b.ui.edit.caret == b.ui.edit.sel_anchor
            && b.ui.edit.pending_style is Some ==> style_selected(b) == b.ui.edit.pending_style->0,
        b.ui.edit.editing == Some(id) && b.ui.edit.caret < b.ui.edit.sel_anchor ==> style_selected(b)
            == shared_style(
            b.scene.elements[i].styles,
            b.ui.edit.caret as int,
            b.ui.edit.sel_anchor as int,
        ),
        b.ui.edit.editing == Some(id) && b.ui.edit.caret > b.ui.edit.sel_anchor ==> style_selected(b)
            == shared_style(
            b.scene.elements[i].styles,
            b.ui.edit.sel_anchor as int,
            b.ui.edit.caret as int,
        ),
{
}

// --- Links of a mind map ---

/// A line between two nodes of one mind map is drawn as that map's root says;
/// any other line is drawn as a line.
pub proof fn law_a_link_is_drawn_as_its_map_says(b: BoardState, s: Segment, x: u64, y: u64, root: u64)
    requires
        s.start_anchor is Some && s.start_anchor->0.element_id == x,
        s.end_anchor is Some && s.end_anchor->0.element_id == y,
    ensures
        ({
            let v = b.scene.elements;
            let line = link_style(v, ElementKind::Line(s));
            let arrow = link_style(v, ElementKind::Arrow(s));
            &&& root_of(v, x) == Some(root) && root_of(v, y) == Some(root) && meta_of(v, root)
                is Some ==> line == Some(meta_of(v, root)->0.connector_style) && arrow == line
            &&& root_of(v, x) is None || root_of(v, x) != root_of(v, y) ==> line is None
                && arrow is None
            &&& link_style(v, ElementKind::Line(Segment { start_anchor: None, ..s })) is None
            &&& link_style(v, ElementKind::Line(Segment { end_anchor: None, ..s })) is None
        }),
{
}

// --- Images ---

/// The image that leads a paragraph is listed, and those of the items of a list;
/// what stands behind a leading image is shown below it without the gap.
pub proof fn law_leading_images_are_listed(n: Tree, i: int, p: Picture, words: Seq<char>)
    requires
        0 <= i < n.children.len(),
    ensures
        n.kind is Paragraph && lead_image(n.children) == Some(p) ==> pictures_in(n) == seq![p],
        n.kind is Paragraph && lead_image(n.children) is None ==> pictures_in(n).len() == 0,
        (n.kind is List || n.kind is ListItem) && pictures_in(n.children[i]).contains(p)
            ==> pictures_in(n).contains(p),
        n.children.len() == 2 && n.children[0].kind is Image && n.children[1].kind == Kind::Text(
            words,
        ) && text::trim_start(words).len() > 0 ==> below_image(n.children, false) == seq![
            text_node(text::trim_start(words)),
        ],
{
    if (n.kind is List || n.kind is ListItem) && pictures_in(n.children[i]).contains(p) {
        lemma_pictures(n.children, n.children.len() as int, i, p);
    }
    if n.children.len() == 2 {
        assert(n.children.skip(2) =~= Seq::<Tree>::empty());
        let one = seq![text_node(text::trim_start(words))];
        assert(one + n.children.skip(2) =~= one);
    }
}

proof fn lemma_pictures(nodes: Seq<Tree>, k: int, i: int, p: Picture)
    requires
        0 <= i < k <= nodes.len(),
        pictures_in(nodes[i]).contains(p),
    ensures
        pictures_upto(nodes, k).contains(p),
    decreases k,
{
    let before = pictures_upto(nodes, k - 1);
    let own = pictures_in(nodes[k - 1]);
    if i == k - 1 {
        let j = choose|j: int| 0 <= j < own.len() && own[j] == p;
        assert((before + own)[before.len() + j] == p);
    } else {
        lemma_pictures(nodes, k - 1, i, p);
        let j = choose|j: int| 0 <= j < before.len() && before[j] == p;
        assert((before + own)[j] == p);
    }
}

// --- Widgets ---

/// Every widget of a form that has a rectangle is listed with it, and nothing
/// else is.
pub proof fn law_widgets_are_listed_with_their_rectangles(p: PdfView, n: int, k: int)
    requires
        0 <= k < n <= p.objects.len(),
    ensures
        ({
            let (id, v) = p.objects[k];
            let d = as_dict(Some(v));
            d is Some && is_widget(d->0) && rect_at(p, d->0) is Some ==> rects_upto(p, n).contains(
                (id, rect_at(p, d->0)->0),
            )
        }),
        forall|j: int|
            0 <= j < rects_upto(p, n).len() ==> exists|m: int|
                0 <= m < n && p.objects[m].0 == (#[trigger] rects_upto(p, n)[j]).0 && as_dict(
                    Some((#[trigger] p.objects[m]).1),
                ) is Some && is_widget(as_dict(Some(p.objects[m].1))->0),
    decreases n,
{
    let before = rects_upto(p, n - 1);
    let all = rects_upto(p, n);
    if k < n - 1 {
        law_widgets_are_listed_with_their_rectangles(p, n - 1, k);
        let (id, v) = p.objects[k];
        let d = as_dict(Some(v));
        if d is Some && is_widget(d->0) && rect_at(p, d->0) is Some {
            let x = (id, rect_at(p, d->0)->0);
            let j = choose|j: int| 0 <= j < before.len() && before[j] == x;
            assert(all[j] == x);
        }
    } else {
        if n > 1 {
            law_widgets_are_listed_with_their_rectangles(p, n - 1, 0);
        }
        if all.len() > before.len() {
            assert(all.last() == all[all.len() - 1]);
        }
    }
    assert forall|j: int| 0 <= j < all.len() implies exists|m: int|
        0 <= m < n && p.objects[m].0 == (#[trigger] all[j]).0 && as_dict(
            Some((#[trigger] p.objects[m]).1),
        ) is Some && is_widget(as_dict(Some(p.objects[m].1))->0) by {
        if j < before.len() {
            assert(all[j] == before[j]);
        } else {
            assert(p.objects[n - 1].0 == all[j].0);
        }
    }
}

// --- Looks ---

/// A role has the colour that the style gives it, a callout that of its kind.
pub proof fn law_roles_have_their_colours(s: MarkdownStyle, c: AlertColors)
    ensures
        ink_color(crate::inline::Ink::Link, s) == s.link,
        ink_color(crate::inline::Ink::Tag, s) == s.tag,
        ink_color(crate::inline::Ink::Code, s) == s.code,
        ink_color(crate::inline::Ink::Muted, s) == s.muted,
        ink_color(crate::inline::Ink::CodeBackground, s) == s.code_bg,
        ink_color(crate::inline::Ink::Mark, s) == s.mark_bg,
        ink_color(crate::inline::Ink::Match, s) == s.search_bg,
        ink_color(crate::inline::Ink::CurrentMatch, s) == s.search_current_bg,
        alert_color(crate::alerts::AlertKind::Note, c) == c.note,
        alert_color(crate::alerts::AlertKind::Tip, c) == c.tip,
        alert_color(crate::alerts::AlertKind::Important, c) == c.important,
        alert_color(crate::alerts::AlertKind::Warning, c) == c.warning,
        alert_color(crate::alerts::AlertKind::Caution, c) == c.caution,
{
}

} // verus!
