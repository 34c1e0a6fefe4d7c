use inkpage::board::{PickerTarget, WhiteboardView, PICKER_DEFAULT, UNDO_CAP};
use inkpage::caret::{caret_left, caret_right, floor_boundary, line_end, line_start, word_range};
use inkpage::caret::{utf16_range_to_utf8_in, utf16_to_utf8_in, utf8_range_to_utf16_in};
use inkpage::caret::utf8_to_utf16_in;
use inkpage::controls::{color_hex, Button, FormatRow, MenuOutcome, MenuRow};
use inkpage::editing::{KeyPress, TextKey};
use inkpage::keys::{BoardKey, KeyOutcome};
use inkpage::scene::{is_closed_shape, rotatable, Element, ElementKind, Scene, Template};
use inkpage::styles::{active_style, glyph_style, splice_styles, style_at, toggle_format};
use inkpage::styles::{toggle_highlight, Format, RunStyle};
use inkpage::tools::{accepts_wheel_input, Tool, ToolGroup};
use inkpage::zorder::ZOrder;

fn element(id: u64, kind: ElementKind<String>) -> Element {
    Element {
        id,
        kind,
        place: id,
        stroke: None,
        fill: None,
        label: None,
        label_color: None,
        styles: vec![],
        mindmap: None,
    }
}

fn rect(id: u64) -> Element {
    element(id, ElementKind::Rect)
}

fn board(elements: Vec<Element>) -> WhiteboardView {
    WhiteboardView::new(Scene { camera: 0, elements })
}

fn ids(b: &WhiteboardView) -> Vec<u64> {
    b.scene().elements.iter().map(|e| e.id).collect()
}

fn key(name: &str) -> KeyPress {
    KeyPress {
        key: name.into(),
        platform: false,
        control: false,
        shift: false,
        alt: false,
        composing: false,
        key_char: None,
    }
}

fn command(name: &str) -> KeyPress {
    KeyPress {
        platform: true,
        ..key(name)
    }
}

fn typed(text: &str) -> KeyPress {
    KeyPress {
        key_char: Some(text.into()),
        ..key(text)
    }
}

/// A board that edits the text of its one element.
fn editor(text: &str) -> WhiteboardView {
    let mut b = board(vec![element(1, ElementKind::Text(text.into()))]);
    b.set_tool(Tool::Select);
    b.begin_text_edit(1, text.len());
    b
}

fn text(b: &WhiteboardView) -> String {
    b.edit_text(1).unwrap()
}

#[test]
fn read_only_embed_does_not_accept_wheel_input() {
    assert!(!accepts_wheel_input(true));
    assert!(accepts_wheel_input(false));
}

#[test]
fn ime_offsets_bridge_utf16_and_utf8() {
    // Chinese uses one UTF-16 code unit but three UTF-8 bytes; emoji uses a
    // surrogate pair. These are the offsets that native IME APIs exchange.
    let text = "A中😀B";
    let utf8_boundaries = [0, 1, 4, 8, 9];
    let utf16_boundaries = [0, 1, 2, 4, 5];
    for (utf8, utf16) in utf8_boundaries.into_iter().zip(utf16_boundaries) {
        assert_eq!(utf8_to_utf16_in(text, utf8), utf16);
        assert_eq!(utf16_to_utf8_in(text, utf16), utf8);
    }

    // Like the editor bridge, offsets inside a code point advance to the next
    // valid boundary, so slicing the scene's UTF-8 string remains safe.
    assert_eq!(utf8_to_utf16_in(text, 3), 2);
    assert_eq!(utf16_to_utf8_in(text, 3), 8);
}

#[test]
fn style_span_toggle_and_layer() {
    let bold = RunStyle {
        bold: true,
        ..Default::default()
    };
    let s = toggle_format(&[], 0, 4, Format::Bold);
    assert_eq!(s.len(), 1);
    assert_eq!((s[0].start, s[0].end, s[0].style), (0, 4, bold));
    assert!(style_at(&s, 2).bold && !style_at(&s, 4).bold);
    // Toggling the same range off clears it.
    assert!(toggle_format(&s, 0, 4, Format::Bold).is_empty());
    // Extending past the run (partly unstyled) adds, merging into one run.
    let s2 = toggle_format(&s, 2, 6, Format::Bold);
    assert_eq!((s2.len(), s2[0].start, s2[0].end), (1, 0, 6));
    // Layering italic over part of the bold run yields three runs.
    let s3 = toggle_format(&s, 1, 3, Format::Italic);
    assert_eq!(s3.len(), 3, "{s3:?}");
    assert!(style_at(&s3, 1).bold && style_at(&s3, 1).italic);
    assert!(style_at(&s3, 0).bold && !style_at(&s3, 0).italic);
    // Highlight toggles its color independently.
    let h = toggle_highlight(&[], 0, 3, 0xffff00ff);
    assert_eq!(style_at(&h, 1).highlight, Some(0xffff00ff));
    assert!(toggle_highlight(&h, 0, 3, 0xffff00ff).is_empty());
}

#[test]
fn active_style_reports_common_formatting() {
    let s = toggle_format(&[], 2, 5, Format::Bold); // bytes 2..5 bold
    assert!(active_style(&s, 2, 5).bold, "whole selection bold");
    assert!(
        !active_style(&s, 0, 5).bold,
        "selection spills onto plain text"
    );
    // Collapsed caret inherits the char to its left.
    assert!(
        active_style(&s, 5, 5).bold,
        "just after the run inherits bold"
    );
    assert!(!active_style(&s, 2, 2).bold, "just before it is plain");
}

#[test]
fn splice_keeps_runs_aligned() {
    let plain = RunStyle::default();
    let s = toggle_format(&[], 2, 5, Format::Bold);
    // Insert two chars at the start → the run shifts right.
    let a = splice_styles(&s, 0, 0, 2, plain);
    assert_eq!((a[0].start, a[0].end), (4, 7));
    // Delete a char inside the run → it shrinks by one.
    let b = splice_styles(&s, 3, 4, 0, plain);
    assert_eq!((b[0].start, b[0].end), (2, 4), "{b:?}");
    // Replacing a middle slice of a bold run with plain text splits it.
    let full = toggle_format(&[], 0, 6, Format::Bold);
    let c = splice_styles(&full, 2, 4, 2, plain);
    assert_eq!(c.len(), 2, "{c:?}");
    assert_eq!(
        ((c[0].start, c[0].end), (c[1].start, c[1].end)),
        ((0, 2), (4, 6))
    );
}

#[test]
fn caret_navigation_walks_chars_and_lines() {
    // Multi-byte: "é" is 2 bytes, so caret steps by whole chars, never panics.
    let s = "aébc";
    assert_eq!(caret_right(s, 0), 1); // past 'a'
    assert_eq!(caret_right(s, 1), 3); // past 'é' (2 bytes)
    assert_eq!(caret_left(s, 3), 1); // back over 'é'
    assert_eq!(caret_left(s, 0), 0); // clamps at start
    assert_eq!(caret_right(s, s.len()), s.len()); // clamps at end
    // Line edges around a newline.
    let m = "ab\ncde";
    assert_eq!(line_start(m, 5), 3); // within "cde" → after the '\n'
    assert_eq!(line_end(m, 0), 2); // end of "ab" (before '\n')
    assert_eq!(line_start(m, 1), 0);
    assert_eq!(line_end(m, 4), m.len());
    // floor_boundary never splits a char.
    assert_eq!(floor_boundary(s, 2), 1); // mid-'é' → its start
    assert_eq!(floor_boundary(s, 99), s.len());
}

#[test]
fn word_range_selects_the_word_under_the_caret() {
    let s = "foo bar_baz qux";
    assert_eq!(word_range(s, 1), (0, 3)); // inside "foo"
    assert_eq!(word_range(s, 7), (4, 11)); // "bar_baz" (underscore is a word char)
    // At a word/space boundary the adjacent word wins (caret just after "foo").
    assert_eq!(word_range(s, 3), (0, 3));
    // Between two spaces → empty (no word under the caret).
    assert_eq!(word_range("a  b", 2), (2, 2));
}

#[test]
fn ranges_cross_the_bridge_both_ways() {
    let text = "A中😀B";
    assert_eq!(utf16_range_to_utf8_in(text, &(1..4)), 1..8);
    assert_eq!(utf8_range_to_utf16_in(text, &(1..8)), 1..4);
}

#[test]
fn glyphs_take_their_run_s_style() {
    let s = RunStyle {
        italic: true,
        highlight: Some(7),
        ..Default::default()
    };
    let g = glyph_style(s);
    assert!(g.italic && !g.bold && g.highlight == Some(7));
}

#[test]
fn tools_have_keys_names_and_groups() {
    assert_eq!(Tool::shortcut("r"), Some(Tool::Rect));
    assert_eq!(Tool::shortcut("zz"), None);
    for t in ToolGroup::Shapes.tools() {
        assert!(ToolGroup::Shapes.contains(t));
        assert!(!ToolGroup::Lines.contains(t));
    }
    assert!(ToolGroup::Lines.contains(ToolGroup::Lines.representative()));
    assert!(!ToolGroup::Shapes.contains(Tool::Select));
    assert!(ToolGroup::Shapes.contains(Tool::Pen));
    assert!(!ToolGroup::Lines.contains(Tool::Pen));
}

#[test]
fn a_board_opens_with_fresh_ids() {
    let b = board(vec![rect(4), rect(9), rect(2)]);
    assert_eq!(b.next_id, 10);
    assert_eq!(b.tool(), Tool::Pan);
    assert!(!b.read_only());
    assert!(WhiteboardView::new_read_only(Scene { camera: 0, elements: vec![] }).read_only());
    assert_eq!(board(vec![]).next_id, 0);
}

#[test]
fn undo_takes_back_a_deletion_and_redo_does_it_again() {
    let mut b = board(vec![rect(1), rect(2)]);
    b.selected = vec![1];
    assert!(b.delete_selected());
    assert_eq!(ids(&b), vec![2]);
    assert!(b.selected.is_empty());
    assert!(b.undo());
    assert_eq!(ids(&b), vec![1, 2]);
    assert!(b.redo());
    assert_eq!(ids(&b), vec![2]);
    // Nothing to do again: nothing happens.
    assert!(!b.redo());
    assert_eq!(ids(&b), vec![2]);
    assert!(!board(vec![]).undo());
}

#[test]
fn the_history_forgets_its_oldest_steps() {
    let mut b = board(vec![rect(1)]);
    for _ in 0..UNDO_CAP + 5 {
        b.push_undo();
    }
    assert_eq!(b.history.len(), UNDO_CAP);
    let mut steps = 0;
    while b.undo() {
        steps += 1;
    }
    assert_eq!(steps, UNDO_CAP);
}

#[test]
fn deleting_loosens_the_lines_and_the_branches() {
    let mut b = board(vec![]);
    b.add_mindmap_seed(100);
    let root = b.scene().elements.iter().find(|e| match e.mindmap {
        Some(m) => m.parent.is_none(),
        None => false,
    });
    let root = root.unwrap().id;
    b.selected = vec![root];
    b.delete_selected();
    assert!(!ids(&b).contains(&root));
}

#[test]
fn stamped_elements_get_new_ids() {
    let mut b = board(vec![rect(1)]);
    assert!(b.stamp_elements(vec![rect(1), rect(7)]));
    assert_eq!(ids(&b), vec![1, 2, 3]);
    assert_eq!(b.selected, vec![2, 3]);
    assert!(!b.stamp_elements(vec![]));
    assert!(b.undo());
    assert_eq!(ids(&b), vec![1]);
}

#[test]
fn a_pasted_selection_is_copied_again() {
    let mut b = board(vec![rect(1), rect(2), rect(3)]);
    b.selected = vec![1, 3];
    let copied = b.selection().unwrap();
    assert!(b.stamp_elements(copied));
    assert_eq!(ids(&b), vec![1, 2, 3, 4, 5]);
    let again = b.selection().unwrap();
    assert_eq!(again.iter().map(|e| e.id).collect::<Vec<_>>(), vec![4, 5]);
}

#[test]
fn templates_are_put_on_the_board() {
    let mut b = board(vec![]);
    b.set_templates(vec![Template {
        id: 5,
        name: "pair".into(),
        elements: vec![rect(1), rect(2)],
    }]);
    assert!(b.apply_template(0));
    assert_eq!(ids(&b), vec![0, 1]);
    assert!(!b.apply_template(3));
}

#[test]
fn stacking_moves_the_selection_as_a_block() {
    let all = || vec![rect(1), rect(2), rect(3), rect(4)];
    let moved = |op: ZOrder, sel: Vec<u64>| {
        let mut b = board(all());
        b.selected = sel;
        let save = b.reorder_selection(op);
        (ids(&b), save)
    };
    assert_eq!(moved(ZOrder::ToFront, vec![1, 3]), (vec![2, 4, 1, 3], true));
    assert_eq!(moved(ZOrder::ToBack, vec![2, 4]), (vec![2, 4, 1, 3], true));
    assert_eq!(moved(ZOrder::Forward, vec![1, 2]), (vec![3, 1, 2, 4], true));
    assert_eq!(moved(ZOrder::Backward, vec![4]), (vec![1, 2, 4, 3], true));
}

#[test]
fn stacking_that_changes_nothing_is_no_step() {
    let mut b = board(vec![rect(1), rect(2)]);
    b.selected = vec![2];
    assert!(!b.reorder_selection(ZOrder::ToFront));
    assert!(b.history.is_empty());
    b.selected = vec![];
    assert!(!b.reorder_selection(ZOrder::ToBack));
}

#[test]
fn typing_goes_in_at_the_caret() {
    let mut b = editor("héllo");
    // A printable key is for the input method, which hands its text over.
    assert!(matches!(b.text_edit_key(&typed("!")), TextKey::Ignored));
    b.replace_text_in_visible_range(6..6, "!", None, false);
    assert_eq!(text(&b), "héllo!");
    assert!(matches!(b.text_edit_key(&key("home")), TextKey::Done));
    assert!(matches!(b.text_edit_key(&key("right")), TextKey::Done));
    assert!(matches!(b.text_edit_key(&key("delete")), TextKey::Done));
    assert_eq!(text(&b), "hllo!");
    assert!(matches!(b.text_edit_key(&key("backspace")), TextKey::Done));
    assert_eq!(text(&b), "llo!");
}

#[test]
fn cut_text_can_be_pasted_back() {
    let mut b = editor("one two");
    b.text_edit_key(&command("a"));
    assert_eq!(b.sel_range(), (0, 7));
    match b.text_edit_key(&command("x")) {
        TextKey::Copy(s) => assert_eq!(s, "one two"),
        other => panic!("{other:?}"),
    }
    assert_eq!(text(&b), "");
    assert!(matches!(b.text_edit_key(&command("v")), TextKey::Paste));
    b.replace_selection(1, "one two");
    assert_eq!(text(&b), "one two");
}

#[test]
fn the_caret_stays_between_characters() {
    let mut b = editor("aé");
    assert_eq!(b.sel_range(), (3, 3));
    b.text_edit_key(&key("left"));
    assert_eq!(b.sel_range(), (1, 1));
    let shift = KeyPress {
        shift: true,
        ..key("right")
    };
    b.text_edit_key(&shift);
    assert_eq!(b.sel_range(), (1, 3));
}

#[test]
fn formats_apply_to_what_is_selected() {
    let mut b = editor("bold");
    b.text_edit_key(&command("a"));
    b.text_edit_key(&command("b"));
    assert!(b.selection_style().bold);
    assert_eq!(b.scene().elements[0].styles.len(), 1);
    b.apply_format(Format::Bold);
    assert!(b.scene().elements[0].styles.is_empty());
    b.apply_highlight(9);
    assert_eq!(b.selection_style().highlight, Some(9));
}

#[test]
fn a_double_click_selects_a_word() {
    let mut b = editor("foo bar");
    b.place_caret_from_click(1, 5, true, false);
    assert_eq!(b.sel_range(), (4, 7));
    b.place_caret_from_click(1, 1, false, false);
    assert_eq!(b.sel_range(), (1, 1));
    b.place_caret_from_click(1, 3, false, true);
    assert_eq!(b.sel_range(), (1, 3));
}

#[test]
fn composed_text_is_marked_until_it_is_settled() {
    let mut b = editor("ab");
    b.replace_text_in_visible_range(2..2, "ni", Some(2..2), true);
    assert_eq!(text(&b), "abni");
    assert!(b.ui.edit.marked_range.is_some());
    b.replace_text_in_visible_range(2..4, "你", None, false);
    assert_eq!(text(&b), "ab你");
    assert!(b.ui.edit.marked_range.is_none());
    assert_eq!(b.sel_range(), (5, 5));
}

#[test]
fn no_empty_text_is_left() {
    let mut b = editor("");
    b.commit_text();
    assert!(ids(&b).is_empty());
    let mut b = editor("x");
    b.commit_text();
    assert_eq!(ids(&b), vec![1]);
    assert_eq!(b.editing_content(), None);
}

#[test]
fn escape_ends_the_editing() {
    let mut b = editor("x");
    assert!(matches!(b.text_edit_key(&key("escape")), TextKey::Committed));
    assert_eq!(b.editing_content(), None);
}

#[test]
fn shortcuts_act_on_the_board() {
    let mut b = board(vec![rect(1), rect(2)]);
    match b.on_key(&key("v")) {
        KeyOutcome::Board(BoardKey::Done(save)) => assert!(!save),
        other => panic!("{other:?}"),
    }
    assert_eq!(b.tool(), Tool::Select);
    b.selected = vec![1, 2];
    match b.on_key(&command("c")) {
        KeyOutcome::Board(BoardKey::Copy(v)) => assert_eq!(v.len(), 2),
        other => panic!("{other:?}"),
    }
    match b.on_key(&command("x")) {
        KeyOutcome::Board(BoardKey::Cut(v)) => assert_eq!(v.len(), 2),
        other => panic!("{other:?}"),
    }
    assert!(ids(&b).is_empty());
    b.on_key(&command("z"));
    assert_eq!(ids(&b), vec![1, 2]);
    assert!(matches!(
        b.on_key(&command("v")),
        KeyOutcome::Board(BoardKey::Paste)
    ));
    assert!(matches!(b.on_key(&key("f5")), KeyOutcome::Board(BoardKey::Pass)));
}

#[test]
fn a_read_only_board_takes_no_keys() {
    let mut b = WhiteboardView::new_read_only(Scene {
        camera: 0,
        elements: vec![rect(1)],
    });
    b.selected = vec![1];
    b.on_key(&key("delete"));
    assert_eq!(ids(&b), vec![1]);
}

#[test]
fn colours_go_to_the_selection_and_to_the_next_element() {
    let mut b = board(vec![rect(1), rect(2)]);
    b.set_tool(Tool::Select);
    b.selected = vec![1];
    assert_eq!(b.seed_color(PickerTarget::Stroke), PICKER_DEFAULT);
    b.toggle_picker();
    b.set_picker_target(PickerTarget::Fill);
    assert!(b.pick_color(Some(0xff0000ff)));
    assert_eq!(b.scene().elements[0].fill, Some(0xff0000ff));
    assert_eq!(b.scene().elements[1].fill, None);
    assert_eq!(b.tab_color(PickerTarget::Fill), Some(0xff0000ff));
    assert!(b.undo());
    assert_eq!(b.scene().elements[0].fill, None);
}

#[test]
fn saved_colours_are_kept_once() {
    let mut b = board(vec![]);
    b.set_saved_colors(vec![1, 2]);
    // With the picker closed there is no current colour.
    assert!(!b.save_current_color(3));
    b.toggle_picker();
    assert!(b.save_current_color(3));
    assert!(!b.save_current_color(3));
    assert_eq!(b.saved_colors.iter().filter(|c| **c == 3).count(), 1);
    b.remove_saved_color(1);
    assert!(!b.saved_colors.contains(&1));
}

#[test]
fn one_popover_is_open_at_a_time() {
    let mut b = board(vec![]);
    b.toggle_width();
    assert!(b.panels(true).width);
    b.toggle_group(ToolGroup::Shapes);
    assert!(!b.panels(true).width);
    assert_eq!(b.panels(true).flyout, Some(ToolGroup::Shapes));
    b.toggle_group(ToolGroup::Shapes);
    assert_eq!(b.panels(true).flyout, None);
    b.toggle_font();
    assert!(b.panels(true).font);
    b.toggle_templates();
    assert!(b.panels(true).templates && !b.panels(true).font);
}

#[test]
fn the_menu_fits_the_selection() {
    let mut b = board(vec![rect(1), rect(2)]);
    b.set_tool(Tool::Select);
    assert_eq!(b.menu(true, true), vec![MenuRow::Paste]);
    b.selected = vec![1];
    assert!(b.menu(false, false).contains(&MenuRow::Front));
    assert!(!b.menu(false, false).contains(&MenuRow::Paste));
    match b.choose_row(MenuRow::Front) {
        MenuOutcome::Done(save) => assert!(save),
        other => panic!("{other:?}"),
    }
    assert_eq!(ids(&b), vec![2, 1]);
    match b.choose_row(MenuRow::Cut) {
        MenuOutcome::Cut(v) => assert_eq!(v[0].id, 1),
        other => panic!("{other:?}"),
    }
    assert_eq!(ids(&b), vec![2]);
    assert_eq!(MenuRow::Copy.label(), "Copy");
}

#[test]
fn the_toolbar_shows_every_group() {
    let b = board(vec![]);
    let bar = b.toolbar(true);
    for group in [ToolGroup::Shapes, ToolGroup::Lines, ToolGroup::PagesImages] {
        assert!(bar.iter().any(|x| matches!(x, Button::Group(g, _, _) if *g == group)));
    }
    assert!(bar.iter().any(|x| matches!(x, Button::Font(_))));
    assert!(!b.toolbar(false).iter().any(|x| matches!(x, Button::Font(_))));
}

#[test]
fn the_format_menu_shows_what_is_on() {
    let mut b = editor("x");
    b.text_edit_key(&command("a"));
    b.apply_format(Format::Italic);
    for (row, on) in b.format_menu() {
        assert_eq!(on, row == FormatRow::Toggle(Format::Italic));
    }
}

#[test]
fn colours_print_as_six_digits() {
    assert_eq!(color_hex(0xff0080ff), "#FF0080");
    assert_eq!(color_hex(0x00000000), "#000000");
}

#[test]
fn kinds_know_what_they_can_do() {
    assert!(is_closed_shape(&ElementKind::Hexagon));
    assert!(!is_closed_shape(&ElementKind::Image("x.png".into())));
    assert!(rotatable(&ElementKind::Text("x".into())));
}

#[test]
fn thickness_applies_to_the_selection() {
    let mut b = board(vec![rect(1), rect(2)]);
    b.selected = vec![2];
    b.toggle_width();
    assert_eq!(b.set_width_live(), vec![2]);
    let (who, save) = b.set_width();
    assert_eq!((who, save), (vec![2], true));
    assert!(!b.panels(true).width);
    assert_eq!(b.history.len(), 1);
}

#[test]
fn panels_close_again() {
    let mut b = editor("x");
    b.toggle_format_flyout();
    assert!(b.panels(true).format);
    b.toggle_templates();
    b.close_templates();
    assert!(!b.panels(true).templates);
    b.toggle_font();
    b.close_fonts();
    assert!(!b.panels(true).font);
    b.set_toolbar_vertical(true);
    assert!(b.ui.toolbar_vertical);
}

#[test]
fn picker_tabs_name_their_reset() {
    assert_ne!(
        PickerTarget::Stroke.reset_label(),
        PickerTarget::Fill.reset_label()
    );
    assert_eq!(Tool::Select.glyph().is_empty(), false);
}
