use inkpage::lists::{indent_list_line, list_continuation, outdent_line, reindent, ListEdit};

fn cont(s: &str) -> Option<ListEdit> {
    list_continuation(s, s.len())
}

#[test]
fn reindent_converts_list_widths() {
    let content = "- a\n    - b\n        - c\nplain\n    not a list";
    // 4 → 2 spaces/level: nested list items shrink; non-list + top-level stay.
    assert_eq!(
        reindent(content, 4, 2).unwrap(),
        "- a\n  - b\n    - c\nplain\n    not a list"
    );
    // 4 → 8: nested items grow.
    assert_eq!(reindent("    - b", 4, 8).unwrap(), "        - b");
    // No-op when unchanged or nothing nested.
    assert!(reindent(content, 4, 4).is_none());
    assert!(reindent("- a\n- b", 4, 8).is_none());
}

#[test]
fn list_continues_bullets() {
    assert_eq!(cont("- a"), Some(ListEdit::Continue("\n- ".into())));
    assert_eq!(cont("* a"), Some(ListEdit::Continue("\n* ".into())));
    assert_eq!(cont("+ a"), Some(ListEdit::Continue("\n+ ".into())));
}

#[test]
fn list_continues_ordered_incrementing() {
    assert_eq!(cont("1. a"), Some(ListEdit::Continue("\n2. ".into())));
    assert_eq!(cont("9. x"), Some(ListEdit::Continue("\n10. ".into())));
    assert_eq!(cont("3) y"), Some(ListEdit::Continue("\n4) ".into())));
}

#[test]
fn list_continues_task_unchecked() {
    assert_eq!(
        cont("- [x] done"),
        Some(ListEdit::Continue("\n- [ ] ".into()))
    );
    assert_eq!(
        cont("- [ ] todo"),
        Some(ListEdit::Continue("\n- [ ] ".into()))
    );
}

#[test]
fn list_continues_blockquote_and_preserves_indent() {
    assert_eq!(cont("> hi"), Some(ListEdit::Continue("\n> ".into())));
    assert_eq!(cont("  - a"), Some(ListEdit::Continue("\n  - ".into())));
}

#[test]
fn list_empty_item_exits() {
    assert_eq!(cont("- "), Some(ListEdit::Exit { start: 0, end: 2 }));
    assert_eq!(cont("1. "), Some(ListEdit::Exit { start: 0, end: 3 }));
    assert_eq!(cont("> "), Some(ListEdit::Exit { start: 0, end: 2 }));
    assert_eq!(cont("- [ ] "), Some(ListEdit::Exit { start: 0, end: 6 }));
}

#[test]
fn list_continuation_ignores_non_lists() {
    assert_eq!(cont("hello"), None);
    assert_eq!(cont(""), None);
    assert_eq!(cont("-nospace"), None);
}

#[test]
fn list_continuation_uses_the_caret_line() {
    // Cursor at the end of the second (list) line continues that line.
    let v = "intro\n- one";
    assert_eq!(
        list_continuation(v, v.len()),
        Some(ListEdit::Continue("\n- ".into()))
    );
}

#[test]
fn tab_indents_list_lines() {
    assert_eq!(indent_list_line("- a", 3, "  "), Some(("  - a".into(), 5)));
    assert_eq!(indent_list_line("* x", 1, "  "), Some(("  * x".into(), 3)));
    assert_eq!(
        indent_list_line("1. y", 4, "  "),
        Some(("  1. y".into(), 6))
    );
    // The indent unit is the caller's: a 4-space setting inserts four.
    assert_eq!(
        indent_list_line("- a", 3, "    "),
        Some(("    - a".into(), 7))
    );
    // Only the caret's line is indented.
    assert_eq!(
        indent_list_line("- a\n- b", 7, "  "),
        Some(("- a\n  - b".into(), 9))
    );
}

#[test]
fn tab_ignores_non_list_lines() {
    assert_eq!(indent_list_line("hello", 5, "  "), None);
}

#[test]
fn shift_tab_outdents() {
    assert_eq!(outdent_line("  - a", 5, "  "), Some(("- a".into(), 3)));
    assert_eq!(outdent_line("    x", 5, "  "), Some(("  x".into(), 3)));
    assert_eq!(outdent_line("- a", 3, "  "), None);
    // A 4-space unit removes up to four leading spaces in one outdent.
    assert_eq!(outdent_line("    - a", 7, "    "), Some(("- a".into(), 3)));
}

#[test]
fn enter_twice_leaves_the_list() {
    for (item, next) in [
        ("- a", "\n- "),
        ("  9) a", "\n  10) "),
        ("* [x] a", "\n* [ ] "),
        (">a", "\n> "),
    ] {
        assert_eq!(cont(item), Some(ListEdit::Continue(next.into())));
        let mut value = String::from(item);
        value.push_str(next);
        assert_eq!(
            cont(&value),
            Some(ListEdit::Exit {
                start: item.len() + 1,
                end: value.len()
            })
        );
    }
}

#[test]
fn outdenting_undoes_a_tab() {
    let (text, at) = indent_list_line("a\n- b", 5, "\t").unwrap();
    assert_eq!((text.as_str(), at), ("a\n\t- b", 6));
    assert_eq!(outdent_line(&text, at, "\t"), Some(("a\n- b".into(), 5)));
}
