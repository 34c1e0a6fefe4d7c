use inkpage::cheap::{is_cheap_to_parse, INLINE_PARSE_MAX, MAX_BRACKETS, MAX_TABLE_ROWS};
use inkpage::math::{preceding_math_align, MathMarkerAlign};
use inkpage::search::scan_matches;

#[test]
fn math_align_marker_adjacency() {
    let src = "<!-- math:left -->\n$$x$$\n";
    assert!(matches!(
        preceding_math_align(src, Some(19)),
        Some(MathMarkerAlign::Left)
    ));
    // A blank line between breaks adjacency; center (None) wins.
    let gap = "<!-- math:right -->\n\n$$x$$\n";
    assert!(preceding_math_align(gap, Some(21)).is_none());
    // Not a marker line at all.
    assert!(preceding_math_align("text\n$$x$$", Some(5)).is_none());
    // Block at the top of the document.
    assert!(preceding_math_align("$$x$$", Some(0)).is_none());
}

#[test]
fn scan_is_ascii_case_insensitive_and_nonoverlapping() {
    assert_eq!(
        scan_matches("Hello hello HELLO", "hello"),
        vec![0..5, 6..11, 12..17]
    );
    assert_eq!(scan_matches("aaaa", "aa"), vec![0..2, 2..4]); // non-overlapping
    assert!(scan_matches("abc", "").is_empty());
    assert!(scan_matches("abc", "xyz").is_empty());
}

#[test]
fn cheap_parse_scan_classifies_shapes() {
    // A big note of ordinary prose still parses inline — it's linear, and
    // no first frame of raw text for a note anyone actually wrote.
    let prose = "Some prose with a [link](x) and *emphasis*.\n\n".repeat(1_000);
    assert!(prose.len() > 40_000);
    assert!(is_cheap_to_parse(&prose));
    // A pasted CSV-sized table does not.
    let table = format!(
        "| a | b |\n|---|---|\n{}",
        "| one | two |\n".repeat(MAX_TABLE_ROWS + 1)
    );
    assert!(!is_cheap_to_parse(&table));
    // Deep blockquote nesting does not (6 s at 48 KB).
    assert!(!is_cheap_to_parse(&format!("{}deep\n", "> ".repeat(5_000))));
    // Nor a document of `[[[[[…` (unmatched brackets, however spread).
    assert!(!is_cheap_to_parse(&format!(
        "{}a\n",
        "[".repeat(MAX_BRACKETS + 1)
    )));
    assert!(!is_cheap_to_parse(&"[[a\n".repeat(MAX_BRACKETS)));
    // No false positive on ordinary quoting: an alert, a nested reply
    // chain, a short table, and the wiki/embed/footnote bracket forms.
    let normal = "> [!NOTE]\n> heads up\n\n> quoted\n> > nested\n> > > deeper\n\n\
         See [[Page]], ![[Page#^ab12]], [^1] and [text](url).\n\n\
         | a | b |\n|---|---|\n| 1 | 2 |\n";
    assert!(is_cheap_to_parse(normal));
    // Many small tables are cheap even though their rows outnumber one
    // pasted CSV: the superlinear cost lives inside a single table.
    let many = "| a | b |\n|---|---|\n| 1 | 2 |\n| 3 | 4 |\n\nbetween\n\n".repeat(200);
    assert!(is_cheap_to_parse(&many));
    // Emphasis that never resolves is the shape with no other tell: no
    // brackets, quotes or tables, and under the size cap, yet 2.6 s.
    let unresolved = format!("{}a{}", "*_".repeat(15_000), "_*".repeat(15_000));
    assert!(unresolved.len() < INLINE_PARSE_MAX);
    assert!(!is_cheap_to_parse(&unresolved));
    // But ordinary formatting stays inline — it pairs up, so it's linear.
    assert!(is_cheap_to_parse(
        &"Some *bold* and _italic_ text.\n\n".repeat(500)
    ));
}

