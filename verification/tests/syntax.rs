use inkpage::alerts::{
    alert_fold_char, alert_marker, alert_prefix, toggle_alert_fold_at, AlertKind,
};
use inkpage::anchors::{
    block_id, embed_line, embed_targets, extract_block, extract_section, find_block_line, find_heading_line,
    split_block_anchor, split_heading_anchor,
};
use inkpage::direction::{base_direction, content_direction, content_direction_opt, Direction};
use inkpage::links::{is_safe_external_url, links, LinkHit};
use inkpage::math::{embedded_math, normalize_math_fences};
use inkpage::numbering::ordered_marker;
use inkpage::properties::{prefixed_property, property, property_value_segments, PropSeg};
use inkpage::tables::{table_style_marker, TableStyle};

#[test]
fn math_fence_normalization() {
    // Paired words-fences split onto their own lines.
    assert_eq!(
        normalize_math_fences("wer $$\nx+y\n$$ wer").as_ref(),
        "wer\n$$\nx+y\n$$\nwer"
    );
    // An opener with no closer before a blank line is prose — untouched
    // (and Borrowed).
    let prose = "cost $$\n\nlater";
    assert!(matches!(
        normalize_math_fences(prose),
        std::borrow::Cow::Borrowed(_)
    ));
    // Code fences are left alone.
    let code = "```sh\necho $$\n$$\n```";
    assert!(matches!(
        normalize_math_fences(code),
        std::borrow::Cow::Borrowed(_)
    ));
    // A words-mixed complete pair splits onto its own line.
    assert_eq!(
        normalize_math_fences("What if words $$E=mc^2$$ more").as_ref(),
        "What if words\n$$E=mc^2$$\nmore"
    );
    // Prices (delimiter-adjacent whitespace) stay prose.
    assert!(matches!(
        normalize_math_fences("fees are $$5 and $$10 total"),
        std::borrow::Cow::Borrowed(_)
    ));
    // A pair ALONE on its line is already well-formed.
    assert!(matches!(
        normalize_math_fences("$$y$$"),
        std::borrow::Cow::Borrowed(_)
    ));
}

#[test]
fn markers_do_not_decide_a_line_s_direction() {
    // The bug: `x` is strong left-to-right, so a COMPLETED task read LTR
    // while the same line unchecked read RTL — the two sat on opposite
    // sides of the note.
    assert!(content_direction("- [x] یک کار انجام‌شده").is_rtl());
    assert!(content_direction("- [ ] یک کار انجام‌نشده").is_rtl());
    assert!(content_direction("- مورد فهرست").is_rtl());
    assert!(content_direction("1. مورد شماره‌دار").is_rtl());
    assert!(content_direction("## سلام دنیا").is_rtl());
    assert!(content_direction("> یک نقل‌قول").is_rtl());
    // An alert's label is Latin whatever the prose is.
    assert!(content_direction("> [!NOTE]\n> یک هشدار فارسی").is_rtl());
    assert!(content_direction("> [!WARNING]- یک هشدار").is_rtl());
    assert!(!content_direction("> [!NOTE]\n> an english callout").is_rtl());
    // A marker-only line has NO direction of its own — the caller decides
    // whether that means the line above or the content below.
    assert_eq!(content_direction_opt("> [!NOTE]"), None);
    assert_eq!(content_direction_opt("- "), None);
    assert_eq!(content_direction_opt(""), None);
    assert!(!content_direction("> > [!NOTE]\n").is_rtl(), "no content");
    // Latin content still reads left-to-right, markers or not.
    assert!(!content_direction("- [x] a done task").is_rtl());
    assert!(!content_direction("## English heading").is_rtl());
    // A line that is only markers has no direction of its own.
    assert!(!content_direction("- [ ] ").is_rtl());
}

#[test]
fn base_direction_follows_the_first_strong_character() {
    // Plain cases.
    assert_eq!(base_direction("hello"), Direction::Ltr);
    assert_eq!(base_direction("سلام دنیا"), Direction::Rtl); // Persian
    assert_eq!(base_direction("שלום עולם"), Direction::Rtl); // Hebrew
    // Neutrals lead — markdown markers, digits, punctuation, whitespace
    // are all skipped, which is what makes list items and headings work.
    assert_eq!(base_direction("- سلام"), Direction::Rtl);
    assert_eq!(base_direction("## سلام"), Direction::Rtl);
    assert_eq!(base_direction("> «سلام»"), Direction::Rtl);
    assert_eq!(base_direction("  \t123 — سلام"), Direction::Rtl);
    assert_eq!(base_direction("- hello"), Direction::Ltr);
    // The FIRST strong character decides, not the majority: a line opening
    // in English stays LTR however much Persian follows (and vice versa).
    assert_eq!(base_direction("Rust سلام دنیا و بیشتر"), Direction::Ltr);
    assert_eq!(base_direction("سلام Rust and more English"), Direction::Rtl);
    // No strong character anywhere → LTR.
    assert_eq!(base_direction(""), Direction::Ltr);
    assert_eq!(base_direction("123 — !?"), Direction::Ltr);
    // Other scripts are LTR.
    assert_eq!(base_direction("日本語"), Direction::Ltr);
    assert_eq!(base_direction("Привет"), Direction::Ltr);
    assert!(Direction::Rtl.is_rtl() && !Direction::Ltr.is_rtl());
}

#[test]
fn only_http_reaches_the_os_opener() {
    for ok in [
        "http://example.com",
        "https://example.com/a?b=c#d",
        "HTTPS://EXAMPLE.COM",
        "HtTp://example.com",
        // Ordinary markdown — an email link opens a compose window.
        "mailto:a@b.c",
        "MAILTO:a@b.c",
    ] {
        assert!(is_safe_external_url(ok), "should allow {ok:?}");
    }
    for bad in [
        "javascript:alert(1)",
        "data:text/html,<script>x</script>",
        "file:///etc/passwd",
        "smb://evil/share",
        "vbscript:msgbox",
        "ms-msdt:/id",
        "//evil.com/path",
        r"\\evil\share",
        "/local/path",
        "example.com",
        " javascript:alert(1)",
        "\tjavascript:alert(1)",
        "java\tscript:alert(1)",
        "http\n://example.com",
        "https://exa\u{0}mple.com",
        "https://example.com\r\nHost: evil",
        "",
    ] {
        assert!(!is_safe_external_url(bad), "should reject {bad:?}");
    }
}

#[test]
fn alert_recognition_both_forms() {
    assert!(matches!(
        alert_marker("[!NOTE]\nbody"),
        Some((AlertKind::Note, 8, None))
    ));
    assert!(matches!(
        alert_marker("[!NOTE] inline"),
        Some((AlertKind::Note, 8, None))
    ));
    assert!(alert_marker("[!note] no").is_none());
    assert!(alert_marker("[!NOTEXT]").is_none());

    assert!(matches!(
        alert_prefix("  [!TIP] x"),
        Some((AlertKind::Tip, 9, None))
    ));
    assert_eq!(AlertKind::Caution.label(), "Caution");
}

#[test]
fn alert_fold_markers_and_toggle() {
    // `-` = folded, `+` = open; the strip consumes the fold char.
    assert!(matches!(
        alert_marker("[!NOTE]-\nbody"),
        Some((AlertKind::Note, 9, Some(true)))
    ));
    assert!(matches!(
        alert_marker("[!NOTE]+ inline"),
        Some((AlertKind::Note, 9, Some(false)))
    ));
    assert!(matches!(
        alert_prefix(" [!TIP]- x"),
        Some((AlertKind::Tip, 9, Some(true)))
    ));
    // A `-` not directly after `]` is body text, not a fold marker.
    assert!(matches!(
        alert_marker("[!NOTE] - item"),
        Some((AlertKind::Note, 8, None))
    ));

    // The fold char locates + flips within a full source line.
    assert_eq!(alert_fold_char("> [!NOTE]- body"), Some((9, true)));
    assert_eq!(alert_fold_char("> [!NOTE] body"), None);
    let src = "before\n> [!TIP]- hidden\n> more\nafter";
    let toggled = toggle_alert_fold_at(src, 10).unwrap();
    assert_eq!(toggled, "before\n> [!TIP]+ hidden\n> more\nafter");
    let back = toggle_alert_fold_at(&toggled, 10).unwrap();
    assert_eq!(back, src);
    assert!(toggle_alert_fold_at("plain text", 2).is_none());
}

#[test]
fn block_ids_and_anchor_links() {
    assert_eq!(
        block_id("Decision made. ^decision1"),
        Some((14, "decision1"))
    );
    assert_eq!(block_id("trailing space ^id  "), Some((14, "id")));
    assert_eq!(block_id("no anchor"), None);
    assert_eq!(block_id("mid ^id not at end"), None);
    assert_eq!(block_id("bad chars ^a b"), None);

    assert_eq!(split_block_anchor("Note#^id"), ("Note", Some("id")));
    assert_eq!(split_block_anchor("Note"), ("Note", None));
    // A bare `#` is part of the title, not an anchor.
    assert_eq!(split_block_anchor("C# Notes"), ("C# Notes", None));
    assert_eq!(split_block_anchor("file.pdf#p3"), ("file.pdf#p3", None));

    let src = "intro\nthe fact ^fact-1\nmore";
    assert_eq!(find_block_line(src, "fact-1"), Some(6));
    assert_eq!(find_block_line(src, "nope"), None);
}

#[test]
fn embeds_and_extraction() {
    assert_eq!(embed_line("![[Note]]"), Some("Note"));
    assert_eq!(embed_line("  ![[Note#^id]]  "), Some("Note#^id"));
    assert_eq!(embed_line("text ![[Note]]"), None); // not standalone
    assert_eq!(embed_line("![[]]"), None);
    assert_eq!(embed_line("[[Note]]"), None);

    let src = "pre\nthe block ^b1\n## Sec\nbody\nmore\n### Sub\ndeep\n## Next\nafter";
    assert_eq!(&src[extract_block(src, "b1").unwrap()], "the block ^b1");
    // A section runs through its subsections, stopping at the next
    // same-or-higher heading.
    assert_eq!(
        &src[extract_section(src, "Sec").unwrap()],
        "## Sec\nbody\nmore\n### Sub\ndeep"
    );
    assert_eq!(
        &src[extract_section(src, "Next").unwrap()],
        "## Next\nafter"
    );
    assert!(extract_section(src, "missing").is_none());
}

#[test]
fn heading_anchors() {
    assert_eq!(
        split_heading_anchor("Note#My Heading"),
        ("Note", Some("My Heading"))
    );
    assert_eq!(split_heading_anchor("Note"), ("Note", None));
    // Block anchors, PDFs, and empty sides don't split as headings.
    assert_eq!(split_heading_anchor("Note#^id"), ("Note#^id", None));
    assert_eq!(split_heading_anchor("file.pdf#p3"), ("file.pdf#p3", None));
    assert_eq!(split_heading_anchor("#Heading"), ("#Heading", None));
    assert_eq!(split_heading_anchor("Note#"), ("Note#", None));

    let src = "intro\n## My Heading\nbody\n```\n# not a heading\n```\n### Deep One";
    // Case-insensitive, trimmed; fences skipped.
    assert_eq!(find_heading_line(src, "my heading"), Some(6));
    assert_eq!(find_heading_line(src, " Deep One "), Some(49));
    assert_eq!(find_heading_line(src, "not a heading"), None);
    assert_eq!(find_heading_line(src, "missing"), None);
}

#[test]
fn property_recognition() {
    assert_eq!(
        property("attendees:: Bob, Sue"),
        Some(("attendees", "Bob, Sue"))
    );
    assert_eq!(property("  time::3:00pm"), Some(("time", "3:00pm")));
    assert_eq!(property("owner:: [[Sue]]"), Some(("owner", "[[Sue]]")));
    // Not properties: prose with `::`, wiki links, empty/bad keys.
    assert_eq!(property("See [[Page::sub]] here"), None);
    assert_eq!(property("just prose"), None);
    assert_eq!(property(":: value"), None);
    assert_eq!(property("1key:: v"), None);
}

#[test]
fn prefixed_property_tolerates_list_markers() {
    // Plain / indented lines: prefix is the indent.
    assert_eq!(prefixed_property("k:: v"), Some(("", "k", "v")));
    assert_eq!(prefixed_property("  k:: v"), Some(("  ", "k", "v")));
    // List markers (Logseq props-only block), bullets and numbers.
    assert_eq!(prefixed_property("- k:: v"), Some(("- ", "k", "v")));
    assert_eq!(prefixed_property("  * k:: v"), Some(("  * ", "k", "v")));
    assert_eq!(prefixed_property("2. k:: v"), Some(("2. ", "k", "v")));
    // Not properties: a plain bullet, a task, a numberless dot.
    assert_eq!(prefixed_property("- plain bullet"), None);
    assert_eq!(prefixed_property("- [ ] k:: v"), None);
    assert_eq!(prefixed_property(". k:: v"), None);
}

#[test]
fn property_value_segments_pill_and_plain() {
    let segs = property_value_segments("[[Bob]], [[Sue|Susan]] and #work done");
    // Bob pill, ", " text, Susan pill, " and " text, work tag, " done" text.
    assert!(matches!(&segs[0], PropSeg::Pill { label, is_tag: false, .. } if label == "Bob"));
    assert!(matches!(&segs[1], PropSeg::Text(t) if t == ", "));
    assert!(matches!(&segs[2], PropSeg::Pill { label, .. } if label == "Susan"));
    assert!(matches!(&segs[4], PropSeg::Pill { label, is_tag: true, .. } if label == "work"));
    // A plain value is a single text segment.
    assert!(
        matches!(property_value_segments("active").as_slice(), [PropSeg::Text(t)] if t == "active")
    );
}

#[test]
fn links_cover_every_kind() {
    let hits = links("see [[Page|alias]] and [x](https://a.io) #tag/sub https://b.io/p, done");
    assert_eq!(
        hits.iter().map(|(_, h)| h).collect::<Vec<_>>(),
        vec![
            &LinkHit::Page("Page".into()),
            &LinkHit::Url("https://a.io".into()),
            &LinkHit::Page("tag/sub".into()),
            &LinkHit::Url("https://b.io/p".into()), // trailing comma trimmed
        ]
    );
    // Opaque: code spans, images, footnotes, glued #.
    assert!(links("`https://x.io` ![a](i.png) [^1] word#no").is_empty());
    // Regression: multi-byte text before a URL must not panic the
    // byte-wise walk (it once str-sliced at a continuation byte).
    let hits = links("shrug ¯\\_(ツ)_/¯ then https://a.io done");
    assert_eq!(hits.len(), 1);
}

#[test]
fn ordered_markers_cycle_word_style() {
    assert_eq!(ordered_marker(0, 2), "2.");
    assert_eq!(ordered_marker(1, 1), "a.");
    assert_eq!(ordered_marker(1, 27), "aa.");
    assert_eq!(ordered_marker(2, 4), "iv.");
    assert_eq!(ordered_marker(2, 9), "ix.");
    assert_eq!(ordered_marker(3, 2), "2."); // cycle restarts
}

#[test]
fn table_style_markers_parse() {
    assert_eq!(
        table_style_marker("<!-- table:striped -->"),
        Some(TableStyle::Striped)
    );
    assert_eq!(table_style_marker("<!-- math:left -->"), None);
    assert_eq!(table_style_marker("plain text"), None);
}

#[test]
fn code_spans_close_at_a_run_of_their_length() {
    assert!(links("``https://x.io``").is_empty());
    assert!(links("`` a ` #tag ` https://x.io ``").is_empty());
    assert!(links("`[[Page]]`").is_empty());
    // A run that nothing closes is text, whole.
    assert_eq!(
        links("``https://example.io`"),
        vec![(2..20, LinkHit::Url("https://example.io".into()))]
    );
    // Behind the closing run links count again.
    assert_eq!(
        links("```x``` #tag"),
        vec![(8..12, LinkHit::Page("tag".into()))]
    );
}

#[test]
fn a_pair_alone_on_its_line_is_not_embedded() {
    assert_eq!(embedded_math("$$y$$"), None);
    assert_eq!(embedded_math("  $$y$$  "), None);
    assert_eq!(embedded_math("a $$y$$"), Some((2, 7)));
    assert_eq!(embedded_math("$$y$$ b"), Some((0, 5)));
    assert_eq!(embedded_math("| $$y$$ b |"), None);
}

#[test]
fn an_opener_never_pairs_into_a_code_fence() {
    for source in ["wer $$\n```\n$$ x\n```", "wer $$\n```\nx\n```\n$$ y"] {
        let out = normalize_math_fences(source);
        assert_eq!(out, source);
        assert!(matches!(out, std::borrow::Cow::Borrowed(_)));
    }
}

#[test]
fn embeds_are_found_line_by_line() {
    let (a, b) = ("![[x]]\ntext", "![[y]]\n![[x]]");
    let both = format!("{a}\n{b}");
    assert_eq!(embed_targets(a), vec!["x"]);
    assert_eq!(embed_targets(b), vec!["y", "x"]);
    assert_eq!(embed_targets(&both), vec!["x", "y", "x"]);
}

#[test]
fn the_first_block_of_an_id_is_found() {
    let page = "one\ntwo ^a\nthree ^a";
    assert_eq!(extract_block(page, "a"), Some(4..10));
    assert_eq!(extract_block(page, "b"), None);
}

#[test]
fn a_section_passes_over_fenced_headings() {
    let page = "# A\n```\n# B\n```\n## C\nx\n# D";
    assert_eq!(extract_section(page, "a"), Some(0..22));
    assert_eq!(&page[22..], "\n# D");
}
