use inkpage::alerts::{alert_fold_char, alert_prefix, toggle_alert_fold_at, AlertKind};
use inkpage::anchors::{extract_block, extract_section, split_block_anchor, split_heading_anchor};
use inkpage::anchors::{embed_line, embed_targets, find_block_line, find_heading_line};
use inkpage::clicks::{click_text, find_link, follow_link, follow_pill, value_parts, Click, Follow};
use inkpage::direction::{base_direction, contains_rtl};
use inkpage::doc::{embed_target, heading_fold_key, only_display_math};
use inkpage::find::find_matches;
use inkpage::images::all_image_srcs;
use inkpage::inline::{build_inline, BlockLabel, Host, Inline, LinkTarget, RefCount, Style};
use inkpage::caret::word_range;
use inkpage::links::{is_safe_external_url, is_tag_char, is_word_char, link_at, links, url_end};
use inkpage::links::LinkHit;
use inkpage::lists::{indent_list_line, outdent_line, reindent};
use inkpage::math::{embedded_math, math_fence_words, normalize_math_fences};
use inkpage::numbering::{decimal_string, letters, ordered_marker, roman};
use inkpage::cache::{parse_cached, ParseCache};
use inkpage::properties::{prefixed_property, property_value_segments, PropSeg};
use inkpage::rows::{mixed_properties, MixedSeg};
use inkpage::search::scan_matches;
use inkpage::snippets::snippets;
use inkpage::tables::{table_marker_text, table_style_marker, TableStyle};
use inkpage::tasks::toggle_task_at;
use inkpage::tree::{DocNode, Kind};
use std::sync::Arc;

fn blocks(source: &str) -> Arc<Vec<DocNode>> {
    parse_cached(&mut ParseCache::new(), source).unwrap()
}

#[test]
fn links_come_in_order_and_lie_apart() {
    let line = "see [[A]] and #tag, https://x.org. ((id1)) [t](u)";
    let found = links(line);
    assert_eq!(found.len(), 5);
    for pair in found.windows(2) {
        assert!(pair[0].0.end <= pair[1].0.start);
    }
    // A link is hit by every byte of it, and no other is.
    for (range, hit) in &found {
        for col in range.clone() {
            assert_eq!(link_at(line, col).as_ref(), Some(hit));
        }
    }
    assert_eq!(link_at(line, 0), None);
    assert_eq!(found[0].1, LinkHit::Page("A".into()));
    assert_eq!(found[2].1, LinkHit::Url("https://x.org".into()));
    assert_eq!(found[3].1, LinkHit::BlockRef("id1".into()));
}

#[test]
fn only_web_and_mail_addresses_open() {
    assert!(is_safe_external_url("https://x.org"));
    assert!(is_safe_external_url("HTTP://x.org"));
    assert!(is_safe_external_url("mailto:a@b"));
    assert!(!is_safe_external_url("javascript:alert(1)"));
    assert!(!is_safe_external_url("file:///etc/passwd"));
}

#[test]
fn folding_twice_changes_nothing() {
    let text = "> [!NOTE]- title\n> body";
    let once = toggle_alert_fold_at(text, 2).unwrap();
    assert_eq!(once, "> [!NOTE]+ title\n> body");
    assert_eq!(toggle_alert_fold_at(&once, 2).unwrap(), text);
    assert_eq!(toggle_alert_fold_at("> [!NOTE] x", 2), None);
    assert_eq!(alert_fold_char("> [!NOTE]- x"), Some((9, true)));
    assert!(matches!(
        alert_prefix("[!TIP]+ x"),
        Some((AlertKind::Tip, _, Some(false)))
    ));
}

#[test]
fn a_task_ticked_twice_is_as_it_was() {
    let text = "- [ ] one\n- [x] two";
    let once = toggle_task_at(text, 0).unwrap();
    assert_eq!(once, "- [x] one\n- [x] two");
    assert_eq!(toggle_task_at(&once, 0).unwrap(), text);
    assert_eq!(toggle_task_at("- plain", 0), None);
}

#[test]
fn outdenting_undoes_an_indent() {
    let (more, at) = indent_list_line("- a\n- b", 6, "  ").unwrap();
    assert_eq!(outdent_line(&more, at, "  "), Some(("- a\n- b".into(), 6)));
    // Only leading spaces are touched.
    assert_eq!(reindent("    - a  b", 4, 2).unwrap(), "  - a  b");
}

#[test]
fn fences_keep_the_text() {
    let out = normalize_math_fences("a $$\nx\n$$ b");
    assert_eq!(out.as_ref(), "a\n$$\nx\n$$\nb");
    assert_eq!(normalize_math_fences("no fences").as_ref(), "no fences");
}

#[test]
fn markers_cycle_with_the_depth() {
    assert_eq!(ordered_marker(0, 4), "4.");
    assert_eq!(ordered_marker(1, 4), "d.");
    assert_eq!(ordered_marker(2, 4), "iv.");
    assert_eq!(ordered_marker(3, 4), ordered_marker(0, 4));
    assert_eq!(letters(27), "aa");
    assert_eq!(roman(1994), "mcmxciv");
    assert_eq!(decimal_string(120), "120");
}

#[test]
fn anchors_split_and_join() {
    assert_eq!(split_block_anchor("Page#^ab"), ("Page", Some("ab")));
    assert_eq!(split_block_anchor("Page"), ("Page", None));
    assert_eq!(split_heading_anchor("Page#Top"), ("Page", Some("Top")));
    let text = "# A\none\n## B\ntwo ^x1\n# C\n";
    let section = extract_section(text, "A").unwrap();
    assert_eq!(&text[section], "# A\none\n## B\ntwo ^x1");
    let block = extract_block(text, "x1").unwrap();
    assert!(text[block].contains("two"));
    assert_eq!(find_heading_line(text, "C"), Some(21));
    assert_eq!(find_block_line(text, "x1"), Some(13));
    assert_eq!(find_block_line(text, "nope"), None);
}

#[test]
fn embeds_stand_on_their_own_lines() {
    assert_eq!(embed_line("  ![[A]]  "), Some("A"));
    assert_eq!(embed_line("x ![[A]]"), None);
    assert_eq!(embed_targets("![[A]]\ntext\n![[B#^x]]"), vec!["A", "B#^x"]);
    assert_eq!(embed_target(&blocks("![[A]]")[0].children), Some("A".into()));
    assert_eq!(embed_target(&blocks("see ![[A]]")[0].children), None);
}

#[test]
fn a_style_reads_back_from_its_marker() {
    for style in [
        TableStyle::Striped,
        TableStyle::Header,
        TableStyle::Minimal,
        TableStyle::Grid,
    ] {
        let line = table_marker_text(style, &[40]).unwrap();
        assert_eq!(table_style_marker(&line), Some(style));
    }
    assert_eq!(
        table_marker_text(TableStyle::Striped, &[-3]),
        Some("<!-- table:striped cols=-3 -->".into())
    );
}

#[test]
fn a_line_with_rtl_text_has_an_rtl_char() {
    assert!(base_direction("سلام world").is_rtl());
    assert!(!base_direction("world سلام").is_rtl());
    assert!(contains_rtl("world سلام"));
    assert!(!contains_rtl("world"));
}

#[test]
fn values_break_into_text_and_pills() {
    let parts = property_value_segments("[[Bob|B]], #x and text");
    assert_eq!(parts.len(), 4);
    assert_eq!(
        parts[0],
        PropSeg::Pill {
            label: "B".into(),
            target: LinkHit::Page("Bob".into()),
            is_tag: false
        }
    );
    assert!(matches!(&parts[2], PropSeg::Pill { is_tag: true, label, .. } if label == "x"));
    assert_eq!(value_parts("plain"), vec![PropSeg::Text("plain".into())]);
    let (prefix, key, value) = prefixed_property("- due:: friday").unwrap();
    assert_eq!((prefix, key, value), ("- ", "due", "friday"));
}

#[test]
fn prose_and_properties_part_ways() {
    let src = "intro line\nk:: v";
    let doc = blocks(src);
    let pieces = mixed_properties(&doc[0].at, &doc[0].children, src).unwrap();
    assert_eq!(pieces.len(), 2);
    match (&pieces[0], &pieces[1]) {
        (MixedSeg::Prose(p), MixedSeg::Props(rows)) => {
            assert_eq!(p[0].kind, Kind::Text("intro line".into()));
            assert_eq!((rows[0].key.as_str(), rows[0].value.as_str()), ("k", "v"));
        }
        other => panic!("{other:?}"),
    }
    assert!(mixed_properties(&doc[0].at, &doc[0].children, "just text").is_none());
}

#[test]
fn no_match_is_missed_and_none_overlap() {
    let text = "abABab";
    let found = scan_matches(text, "ab");
    assert_eq!(found, vec![0..2, 2..4, 4..6]);
    assert_eq!(find_matches("ab\n\nAB", "ab"), vec![0, 1]);
}

fn inline_with(source: &str, host: &Host) -> Inline {
    let mut out = Inline::new();
    build_inline(&blocks(source)[0].children, Style::default(), host, &vec![], &mut out);
    out
}

#[test]
fn blocks_are_named_and_counted_by_the_host() {
    let host = Host {
        labels: vec![BlockLabel {
            page: "Page".into(),
            id: "ab".into(),
            label: "first line".into(),
        }],
        refs: vec![RefCount {
            id: "zz".into(),
            count: 3,
        }],
        spacers: vec![],
    };
    assert!(inline_with("see [[Page#^ab]]", &host).text.contains("first line"));
    assert_eq!(inline_with("text ^zz", &host).text.contains('³'), true);
}

#[test]
fn a_click_follows_links_and_places_the_caret() {
    let host = Host {
        labels: vec![],
        refs: vec![],
        spacers: vec![],
    };
    let inl = inline_with("go [[A]] now", &host);
    assert_eq!(inl.text, "go A now");
    assert_eq!(find_link(&inl, 3), Some(0));
    assert_eq!(find_link(&inl, 0), None);
    assert_eq!(click_text(&inl, None, 3), Click::Link);
    assert_eq!(click_text(&inl, None, 5), Click::Caret(9));
    assert_eq!(
        follow_link(Some(&inl.links[0].1), true),
        Follow::Page("A".into())
    );
    assert_eq!(follow_link(Some(&inl.links[0].1), false), Follow::Nothing);
    let bad = LinkTarget::Url("javascript:x".to_string());
    assert_eq!(follow_link(Some(&bad), true), Follow::Nothing);
    assert_eq!(
        follow_pill(&LinkHit::Url("https://x.org".into()), true),
        Follow::Url("https://x.org".into())
    );
}

#[test]
fn headings_are_folded_by_their_lines() {
    let src = "## Goals\n\ntext";
    let doc = blocks(src);
    assert_eq!(heading_fold_key(&doc[0].at, src), Some("## Goals".into()));
}

#[test]
fn one_display_formula_stands_out() {
    let src = "words $$x$$ more";
    let kids = blocks(src);
    assert_eq!(only_display_math(&kids[0].children, src), Some(1));
    let two = "a $$x$$ b $$y$$";
    assert_eq!(only_display_math(&blocks(two)[0].children, two), None);
}

#[test]
fn every_image_source_is_listed() {
    assert_eq!(
        all_image_srcs("text ![](a.png)\n\n- ![](b.png) and ![](c.png)"),
        vec!["a.png", "b.png", "c.png"]
    );
}

#[test]
fn carets_of_snippets_lie_inside() {
    for s in snippets() {
        assert!(s.caret <= s.snippet.len(), "{}", s.label);
    }
}

#[test]
fn headings_are_found_in_any_case() {
    let text = "intro\n## ÄRGER und Éclat\n";
    assert_eq!(find_heading_line(text, " ärger UND éclat "), Some(6));
    assert_eq!(find_heading_line(text, "nope"), None);
}

#[test]
fn letters_of_any_script_give_a_direction() {
    // The first strong letter decides; digits and signs do not.
    assert!(!base_direction("12 Ж سلام").is_rtl());
    assert!(base_direction("12 · سلام Ж").is_rtl());
}

#[test]
fn words_reach_over_letters_of_any_script() {
    assert_eq!(word_range("ab żółw_9 c", 5), (3, 12));
}

#[test]
fn addresses_end_before_punctuation() {
    assert_eq!(url_end("go https://x.org/a, then", 3), 18);
    assert!(is_tag_char(b'-') && !is_tag_char(b' '));
    assert!(is_word_char(b'a') && !is_word_char(b'#'));
}

#[test]
fn dollars_open_close_and_pair() {
    assert_eq!(math_fence_words("words $$"), Some(true));
    assert_eq!(math_fence_words("$$ words"), Some(false));
    assert_eq!(math_fence_words("$$"), None);
    assert_eq!(embedded_math("a $$x$$ b"), Some((2, 7)));
    assert_eq!(embedded_math("fees $$5 and $$10"), None);
    assert_eq!(TableStyle::from_name("striped"), Some(TableStyle::Striped));
    assert_eq!(TableStyle::from_name("none"), None);
}
