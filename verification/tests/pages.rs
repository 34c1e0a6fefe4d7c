use inkpage::alerts::{alert_marker, AlertKind};
use inkpage::cache::{needs_warm, parse_cached, parse_for_render, warm_parse, ParseCache};
use inkpage::cache::PARSE_CACHE_CAP;
use inkpage::cheap::MAX_TABLE_ROWS;
use inkpage::doc::{alert_children, collect_definitions};
use inkpage::find::{find_matches, match_count};
use inkpage::images::{image_caption, images, leading_image, parse_leading_width};
use inkpage::inline::{build_inline, Host, Ink, Inline, LinkTarget, Style};
use inkpage::overlay::{map_to_source, overlay_search};
use inkpage::properties::property;
use inkpage::rows::{clip_nodes, property_rows};
use inkpage::tables::{table_col_widths, table_marker_text, table_style_marker, TableStyle};
use inkpage::tree::{copy_nodes, DocNode, Kind};
use std::sync::Arc;

fn blocks(source: &str) -> Arc<Vec<DocNode>> {
    parse_cached(&mut ParseCache::new(), source).unwrap()
}

fn nobody() -> Host {
    Host {
        labels: vec![],
        refs: vec![],
        spacers: vec![],
    }
}

fn inline(nodes: &[DocNode], defs: &Vec<(String, String)>) -> Inline {
    let mut out = Inline::new();
    build_inline(nodes, Style::default(), &nobody(), defs, &mut out);
    out
}

fn leaf(kind: Kind<String>) -> DocNode {
    DocNode {
        kind,
        children: vec![],
        align: vec![],
        at: None,
    }
}

fn inline_of(text: &str) -> Inline {
    inline(&[leaf(Kind::Text(text.into()))], &vec![])
}

fn first_para(source: &str) -> Vec<DocNode> {
    for n in blocks(source).iter() {
        if n.kind == Kind::Paragraph {
            return copy_nodes(&n.children);
        }
    }
    vec![]
}

/// A width that reads as a positive number.
fn positive(number: &str) -> Option<f32> {
    number.trim().parse::<f32>().ok().filter(|w| *w > 0.0)
}

fn widths(text: &str) -> Option<Vec<f32>> {
    table_col_widths(text)?.iter().map(|w| positive(w)).collect()
}

fn width_of(s: &str) -> Option<(f32, &str)> {
    let (number, rest) = parse_leading_width(s)?;
    Some((positive(&number)?, rest))
}

fn rounded(widths: &[f32]) -> Vec<i64> {
    widths.iter().map(|w| w.round() as i64).collect()
}

#[test]
fn table_style_marker_parses() {
    assert_eq!(
        table_style_marker("<!-- table:striped -->"),
        Some(TableStyle::Striped)
    );
    assert_eq!(
        table_style_marker("<!--table:header-->"),
        Some(TableStyle::Header)
    );
    assert_eq!(table_style_marker("<!-- table:nope -->"), None);
    assert_eq!(table_style_marker("<!-- ordinary -->"), None);
    // Width attributes ride along without breaking the style parse.
    assert_eq!(
        table_style_marker("<!-- table:striped cols=120,80 -->"),
        Some(TableStyle::Striped)
    );
    assert_eq!(
        widths("<!-- table:grid cols=120,80.5 -->"),
        Some(vec![120.0, 80.5])
    );
    assert_eq!(widths("<!-- table:grid -->"), None);
    assert_eq!(widths("<!-- table:grid cols=x,1 -->"), None);
    assert_eq!(widths("<!-- table:grid cols=0,1 -->"), None);
    // Grid with no widths needs no marker at all.
    assert_eq!(table_marker_text(TableStyle::Grid, &[]), None);
    assert_eq!(
        table_marker_text(TableStyle::Grid, &rounded(&[100.4, 50.0])),
        Some("<!-- table:grid cols=100,50 -->".to_string())
    );
    assert_eq!(
        table_marker_text(TableStyle::Minimal, &[]),
        Some("<!-- table:minimal -->".to_string())
    );
}

#[test]
fn match_count_searches_visible_text_not_markup() {
    // Markup is stripped: the word is found, the syntax isn't.
    assert_eq!(match_count("**bold** and _italic_", "bold"), 1);
    assert_eq!(match_count("**bold**", "*"), 0);
    // Across blocks, case-insensitive (heading + paragraph).
    assert_eq!(match_count("# Title\n\nthe title here", "title"), 2);
    // List items + table cells are searched; nested too.
    assert_eq!(match_count("- one\n- two one", "one"), 2);
    assert_eq!(match_count("| a | one |\n|---|---|\n| one | b |", "one"), 2);
    assert_eq!(match_count("", "x"), 0);
    // A fenced code block is NOT searched (renders text directly).
    assert_eq!(match_count("```\nsecret\n```", "secret"), 0);
}

#[test]
fn find_matches_reports_block_indices() {
    // Heading is block 0 (1 match), paragraph is block 1 (2 matches).
    assert_eq!(
        find_matches("# title here\n\nthe title and a title", "title"),
        vec![0, 1, 1]
    );
    // A code block holds block index 0 (no inline text), shifting the paragraph
    // with the matches to block 1 — so the host scrolls to the right child.
    assert_eq!(
        find_matches("```\ncode\n```\n\nfind me, find", "find"),
        vec![1, 1]
    );
    assert!(find_matches("x", "").is_empty());
}

#[test]
fn source_map_maps_rendered_clicks_back_to_source() {
    // "See [[Foo]] now" renders "See Foo now"; clicking past the (stripped) link
    // must land on the matching source byte.
    let src = "See [[Foo]] now";
    let inl = inline(&first_para(src), &vec![]);
    assert_eq!(inl.text, "See Foo now");
    let rendered_now = inl.text.find("now").unwrap(); // 8
    let s = map_to_source(&inl.source_map, rendered_now).unwrap();
    assert_eq!(&src[s..s + 3], "now");
    // Plain head maps 1:1.
    assert_eq!(map_to_source(&inl.source_map, 1), Some(1));
}

#[test]
fn map_to_source_interpolates_and_handles_empty() {
    let map = vec![(0, 0), (4, 6), (7, 11)];
    assert_eq!(map_to_source(&map, 2), Some(2)); // 0 + 2
    assert_eq!(map_to_source(&map, 5), Some(7)); // 6 + (5-4)
    assert_eq!(map_to_source(&map, 9), Some(13)); // 11 + (9-7)
    assert!(map_to_source(&[], 3).is_none());
}

#[test]
fn overlay_splits_and_merges_overlap() {
    // A match (2..6) overlapping a bold run (0..4) → three sorted, non-overlapping
    // segments: bold-only, bold+bg, bg-only.
    let fmt = vec![(
        0..4,
        Style {
            bold: true,
            ..Style::default()
        },
    )];
    let search = vec![(2..6, Ink::Match)];
    let out = overlay_search(fmt, &search);
    assert_eq!(out.len(), 3);
    assert_eq!(out[0].0, 0..2);
    assert!(out[0].1.background.is_none() && out[0].1.bold);
    assert_eq!(out[1].0, 2..4);
    assert!(out[1].1.background.is_some() && out[1].1.bold);
    assert_eq!(out[2].0, 4..6);
    assert!(out[2].1.background.is_some() && !out[2].1.bold);
}

#[test]
fn property_block_detected_with_value_offsets() {
    let src = "attendees:: Bob\ntime:: 3pm";
    let r = blocks(src);
    assert_eq!(r[0].kind, Kind::Paragraph);
    let rows = property_rows(&r[0].at, src).expect("all lines are properties");
    assert_eq!(rows.len(), 2);
    assert_eq!(rows[0].key, "attendees");
    assert_eq!(rows[0].value, "Bob");
    // Value offset points at the value text in the source, not the key.
    assert_eq!(&src[rows[0].offset..rows[0].offset + 3], "Bob");
    assert_eq!(&src[rows[1].offset..rows[1].offset + 3], "3pm");

    // A paragraph with a non-property line is not a property block.
    let r2 = blocks("k:: v\njust prose");
    assert_eq!(r2[0].kind, Kind::Paragraph);
    assert!(property_rows(&r2[0].at, "k:: v\njust prose").is_none());
}

#[test]
fn mixed_property_clipping_survives_real_world_line_endings() {
    // The Logseq shape: a prose first line, then property lines — with
    // CRLF endings, a trailing space, and a two-space hard break (a
    // `Break` child), all of which real vaults carry.
    let src = "#meeting with [[IPC]] ^abc  \r\ntime:: 14:01 \r\nsubject:: EMS comms\r\nattendees::";
    let r = blocks(src);
    assert_eq!(r[0].kind, Kind::Paragraph);
    // Prose segment = line 1 (source byte range).
    let line1_end = src.find('\n').unwrap(); // includes the \r — a whole line
    let kids = clip_nodes(&r[0].children, 0, line1_end, src)
        .expect("clip must survive CRLF + trailing spaces + hard breaks");
    assert_eq!(kids.len(), 1);
    assert_eq!(
        kids[0].kind,
        Kind::Text("#meeting with [[IPC]] ^abc".to_string())
    );
    let pos = kids[0].at.unwrap();
    assert_eq!(&src[pos.start..pos.end], "#meeting with [[IPC]] ^abc");
    // And the property lines still classify (\r-tolerant).
    assert!(property("time:: 14:01 \r").is_some());
}

#[test]
fn parse_cache_hits_and_evicts() {
    let mut cache = ParseCache::new();
    // Same source → the same cached tree (pointer-equal Arc).
    let a1 = parse_cached(&mut cache, "# cache me\n\n- item").unwrap();
    let a2 = parse_cached(&mut cache, "# cache me\n\n- item").unwrap();
    assert!(Arc::ptr_eq(&a1, &a2));
    // Changed content is a different key — never a stale tree.
    let b = parse_cached(&mut cache, "# cache me\n\n- item edited").unwrap();
    assert!(!Arc::ptr_eq(&a1, &b));
    // Filling past the cap evicts the least-recently used, not the
    // just-touched entry.
    let keep = parse_cached(&mut cache, "keep me").unwrap();
    for i in 0..PARSE_CACHE_CAP {
        let _ = parse_cached(&mut cache, &format!("filler {i}"));
        let again = parse_cached(&mut cache, "keep me").unwrap(); // stays hot
        assert!(Arc::ptr_eq(&keep, &again));
    }
    // And math stays enabled through the cached options.
    let math = parse_cached(&mut cache, "$$\nx^2\n$$").unwrap();
    assert!(matches!(math.first().map(|n| &n.kind), Some(Kind::Math(_))));
}

#[test]
fn warm_parse_fills_what_a_frame_reads() {
    let mut cache = ParseCache::new();
    // Expensive-shaped, so the render path refuses to parse it inline.
    let source = format!(
        "| a | b |\n|---|---|\n{}",
        "| one | two |\n".repeat(MAX_TABLE_ROWS + 1)
    );
    assert!(needs_warm(&mut cache, &source));
    assert!(parse_for_render(&mut cache, &source).is_none());
    // Warming fills the cache…
    warm_parse(&mut cache, &source);
    // …and the next frame renders the real tree.
    assert!(!needs_warm(&mut cache, &source));
    assert!(parse_for_render(&mut cache, &source).is_some());
}

#[test]
fn alert_marker_and_strip() {
    assert!(matches!(
        alert_marker("[!NOTE]\nbody"),
        Some((AlertKind::Note, 8, None))
    ));
    assert!(matches!(
        alert_marker("[!WARNING]"),
        Some((AlertKind::Warning, 10, None))
    ));
    // Lenient form: body text on the marker line (strip includes the space).
    assert!(matches!(
        alert_marker("[!NOTE] trailing"),
        Some((AlertKind::Note, 8, None))
    ));
    // Wrong case / glued text → plain blockquote.
    assert!(alert_marker("[!note]\nbody").is_none());
    assert!(alert_marker("[!NOTEXT]").is_none());

    // End-to-end through the parser: the marker strips, its text's source
    // offset advances, and the body survives.
    let root = blocks("> [!TIP]\n> body here");
    assert_eq!(root[0].kind, Kind::Blockquote);
    let (kind, children) = alert_children(&root[0].children).expect("alert detected");
    assert_eq!(kind.label(), "Tip");
    assert_eq!(children[0].kind, Kind::Paragraph);
    let text = &children[0].children[0];
    assert_eq!(text.kind, Kind::Text("body here".to_string()));
    // Source offset advanced past "[!TIP]\n" (starts at "> " = 2, +7).
    assert_eq!(text.at.unwrap().start, 9);
}

#[test]
fn wikilinks_become_clickable_runs_without_brackets() {
    let inl = inline_of("see [[Foo]] and [[Bar]] ok");
    assert_eq!(inl.text, "see Foo and Bar ok");
    assert_eq!(inl.links.len(), 2);
    let titles: Vec<&str> = inl
        .links
        .iter()
        .map(|(r, t)| match t {
            LinkTarget::Wiki(_) => &inl.text[r.clone()],
            _ => "",
        })
        .collect();
    assert_eq!(titles, vec!["Foo", "Bar"]);
}

#[test]
fn aliased_wikilink_shows_label_links_target() {
    let inl = inline_of("jump [[file.pdf#p3|\u{2197}]] here");
    assert_eq!(inl.text, "jump \u{2197} here");
    assert_eq!(inl.links.len(), 1);
    let (range, target) = &inl.links[0];
    assert_eq!(&inl.text[range.clone()], "\u{2197}"); // displayed label
    match target {
        LinkTarget::Wiki(t) => assert_eq!(t, "file.pdf#p3"), // link target
        _ => panic!("expected wiki link"),
    }
}

#[test]
fn hashtags_become_clickable_links_targeting_bare_name() {
    let inl = inline_of("a #foo and #bar-baz end");
    assert_eq!(inl.text, "a #foo and #bar-baz end"); // display keeps the '#'
    assert_eq!(inl.links.len(), 2);
    assert_eq!(&inl.text[inl.links[0].0.clone()], "#foo");
    match (&inl.links[0].1, &inl.links[1].1) {
        (LinkTarget::Wiki(a), LinkTarget::Wiki(b)) => {
            assert_eq!(a, "foo");
            assert_eq!(b, "bar-baz");
        }
        _ => panic!("expected wiki targets"),
    }
}

#[test]
fn mark_tag_highlights_text_other_html_stays_literal() {
    // `<mark>hi</mark>`: the tags are consumed and `hi` carries the mark background.
    let html = |v: &str| leaf(Kind::Html(v.into()));
    let text = |v: &str| leaf(Kind::Text(v.into()));
    let inl = inline(&[html("<mark>"), text("hi"), html("</mark>")], &vec![]);
    assert_eq!(inl.text, "hi");
    assert!(
        inl.highlights
            .iter()
            .any(|(r, s)| &inl.text[r.clone()] == "hi" && s.background == Some(Ink::Mark)),
        "wrapped text should carry the mark background"
    );

    // Any other inline HTML is still shown literally.
    let inl2 = inline(&[html("<br>")], &vec![]);
    assert_eq!(inl2.text, "<br>");
}

#[test]
fn heading_hash_with_space_is_not_a_tag() {
    let inl = inline_of("# not a tag");
    assert!(inl.links.is_empty());
}

#[test]
fn plain_text_has_no_links() {
    let inl = inline_of("just text");
    assert_eq!(inl.text, "just text");
    assert!(inl.links.is_empty());
}

#[test]
fn empty_brackets_are_literal() {
    let inl = inline_of("a [[]] b");
    assert_eq!(inl.text, "a [[]] b");
    assert!(inl.links.is_empty());
}

#[test]
fn parse_leading_width_variants() {
    assert_eq!(width_of("{width=320}"), Some((320.0, "")));
    assert_eq!(width_of("{width=200px}\nHere"), Some((200.0, "\nHere")));
    assert_eq!(width_of("{width=0}"), None);
    assert_eq!(width_of("just text"), None);
}

#[test]
fn leading_image_detection() {
    let plain = first_para("![alt](/x.png)");
    let info = leading_image(&plain).unwrap();
    assert_eq!(info.src, "/x.png");
    assert_eq!(info.alt, "alt");
    assert_eq!(info.width, None);
    assert!(image_caption(&plain, true).is_empty());

    let nodes = first_para("![](/x.png){width=200}");
    let sized = leading_image(&nodes).unwrap();
    assert_eq!(sized.width.as_deref().and_then(positive), Some(200.0));
    // The attribute span is non-empty so a resize replaces it in place.
    let target = sized.attr_target(true);
    assert!(target.start < target.end);
    assert!(image_caption(&nodes, true).is_empty());

    // A caption typed on the next line: the image still renders, and the
    // text is returned to show below it.
    let nodes = first_para("![](/x.png){width=200}\nHere");
    let capt = leading_image(&nodes).unwrap();
    assert_eq!(capt.width.as_deref().and_then(positive), Some(200.0));
    assert!(!image_caption(&nodes, true).is_empty());

    // Text before the image isn't a leading-image block.
    assert!(leading_image(&first_para("see ![](/x.png) here")).is_none());
}

#[test]
fn images_enumerates_list_items() {
    // The real journal/page format: images live in bullet list items.
    let src = "- ![](a.jpg){width=2000}\n- ![](b.jpg)\n- text only\n- ![](c.jpg)";
    let imgs = images(src);
    assert_eq!(imgs.len(), 3); // the text-only item is skipped
    // The explicit width is parsed; its target spans the {width=N}.
    assert_eq!(imgs[0].width.as_deref().and_then(positive), Some(2000.0));
    let target = imgs[0].attr_target(true);
    assert!(target.start < target.end);
    // A width-less image reports None and an empty (insertion-point) range
    // that sits right after its `)` — so inserting `{width=N}` there is valid.
    assert_eq!(imgs[1].width, None);
    let target = imgs[1].attr_target(false);
    assert_eq!(target.start, target.end);
    assert_eq!(&src[target.start..target.start + 1], "\n");
}

#[test]
fn reference_link_resolves_against_definition() {
    let md = "[the docs][d]\n\n[d]: https://example.com";
    let mut defs: Vec<(String, String)> = vec![];
    for n in blocks(md).iter() {
        collect_definitions(n, &mut defs);
    }
    assert_eq!(
        defs.iter().find(|d| d.0 == "d").map(|d| d.1.as_str()),
        Some("https://example.com")
    );

    let inl = inline(&first_para(md), &defs);
    assert_eq!(inl.text, "the docs");
    assert_eq!(inl.links.len(), 1);
    assert!(matches!(&inl.links[0].1, LinkTarget::Url(u) if u == "https://example.com"));
}

#[test]
fn footnote_reference_renders_marker() {
    let inl = inline(&first_para("text[^1]\n\n[^1]: the note"), &vec![]);
    assert_eq!(inl.text, "text[1]");
}

#[test]
fn document_extracts_inline_text_from_blocks() {
    // Pull inline text out of heading/paragraph blocks.
    let md = "# Title\n\nSome **bold** and *italic* and `code` with [[Link]].\n\n- a\n- b\n";
    let mut text = String::new();
    for n in blocks(md).iter() {
        if !matches!(n.kind, Kind::Heading(_) | Kind::Paragraph) {
            continue;
        }
        text.push_str(&inline(&n.children, &vec![]).text);
        text.push('\n');
    }
    assert!(text.contains("Title"), "got: {text:?}");
    assert!(text.contains("bold"));
    assert!(text.contains("Link")); // [[Link]] rendered as "Link"
}
