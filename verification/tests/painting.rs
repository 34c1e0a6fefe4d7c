use inkpage::cache::{needs_warm, warm_parse, ParseCache};
use inkpage::cheap::MAX_TABLE_ROWS;
use inkpage::find::match_count;
use inkpage::inline::Ink;
use inkpage::math::MathMarkerAlign;
use inkpage::ops::{Marker, Op};
use inkpage::page::{heading_scale, MarkdownView};
use inkpage::alerts::AlertKind;
use inkpage::tables::TableStyle;
use inkpage::theme::{AlertIcons, Labels, MarkdownStyle};

fn shown(page: &MarkdownView) -> Vec<Op> {
    page.render(&mut ParseCache::new())
}

fn paint(source: &str) -> Vec<Op> {
    shown(&MarkdownView::new(source))
}

fn texts(ops: &[Op]) -> Vec<&str> {
    ops.iter()
        .filter_map(|op| match op {
            Op::Inline { shown, .. } => Some(shown.text.as_str()),
            _ => None,
        })
        .collect()
}

/// Everything that is opened is closed.
fn balanced(ops: &[Op]) -> bool {
    let mut open = 0i32;
    for op in ops {
        match op {
            Op::Close => open -= 1,
            Op::OpenColumn
            | Op::OpenHeading { .. }
            | Op::OpenList { .. }
            | Op::OpenItem { .. }
            | Op::OpenCallout { .. }
            | Op::OpenQuote { .. }
            | Op::OpenTable { .. }
            | Op::OpenRow { .. }
            | Op::OpenCell { .. }
            | Op::OpenFootnote(_)
            | Op::OpenEmbed { .. } => open += 1,
            _ => {}
        }
        if open < 0 {
            return false;
        }
    }
    open == 0
}

const EVERYTHING: &str = "# Title\n\nprose with [[Link]]\n\n- one\n  1. two\n- [x] done\n\n\
> [!NOTE]- folded\n> body\n\n> quote\n\n| a | b |\n|---|---|\n| 1 | 2 |\n\n```rs\ncode\n```\n\n\
---\n\n$$\nx\n$$\n\nk:: v\n\n![alt](x.png)\n\n[^1]: note\n";

#[test]
fn a_page_is_painted_whole() {
    let ops = paint(EVERYTHING);
    assert!(balanced(&ops));
    let all = texts(&ops);
    for text in ["Title", "prose with Link", "one", "two", "done", "quote", "a", "2"] {
        assert!(all.contains(&text), "{text}: {all:?}");
    }
}

#[test]
fn headings_open_with_their_depth() {
    let ops = paint("## Goals");
    assert!(matches!(&ops[0], Op::OpenHeading { depth: 2, fold: None, .. }));
    assert_eq!(texts(&ops), vec!["Goals"]);
}

#[test]
fn a_folded_heading_hides_its_section() {
    let source = "# A\n\nhidden\n\n## B\n\nalso\n\n# C\n\nseen";
    let page = MarkdownView::new(source)
        .on_heading_toggle()
        .folded_headings(vec!["# A".to_string()]);
    let ops = shown(&page);
    assert_eq!(texts(&ops), vec!["A", "C", "seen"]);
    assert!(matches!(&ops[0], Op::OpenHeading { fold: Some((key, true)), .. } if key == "# A"));
}

#[test]
fn lists_number_nest_and_tick() {
    let ops = paint("3. a\n4. b\n   - c\n\n- [ ] t");
    let markers: Vec<&Marker<String>> = ops
        .iter()
        .filter_map(|op| match op {
            Op::OpenItem { marker, .. } => Some(marker),
            _ => None,
        })
        .collect();
    assert_eq!(markers.len(), 4);
    assert!(matches!(markers[0], Marker::Number(_)));
    assert!(matches!(markers[2], Marker::Bullet));
    assert!(matches!(markers[3], Marker::Task { done: false, at: None }));
    // With a handler the box says where its item stands.
    let live = shown(&MarkdownView::new("- [ ] t").on_task_toggle());
    assert!(live.iter().any(|op| matches!(
        op,
        Op::OpenItem {
            marker: Marker::Task {
                done: false,
                at: Some(0)
            },
            ..
        }
    )));
}

#[test]
fn callouts_fold_and_quotes_do_not() {
    let ops = paint("> [!TIP]- title\n> body");
    assert!(matches!(
        &ops[0],
        Op::OpenCallout {
            kind: AlertKind::Tip,
            folded: Some(true),
            ..
        }
    ));
    assert!(matches!(&paint("> plain")[0], Op::OpenQuote { .. }));
}

#[test]
fn a_marker_styles_the_next_table() {
    let ops = paint("<!-- table:striped -->\n\n| a | b |\n|---|---|\n| 1 | 2 |");
    assert!(matches!(
        &ops[0],
        Op::OpenTable {
            style: TableStyle::Striped,
            columns: 2,
            ..
        }
    ));
    let plain = paint("| a |\n|---|\n| 1 |");
    assert!(matches!(&plain[0], Op::OpenTable { style: TableStyle::Grid, .. }));
}

#[test]
fn formulas_show_typeset_or_raw() {
    let source = "<!-- math:left -->\n$$\nx^2\n$$";
    let ops = shown(&MarkdownView::new(source).on_math());
    assert!(ops.iter().any(|op| matches!(
        op,
        Op::Formula { latex, side: Some(MathMarkerAlign::Left) } if latex == "x^2"
    )));
    assert!(paint(source).iter().any(|op| matches!(op, Op::RawMath(s) if s == "x^2")));
}

#[test]
fn diagrams_show_where_the_host_draws_them() {
    let source = "```mermaid\ngraph\n```";
    assert!(matches!(&paint(source)[0], Op::Code { .. }));
    let ops = shown(&MarkdownView::new(source).on_mermaid());
    assert!(matches!(&ops[0], Op::Mermaid(s) if s == "graph"));
}

#[test]
fn images_show_where_the_host_draws_them() {
    let ops = shown(&MarkdownView::new("![alt](x.png)").on_image());
    assert!(matches!(&ops[0], Op::Image { info, .. } if info.src == "x.png"));
    assert!(!paint("![alt](x.png)").iter().any(|op| matches!(op, Op::Image { .. })));
}

#[test]
fn embeds_show_their_pages() {
    let mut cache = ParseCache::new();
    let page = MarkdownView::new("![[A]]\n\n![[B]]").on_embed(
        &mut cache,
        "A".to_string(),
        "Label".to_string(),
        "inner *text*".to_string(),
    );
    let ops = page.render(&mut cache);
    assert!(matches!(&ops[0], Op::OpenEmbed { target, label } if target == "A" && label == "Label"));
    assert!(texts(&ops).contains(&"inner text"));
    // What the host does not know is no embed.
    assert_eq!(ops.iter().filter(|op| matches!(op, Op::OpenEmbed { .. })).count(), 1);
    assert!(balanced(&ops));
}

#[test]
fn pages_that_embed_each_other_come_to_an_end() {
    let mut cache = ParseCache::new();
    let page = MarkdownView::new("![[A]]").on_embed(
        &mut cache,
        "A".to_string(),
        "A".to_string(),
        "![[A]]".to_string(),
    );
    let ops = page.render(&mut cache);
    assert_eq!(ops.iter().filter(|op| matches!(op, Op::OpenEmbed { .. })).count(), 3);
}

fn marked(ops: &[Op], ink: Ink) -> usize {
    ops.iter()
        .map(|op| match op {
            Op::Inline { shown, .. } => shown
                .highlights
                .iter()
                .filter(|h| h.1.background == Some(ink))
                .count(),
            _ => 0,
        })
        .sum()
}

#[test]
fn a_search_paints_what_it_counts() {
    let source = "# one\n\none and one\n\n- none";
    let ops = shown(&MarkdownView::new(source).search("one", 1));
    assert_eq!(match_count(source, "one"), 4);
    assert_eq!(marked(&ops, Ink::Match), 3);
    assert_eq!(marked(&ops, Ink::CurrentMatch), 1);
    let ops = shown(&MarkdownView::new(source).search("", 0));
    assert_eq!(marked(&ops, Ink::Match) + marked(&ops, Ink::CurrentMatch), 0);
}

#[test]
fn folded_callouts_and_property_panels_hold_no_matches() {
    for (source, count) in [
        ("> [!NOTE]- one\n> one\n\none", 1),
        ("> [!NOTE]+ t\n> one\n\none", 2),
        ("one:: one\ntwo:: one\n\none", 1),
        ("some one\nkey:: one", 1),
    ] {
        let ops = shown(&MarkdownView::new(source).search("one", 0));
        assert_eq!(match_count(source, "one"), count, "{source}");
        assert_eq!(
            marked(&ops, Ink::Match) + marked(&ops, Ink::CurrentMatch),
            count,
            "{source}"
        );
    }
}

#[test]
fn an_expensive_page_shows_as_text_until_it_is_warm() {
    let source = format!(
        "| a | b |\n|---|---|\n{}",
        "| one | two |\n".repeat(MAX_TABLE_ROWS + 1)
    );
    let mut cache = ParseCache::new();
    let page = MarkdownView::new(&source);
    let ops = page.render(&mut cache);
    assert!(matches!(&ops[..], [Op::Plain(s)] if *s == source));
    assert!(needs_warm(&mut cache, &source));
    warm_parse(&mut cache, &source);
    assert!(matches!(&page.render(&mut cache)[0], Op::OpenTable { .. }));
}

#[test]
fn properties_stand_in_a_panel() {
    let ops = paint("k:: v\nother:: w");
    assert!(matches!(&ops[0], Op::Properties { rows, .. } if rows.len() == 2));
}

#[test]
fn words_beside_dollars_do_not_spoil_a_formula() {
    let ops = shown(&MarkdownView::new("wer $$\nx+y\n$$ wer").on_math());
    assert!(ops.iter().any(|op| matches!(op, Op::Formula { latex, .. } if latex == "x+y")));
    assert_eq!(texts(&ops), vec!["wer", "wer"]);
}

#[test]
fn a_page_s_own_handlers_stay_out_of_its_embeds() {
    let mut cache = ParseCache::new();
    let page = MarkdownView::new("![[A]]\n\n> [!NOTE]+ t\n> b")
        .on_alert_toggle()
        .on_image()
        .on_embed(
            &mut cache,
            "A".to_string(),
            "A".to_string(),
            "> [!NOTE]+ t\n> b\n\n![x](y.png)".to_string(),
        );
    let live: Vec<bool> = page
        .render(&mut cache)
        .iter()
        .filter_map(|op| match op {
            Op::OpenCallout { live, .. } => Some(*live),
            _ => None,
        })
        .collect();
    assert_eq!(live, vec![false, true]);
    let images = |ops: Vec<Op>| ops.iter().filter(|op| matches!(op, Op::Image { .. })).count();
    assert_eq!(images(page.render(&mut cache)), 0);
    assert_eq!(images(page.on_embed_image().render(&mut cache)), 1);
}

#[test]
fn headings_shrink_with_their_depth() {
    let scales: Vec<u32> = (1..=7).map(heading_scale).collect();
    assert_eq!(scales, vec![180, 150, 130, 115, 105, 100, 100]);
}

#[test]
fn parts_have_their_colours() {
    let style = MarkdownStyle::default();
    assert_eq!(Ink::Mark.color(&style), 0xffd60066);
    assert_eq!(Ink::CurrentMatch.color(&style), 0xff9500dd);
    assert_eq!(AlertKind::Caution.color(&style.alerts), 0xf85149ff);
    let icons = AlertIcons {
        note: "n.svg".to_string(),
        tip: "t.svg".to_string(),
        important: "i.svg".to_string(),
        warning: "w.svg".to_string(),
        caution: "c.svg".to_string(),
    };
    assert_eq!(AlertKind::Tip.icon(&icons), "t.svg");
    assert_eq!(Labels::default().code_copy, "Copy");
}
