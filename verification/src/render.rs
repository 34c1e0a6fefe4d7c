//! A page from its source: what the host asks for, and what it is shown.
use crate::blocks::{paint_page, painted};
use crate::cache::{
    after_frame, clock_after_frame, holds, is_faithful, parse_for_render, ParseCache,
};
use crate::cheap::is_cheap;
use crate::inline::{Host, Known};
use crate::math::{cow_text, normalize_math_fences, normalized};
use crate::ops::{op_views, Op};
use crate::page::{Embed, Embedded, MarkdownView, ViewState};
use crate::parse::markdown_blocks;
use crate::text::{views, Text};
use crate::tree::Tree;
use vstd::prelude::*;

verus! {

/// What `s` is shown as: its blocks, if it parses and is either known already or
/// cheap to parse.
pub open spec fn ready(known: bool, s: Seq<char>) -> Option<Seq<Tree>> {
    if known || is_cheap(s) {
        markdown_blocks(s, true)
    } else {
        None
    }
}

/// A page with nothing asked for.
pub open spec fn bare(source: Seq<char>) -> ViewState {
    ViewState {
        source,
        host: Known { labels: seq![], refs: seq![], spacers: seq![] },
        embeds: seq![],
        widths: seq![],
        folded: seq![],
        query: None,
        current: 0,
        math: false,
        mermaid: false,
        images: false,
        embed_images: false,
        heading_toggle: false,
        task_toggle: false,
        alert_toggle: false,
    }
}

impl MarkdownView {
    /// The page of `source`, with nothing asked for.
    pub fn new(source: &str) -> (r: MarkdownView)
        ensures
            r@ == bare(source@),
    {
        let r = MarkdownView {
            source: source.to_owned(),
            host: Host { labels: Vec::new(), refs: Vec::new(), spacers: Vec::new() },
            embeds: Vec::new(),
            widths: Vec::new(),
            folded: Vec::new(),
            query: None,
            current: 0,
            math: false,
            mermaid: false,
            images: false,
            embed_images: false,
            heading_toggle: false,
            task_toggle: false,
            alert_toggle: false,
        };
        assert(r@.host.labels =~= seq![]);
        assert(r@.host.refs =~= seq![]);
        assert(r@.host.spacers =~= seq![]);
        assert(r@.embeds =~= seq![]);
        assert(r@.widths =~= seq![]);
        assert(r@.folded =~= seq![]);
        r
    }

    /// Highlights `query` in the visible text and emphasizes the `current`-th
    /// match; an empty query highlights nothing.
    pub fn search(self, query: &str, current: usize) -> (r: MarkdownView)
        ensures
            r@ == (ViewState {
                query: if query@.len() == 0 {
                    None
                } else {
                    Some(query@)
                },
                current: current as int,
                ..self@
            }),
    {
        let mut r = self;
        let t = Text::new(query);
        r.query = if t.chars.len() == 0 {
            None
        } else {
            Some(query.to_owned())
        };
        r.current = current;
        r
    }

    /// Folds the headings with these fold keys, their trimmed source lines.
    pub fn folded_headings(self, folded: Vec<String>) -> (r: MarkdownView)
        ensures
            r@ == (ViewState { folded: views(folded@), ..self@ }),
    {
        let mut r = self;
        r.folded = folded;
        r
    }

    /// The host renders `$$…$$` formulas.
    pub fn on_math(self) -> (r: MarkdownView)
        ensures
            r@ == (ViewState { math: true, ..self@ }),
    {
        let mut r = self;
        r.math = true;
        r
    }

    /// The host renders mermaid diagrams.
    pub fn on_mermaid(self) -> (r: MarkdownView)
        ensures
            r@ == (ViewState { mermaid: true, ..self@ }),
    {
        let mut r = self;
        r.mermaid = true;
        r
    }

    /// The host renders standalone images.
    pub fn on_image(self) -> (r: MarkdownView)
        ensures
            r@ == (ViewState { images: true, ..self@ }),
    {
        let mut r = self;
        r.images = true;
        r
    }

    /// The host renders the images inside embeds.
    pub fn on_embed_image(self) -> (r: MarkdownView)
        ensures
            r@ == (ViewState { embed_images: true, ..self@ }),
    {
        let mut r = self;
        r.embed_images = true;
        r
    }

    /// A click on a heading's chevron is handled.
    pub fn on_heading_toggle(self) -> (r: MarkdownView)
        ensures
            r@ == (ViewState { heading_toggle: true, ..self@ }),
    {
        let mut r = self;
        r.heading_toggle = true;
        r
    }

    /// A click on a task's checkbox is handled.
    pub fn on_task_toggle(self) -> (r: MarkdownView)
        ensures
            r@ == (ViewState { task_toggle: true, ..self@ }),
    {
        let mut r = self;
        r.task_toggle = true;
        r
    }

    /// A click on a foldable callout's title is handled.
    pub fn on_alert_toggle(self) -> (r: MarkdownView)
        ensures
            r@ == (ViewState { alert_toggle: true, ..self@ }),
    {
        let mut r = self;
        r.alert_toggle = true;
        r
    }

    /// What the host resolves the embed `target` to. The content is parsed as
    /// far as a frame may: an expensive one shows as plain text until something
    /// has parsed it into the cache.
    pub fn on_embed(
        self,
        cache: &mut ParseCache,
        target: String,
        label: String,
        content: String,
    ) -> (r: MarkdownView)
        requires
            old(cache).wf(),
            old(cache).clock < u64::MAX - 2,
            is_faithful(old(cache).slots()),
        ensures
            final(cache).wf(),
            is_faithful(final(cache).slots()),
            final(cache).slots() == after_frame(
                old(cache).slots(),
                content@,
                old(cache).clock as int,
            ),
            final(cache).clock == clock_after_frame(
                old(cache).slots(),
                content@,
                old(cache).clock as int,
            ),
            r@ == (ViewState {
                embeds: self@.embeds.push(
                    Embedded {
                        target: target@,
                        label: label@,
                        content: content@,
                        blocks: ready(holds(old(cache).slots(), content@), content@),
                    },
                ),
                ..self@
            }),
    {
        let mut r = self;
        let blocks = parse_for_render(cache, content.as_str());
        let embed = Embed { target, label, content, blocks };
        let ghost more = embed@;
        r.embeds.push(embed);
        assert(r@.embeds =~= self@.embeds.push(more));
        r
    }

    /// What is shown of the page in a frame. Fences with words beside their
    /// dollars are put on lines of their own first; what is too expensive to
    /// parse in a frame, and what does not parse, shows as plain text.
    pub fn render(&self, cache: &mut ParseCache) -> (r: Vec<Op>)
        requires
            old(cache).wf(),
            old(cache).clock < u64::MAX - 2,
            is_faithful(old(cache).slots()),
        ensures
            final(cache).wf(),
            is_faithful(final(cache).slots()),
            final(cache).slots() == after_frame(
                old(cache).slots(),
                normalized(self@.source),
                old(cache).clock as int,
            ),
            final(cache).clock == clock_after_frame(
                old(cache).slots(),
                normalized(self@.source),
                old(cache).clock as int,
            ),
            op_views(r@) == painted(
                ready(
                    holds(old(cache).slots(), normalized(self@.source)),
                    normalized(self@.source),
                ),
                self@,
                normalized(self@.source),
            ).ops,
    {
        let text = normalize_math_fences(self.source.as_str());
        let source = cow_text(&text);
        match parse_for_render(cache, source) {
            Some(blocks) => {
                let nodes: &Vec<_> = &blocks;
                paint_page(source, Some(nodes), self)
            },
            None => paint_page(source, None, self),
        }
    }
}

} // verus!
