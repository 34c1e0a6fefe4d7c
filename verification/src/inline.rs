//! Inline content: the visible text of a run of nodes, with its styles, its
//! links, and the map back to the source.
use crate::anchors::{block_anchor, block_id_of, find_block_id, heading_anchor};
use crate::anchors::{split_block_anchor, split_heading_anchor};
use crate::links::{all_id, all_id_at, tag_at, tag_run, wiki_display, wiki_ranges};
use crate::links::{wiki_target, word_at, word_edge};
use crate::numbering::{decimal, superscript, superscript_char};
use crate::text::str_is;
use crate::text::{
    ascii_lower, blen, find_pair, index_of_str, lemma_index_of, lemma_index_of_str,
    line_end_at, line_end_from, offset, part, push_char, same, stands_at, to_lower, to_string,
    trim, trim_range, Text,
};
use crate::tree::{lemma_trees, opt_view, tree, trees, Kind, DocNode, Span, Tree};
use std::ops::Range;
use vstd::prelude::*;

verus! {

/// A colour by its role in the theme.
#[derive(Clone, Copy, PartialEq, Eq, Debug, Structural)]
pub enum Ink {
    Link,
    Tag,
    Code,
    Muted,
    CodeBackground,
    Mark,
    Match,
    CurrentMatch,
}

/// How a run of text looks.
#[derive(Clone, Copy, PartialEq, Eq, Debug, Structural)]
pub struct Style {
    pub bold: bool,
    pub italic: bool,
    pub strike: bool,
    pub underline: bool,
    pub color: Option<Ink>,
    pub background: Option<Ink>,
}

/// Plain text.
pub open spec fn plain_style() -> Style {
    Style {
        bold: false,
        italic: false,
        strike: false,
        underline: false,
        color: None,
        background: None,
    }
}

impl Default for Style {
    fn default() -> (r: Self)
        ensures
            r == plain_style(),
    {
        Style {
            bold: false,
            italic: false,
            strike: false,
            underline: false,
            color: None,
            background: None,
        }
    }
}

/// Where a link leads: to a page, or to a URL.
#[derive(PartialEq, Eq, Debug)]
pub enum LinkTarget<S> {
    Wiki(S),
    Url(S),
}

/// A gap of non-breaking spaces that a picture is painted over: a formula or an
/// image, by its source.
#[derive(PartialEq, Eq, Debug)]
pub struct Gap<S> {
    pub start: usize,
    pub len: usize,
    pub source: S,
    pub image: bool,
}

/// The visible text of a run of nodes. Ranges are byte ranges of `text`.
#[derive(PartialEq, Eq, Debug)]
pub struct Inline {
    pub text: String,
    pub highlights: Vec<(Range<usize>, Style)>,
    pub links: Vec<(Range<usize>, LinkTarget<String>)>,
    /// `(rendered byte offset, source byte offset)` checkpoints, in the order
    /// of the text.
    pub source_map: Vec<(usize, usize)>,
    pub gaps: Vec<Gap<String>>,
}

/// An [`Inline`] as a value.
pub struct Shown {
    pub text: Seq<char>,
    pub runs: Seq<(int, int, Style)>,
    pub links: Seq<(int, int, LinkTarget<Seq<char>>)>,
    pub map: Seq<(int, int)>,
    pub gaps: Seq<(int, int, Seq<char>, bool)>,
}

/// A target as a value.
pub open spec fn target_view(t: LinkTarget<String>) -> LinkTarget<Seq<char>> {
    match t {
        LinkTarget::Wiki(s) => LinkTarget::Wiki(s@),
        LinkTarget::Url(s) => LinkTarget::Url(s@),
    }
}

/// Styled ranges as values.
pub open spec fn run_views(v: Seq<(Range<usize>, Style)>) -> Seq<(int, int, Style)> {
    v.map_values(|p: (Range<usize>, Style)| (p.0.start as int, p.0.end as int, p.1))
}

/// Links as values.
pub open spec fn link_views(v: Seq<(Range<usize>, LinkTarget<String>)>) -> Seq<
    (int, int, LinkTarget<Seq<char>>),
> {
    v.map_values(
        |p: (Range<usize>, LinkTarget<String>)|
            (p.0.start as int, p.0.end as int, target_view(p.1)),
    )
}

/// Checkpoints as values.
pub open spec fn map_views(v: Seq<(usize, usize)>) -> Seq<(int, int)> {
    v.map_values(|p: (usize, usize)| (p.0 as int, p.1 as int))
}

/// Gaps as values.
pub open spec fn gap_views(v: Seq<Gap<String>>) -> Seq<(int, int, Seq<char>, bool)> {
    v.map_values(|g: Gap<String>| (g.start as int, g.len as int, g.source@, g.image))
}

impl View for Inline {
    type V = Shown;

    open spec fn view(&self) -> Shown {
        Shown {
            text: self.text@,
            runs: run_views(self.highlights@),
            links: link_views(self.links@),
            map: map_views(self.source_map@),
            gaps: gap_views(self.gaps@),
        }
    }
}

/// Nothing shown.
pub open spec fn nothing() -> Shown {
    Shown { text: seq![], runs: seq![], links: seq![], map: seq![], gaps: seq![] }
}

impl Inline {
    /// Nothing shown.
    pub fn new() -> (r: Inline)
        ensures
            r@ == nothing(),
    {
        let r = Inline {
            text: String::new(),
            highlights: Vec::new(),
            links: Vec::new(),
            source_map: Vec::new(),
            gaps: Vec::new(),
        };
        assert(r@.runs =~= seq![]);
        assert(r@.links =~= seq![]);
        assert(r@.map =~= seq![]);
        assert(r@.gaps =~= seq![]);
        r
    }
}

// --- Building blocks ---

/// `o` with a run of text; an empty run adds nothing.
pub open spec fn with_run(o: Shown, s: Seq<char>, style: Style) -> Shown {
    if s.len() == 0 {
        o
    } else {
        Shown {
            text: o.text + s,
            runs: o.runs.push((blen(o.text) as int, blen(o.text + s) as int, style)),
            ..o
        }
    }
}

/// A source offset moved on, not past the greatest number.
pub open spec fn moved(base: int, by: int) -> int {
    if base + by > usize::MAX {
        usize::MAX as int
    } else {
        base + by
    }
}

/// `o` with a checkpoint: what is shown next stands at `src` in the source.
pub open spec fn with_mark(o: Shown, src: int) -> Shown {
    Shown { map: o.map.push((blen(o.text) as int, src)), ..o }
}

/// `style` in another colour.
pub open spec fn in_ink(style: Style, ink: Ink) -> Style {
    Style { color: Some(ink), ..style }
}

/// `o` with a link over what was added since the text was `before` long.
pub open spec fn with_link(o: Shown, before: nat, target: LinkTarget<Seq<char>>) -> Shown {
    Shown { links: o.links.push((before as int, blen(o.text) as int, target)), ..o }
}

/// `o` with a clickable run that leads to a page.
pub open spec fn with_page_link(
    o: Shown,
    shown: Seq<char>,
    target: Seq<char>,
    ink: Ink,
    style: Style,
) -> Shown {
    with_link(with_run(o, shown, in_ink(style, ink)), blen(o.text), LinkTarget::Wiki(target))
}

/// A non-breaking space.
pub open spec fn nbsp() -> char {
    '\u{00A0}'
}

/// `o` with a gap of `n` non-breaking spaces for a picture.
pub open spec fn with_gap(o: Shown, source: Seq<char>, image: bool, n: nat) -> Shown {
    let gap = crate::numbering::repeated(nbsp(), n);
    Shown {
        text: o.text + gap,
        gaps: o.gaps.push((blen(o.text) as int, blen(gap) as int, source, image)),
        ..o
    }
}

fn text_len(out: &Inline) -> (r: usize)
    ensures
        r as nat == blen(out.text@),
{
    proof {
        crate::text::lemma_blen_encode(out.text@);
    }
    out.text.as_str().as_bytes().len()
}

fn push_run(out: &mut Inline, s: &str, style: Style)
    ensures
        final(out)@ == with_run(old(out)@, s@, style),
{
    let ghost before = out@;
    if s.is_empty() {
        return;
    }
    let a: usize = text_len(out);
    out.text.append(s);
    let b: usize = text_len(out);
    out.highlights.push((Range { start: a, end: b }, style));
    assert(out@.runs =~= before.runs.push((a as int, b as int, style)));
    assert(out@ == with_run(before, s@, style));
}

fn push_mark(out: &mut Inline, src: usize)
    ensures
        final(out)@ == with_mark(old(out)@, src as int),
{
    let ghost before = out@;
    let a: usize = text_len(out);
    out.source_map.push((a, src));
    assert(out@.map =~= before.map.push((a as int, src as int)));
    assert(out@ == with_mark(before, src as int));
}

fn push_link(out: &mut Inline, start: usize, target: LinkTarget<String>)
    ensures
        final(out)@ == with_link(old(out)@, start as nat, target_view(target)),
{
    let ghost before = out@;
    let ghost t = target_view(target);
    let b: usize = text_len(out);
    out.links.push((Range { start, end: b }, target));
    assert(out@.links =~= before.links.push((start as int, b as int, t)));
    assert(out@ == with_link(before, start as nat, t));
}

fn push_page_link(out: &mut Inline, shown: &str, target: String, ink: Ink, style: Style)
    ensures
        final(out)@ == with_page_link(old(out)@, shown@, target@, ink, style),
{
    let a: usize = text_len(out);
    push_run(out, shown, Style { color: Some(ink), ..style });
    push_link(out, a, LinkTarget::Wiki(target));
}

fn push_gap(out: &mut Inline, source: &String, image: bool, n: usize)
    ensures
        final(out)@ == with_gap(old(out)@, source@, image, n as nat),
{
    let ghost before = out@;
    let a: usize = text_len(out);
    let mut i: usize = 0;
    assert(before.text + crate::numbering::repeated(nbsp(), 0) =~= before.text);
    while i < n
        invariant
            i <= n,
            out.text@ == before.text + crate::numbering::repeated(nbsp(), i as nat),
            out.highlights == old(out).highlights,
            out.links == old(out).links,
            out.source_map == old(out).source_map,
            out.gaps == old(out).gaps,
        decreases n - i,
    {
        push_char(&mut out.text, '\u{00A0}');
        assert((before.text + crate::numbering::repeated(nbsp(), i as nat)).push(nbsp())
            =~= before.text + crate::numbering::repeated(nbsp(), (i + 1) as nat));
        i += 1;
    }
    let b: usize = text_len(out);
    proof {
        crate::text::lemma_blen_concat(
            before.text,
            crate::numbering::repeated(nbsp(), n as nat),
        );
    }
    let copy = source.clone();
    out.gaps.push(Gap { start: a, len: b - a, source: copy, image });
    assert(out@.gaps =~= before.gaps.push((a as int, (b - a) as int, source@, image)));
    assert(out@ == with_gap(before, source@, image, n as nat));
}

// --- What the host knows ---

/// The text of a block, by its page and id; the page is empty for a `((id))`
/// reference.
#[derive(PartialEq, Eq, Debug)]
pub struct BlockLabel {
    pub page: String,
    pub id: String,
    pub label: String,
}

/// How many pages refer to a block.
#[derive(PartialEq, Eq, Debug)]
pub struct RefCount {
    pub id: String,
    pub count: usize,
}

/// How many non-breaking spaces a picture takes, where it is ready to paint.
#[derive(PartialEq, Eq, Debug)]
pub struct Spacer {
    pub source: String,
    pub image: bool,
    pub width: usize,
}

/// What the host has looked up for a page before it is shown.
#[derive(PartialEq, Eq, Debug)]
pub struct Host {
    pub labels: Vec<BlockLabel>,
    pub refs: Vec<RefCount>,
    pub spacers: Vec<Spacer>,
}

/// A [`Host`] as a value.
pub struct Known {
    pub labels: Seq<(Seq<char>, Seq<char>, Seq<char>)>,
    pub refs: Seq<(Seq<char>, nat)>,
    pub spacers: Seq<(Seq<char>, bool, nat)>,
}

impl View for Host {
    type V = Known;

    open spec fn view(&self) -> Known {
        Known {
            labels: self.labels@.map_values(|l: BlockLabel| (l.page@, l.id@, l.label@)),
            refs: self.refs@.map_values(|r: RefCount| (r.id@, r.count as nat)),
            spacers: self.spacers@.map_values(|p: Spacer| (p.source@, p.image, p.width as nat)),
        }
    }
}

/// The label of a block: the first that is listed from `i` on.
pub open spec fn label_from(
    all: Seq<(Seq<char>, Seq<char>, Seq<char>)>,
    page: Seq<char>,
    id: Seq<char>,
    i: int,
) -> Option<Seq<char>>
    decreases all.len() - i,
{
    if i < 0 || i >= all.len() {
        None
    } else if all[i].0 == page && all[i].1 == id {
        Some(all[i].2)
    } else {
        label_from(all, page, id, i + 1)
    }
}

/// How many pages refer to a block: the first count that is listed from `i` on.
pub open spec fn refs_from(all: Seq<(Seq<char>, nat)>, id: Seq<char>, i: int) -> nat
    decreases all.len() - i,
{
    if i < 0 || i >= all.len() {
        0
    } else if all[i].0 == id {
        all[i].1
    } else {
        refs_from(all, id, i + 1)
    }
}

/// The spaces of a picture: the first that is listed from `i` on, at least one.
pub open spec fn spacer_from(
    all: Seq<(Seq<char>, bool, nat)>,
    source: Seq<char>,
    image: bool,
    i: int,
) -> Option<nat>
    decreases all.len() - i,
{
    if i < 0 || i >= all.len() {
        None
    } else if all[i].0 == source && all[i].1 == image {
        Some(
            if all[i].2 == 0 {
                1
            } else {
                all[i].2
            },
        )
    } else {
        spacer_from(all, source, image, i + 1)
    }
}

fn find_label(host: &Host, page: &str, id: &str) -> (r: Option<String>)
    ensures
        opt_view(r) == label_from(host@.labels, page@, id@, 0),
{
    let ghost all = host@.labels;
    let mut i: usize = 0;
    while i < host.labels.len()
        invariant
            i <= host.labels@.len(),
            all == host@.labels,
            label_from(all, page@, id@, 0) == label_from(all, page@, id@, i as int),
        decreases host.labels.len() - i,
    {
        let l = &host.labels[i];
        assert(all[i as int] == (l.page@, l.id@, l.label@));
        if str_is(&l.page, page) && str_is(&l.id, id) {
            return Some(l.label.clone());
        }
        i += 1;
    }
    None
}

fn find_refs(host: &Host, id: &str) -> (r: usize)
    ensures
        r as nat == refs_from(host@.refs, id@, 0),
{
    let ghost all = host@.refs;
    let mut i: usize = 0;
    while i < host.refs.len()
        invariant
            i <= host.refs@.len(),
            all == host@.refs,
            refs_from(all, id@, 0) == refs_from(all, id@, i as int),
        decreases host.refs.len() - i,
    {
        let l = &host.refs[i];
        assert(all[i as int] == (l.id@, l.count as nat));
        if str_is(&l.id, id) {
            return l.count;
        }
        i += 1;
    }
    0
}

fn find_spacer(host: &Host, source: &str, image: bool) -> (r: Option<usize>)
    ensures
        r is Some == spacer_from(host@.spacers, source@, image, 0) is Some,
        r is Some ==> r->0 as nat == spacer_from(host@.spacers, source@, image, 0)->0,
{
    let ghost all = host@.spacers;
    let mut i: usize = 0;
    while i < host.spacers.len()
        invariant
            i <= host.spacers@.len(),
            all == host@.spacers,
            spacer_from(all, source@, image, 0) == spacer_from(all, source@, image, i as int),
        decreases host.spacers.len() - i,
    {
        let l = &host.spacers[i];
        assert(all[i as int] == (l.source@, l.image, l.width as nat));
        if l.image == image && str_is(&l.source, source) {
            if l.width == 0 {
                return Some(1);
            }
            return Some(l.width);
        }
        i += 1;
    }
    None
}

// --- Plain text ---

/// A construct inside plain text: where it begins to be shown in the source,
/// where the text goes on behind it, and the page link that it shows, if any.
pub struct Piece {
    pub mark: int,
    pub next: int,
    pub link: Option<(Seq<char>, Seq<char>, Ink)>,
}

/// ` → `.
pub open spec fn arrow() -> Seq<char> {
    seq![' ', '→', ' ']
}

/// What a wiki-link shows: its label, and without one the block's text or
/// `Page → anchor` for a target with an anchor.
pub open spec fn wiki_shown(inner: Seq<char>, host: Known) -> Seq<char> {
    let target = wiki_target(inner);
    let display = wiki_display(inner);
    if display == target {
        match block_anchor(display) {
            Some((page, id)) => match label_from(host.labels, page, id, 0) {
                Some(label) => label,
                None => page + arrow() + id,
            },
            None => match heading_anchor(display) {
                Some((page, heading)) => page + arrow() + trim(heading),
                None => display,
            },
        }
    } else {
        display
    }
}

/// A wiki-link at `i`.
pub open spec fn wiki_piece(v: Seq<char>, i: int, host: Known) -> Option<Piece> {
    if stands_at(v, i, seq!['[', '[']) {
        match index_of_str(v, seq![']', ']'], i + 2) {
            Some(c) => {
                let inner = v.subrange(i + 2, c);
                if wiki_target(inner).len() > 0 {
                    Some(
                        Piece {
                            mark: i + 2,
                            next: c + 2,
                            link: Some((wiki_shown(inner, host), wiki_target(inner), Ink::Link)),
                        },
                    )
                } else {
                    None
                }
            },
            None => None,
        }
    } else {
        None
    }
}

/// A `((id))` block reference at `i`, where the host knows the block.
pub open spec fn ref_piece(v: Seq<char>, i: int, host: Known) -> Option<Piece> {
    if stands_at(v, i, seq!['(', '(']) {
        match index_of_str(v, seq![')', ')'], i + 2) {
            Some(c) => {
                let id = v.subrange(i + 2, c);
                if id.len() > 0 && all_id(id) {
                    match label_from(host.labels, seq![], id, 0) {
                        Some(label) => Some(
                            Piece {
                                mark: i,
                                next: c + 2,
                                link: Some((label, seq!['#', '^'] + id, Ink::Link)),
                            },
                        ),
                        None => None,
                    }
                } else {
                    None
                }
            },
            None => None,
        }
    } else {
        None
    }
}

/// The superscript of a number.
pub open spec fn superscript_of(n: nat) -> Seq<char> {
    decimal(n).map_values(|c: char| superscript_char(c))
}

/// A block-id anchor at `i`, which is hidden, or shown as a count where other
/// pages refer to the block.
pub open spec fn anchor_piece(v: Seq<char>, i: int, host: Known) -> Option<Piece> {
    if i + 1 < v.len() && v[i] == ' ' && v[i + 1] == '^' {
        let end = line_end_from(v, i);
        match block_id_of(v.take(end)) {
            Some((at, id)) => if at == i {
                let n = refs_from(host.refs, id, 0);
                Some(
                    Piece {
                        mark: i,
                        next: end,
                        link: if n > 0 {
                            Some(
                                (
                                    seq![' '] + superscript_of(n),
                                    "refs:^"@ + id,
                                    Ink::Tag,
                                ),
                            )
                        } else {
                            None
                        },
                    },
                )
            } else {
                None
            },
            None => None,
        }
    } else {
        None
    }
}

/// A tag at `i`.
pub open spec fn tag_piece(v: Seq<char>, i: int) -> Option<Piece> {
    let j = tag_run(v, i + 1);
    if v[i] == '#' && word_edge(v, i) && j > i + 1 {
        Some(
            Piece {
                mark: i,
                next: j,
                link: Some((v.subrange(i, j), v.subrange(i + 1, j), Ink::Tag)),
            },
        )
    } else {
        None
    }
}

/// The construct at `i`, if any.
pub open spec fn piece_at(v: Seq<char>, i: int, host: Known) -> Option<Piece> {
    if let Some(p) = wiki_piece(v, i, host) {
        Some(p)
    } else if let Some(p) = ref_piece(v, i, host) {
        Some(p)
    } else if let Some(p) = anchor_piece(v, i, host) {
        Some(p)
    } else {
        tag_piece(v, i)
    }
}

/// `o` with the plain text from `a` to `b`.
pub open spec fn with_plain(
    o: Shown,
    v: Seq<char>,
    base: int,
    a: int,
    b: int,
    style: Style,
) -> Shown {
    with_run(with_mark(o, moved(base, offset(v, a) as int)), v.subrange(a, b), style)
}

/// `o` with the text `v` from character `i` on; the plain text from `plain` to
/// `i` is still to be shown.
pub open spec fn with_text_from(
    o: Shown,
    v: Seq<char>,
    base: int,
    i: int,
    plain: int,
    style: Style,
    host: Known,
) -> Shown
    decreases v.len() - i,
{
    if i < 0 || i >= v.len() {
        with_plain(o, v, base, plain, v.len() as int, style)
    } else {
        proof {
            lemma_piece(v, i, host);
        }
        match piece_at(v, i, host) {
            Some(p) => {
                let a = with_plain(o, v, base, plain, i, style);
                let b = match p.link {
                    Some((shown, target, ink)) => with_page_link(
                        with_mark(a, moved(base, offset(v, p.mark) as int)),
                        shown,
                        target,
                        ink,
                        style,
                    ),
                    None => a,
                };
                with_text_from(b, v, base, p.next, p.next, style, host)
            },
            None => with_text_from(o, v, base, i + 1, plain, style, host),
        }
    }
}

/// `o` with the text `v`, whose source begins at `base`: wiki-links, block
/// references and tags become page links, block-id anchors are hidden.
pub open spec fn with_text(o: Shown, v: Seq<char>, base: int, style: Style, host: Known) -> Shown {
    with_text_from(o, v, base, 0, 0, style, host)
}

/// A construct lies inside the text and takes at least one character.
pub proof fn lemma_piece(v: Seq<char>, i: int, host: Known)
    requires
        0 <= i < v.len(),
    ensures
        piece_at(v, i, host) is Some ==> {
            let p = piece_at(v, i, host)->0;
            i <= p.mark <= p.next && i < p.next <= v.len()
        },
{
    lemma_index_of_str(v, seq![']', ']'], i + 2);
    lemma_index_of_str(v, seq![')', ')'], i + 2);
    lemma_index_of(v, '\n', i);
    crate::links::lemma_tag_run(v, i + 1);
    if i + 1 < v.len() && v[i] == ' ' && v[i + 1] == '^' {
        assert(line_end_from(v, i) > i) by {
            if let Some(e) = crate::text::index_of(v, '\n', i) {
                assert(v[e] == '\n');
            }
        }
    }
}

/// A found construct, in characters.
struct Found {
    mark: usize,
    next: usize,
    link: Option<(String, String, Ink)>,
}

spec fn found_view(f: Found) -> Piece {
    Piece {
        mark: f.mark as int,
        next: f.next as int,
        link: match f.link {
            Some((shown, target, ink)) => Some((shown@, target@, ink)),
            None => None,
        },
    }
}

/// What a wiki-link shows, from its target and label.
fn shown_of(inner: &[char], host: &Host) -> (r: String)
    ensures
        r@ == wiki_shown(inner@, host@),
{
    let ((a, b), (c, d)) = wiki_ranges(inner);
    let target = to_string(part(inner, a, b));
    let display = to_string(part(inner, c, d));
    if display != target {
        return display;
    }
    let (page, block) = split_block_anchor(display.as_str());
    if let Some(id) = block {
        if let Some(label) = find_label(host, page, id) {
            return label;
        }
        let mut out = page.to_owned();
        push_char(&mut out, ' ');
        push_char(&mut out, '→');
        push_char(&mut out, ' ');
        out.append(id);
        assert(out@ =~= page@ + arrow() + id@);
        return out;
    }
    let (page, heading) = split_heading_anchor(display.as_str());
    if let Some(h) = heading {
        let t = Text::new(h);
        let s = t.chars.as_slice();
        let (x, y) = trim_range(s);
        let name = to_string(part(s, x, y));
        let mut out = page.to_owned();
        push_char(&mut out, ' ');
        push_char(&mut out, '→');
        push_char(&mut out, ' ');
        out.append(name.as_str());
        assert(out@ =~= page@ + arrow() + name@);
        return out;
    }
    display
}

fn find_wiki(s: &[char], i: usize, host: &Host) -> (r: Option<Found>)
    requires
        i < s@.len(),
    ensures
        r is Some == wiki_piece(s@, i as int, host@) is Some,
        r is Some ==> found_view(r->0) == wiki_piece(s@, i as int, host@)->0,
{
    proof {
        reveal_strlit("[[");
        assert("[["@ =~= seq!['[', '[']);
    }
    let n: usize = s.len();
    if !crate::text::looks_at(s, i, "[[") {
        return None;
    }
    match find_pair(s, ']', ']', i + 2) {
        Some(c) => {
            let inner = part(s, i + 2, c);
            let ((a, b), _) = wiki_ranges(inner);
            if a == b {
                return None;
            }
            let target = to_string(part(inner, a, b));
            let shown = shown_of(inner, host);
            Some(Found { mark: i + 2, next: c + 2, link: Some((shown, target, Ink::Link)) })
        },
        None => None,
    }
}

fn find_ref(s: &[char], i: usize, host: &Host) -> (r: Option<Found>)
    requires
        i < s@.len(),
    ensures
        r is Some == ref_piece(s@, i as int, host@) is Some,
        r is Some ==> found_view(r->0) == ref_piece(s@, i as int, host@)->0,
{
    proof {
        reveal_strlit("((");
        reveal_strlit("");
        assert("(("@ =~= seq!['(', '(']);
        assert(""@ =~= seq![]);
    }
    let n: usize = s.len();
    if !crate::text::looks_at(s, i, "((") {
        return None;
    }
    match find_pair(s, ')', ')', i + 2) {
        Some(c) => {
            let id = part(s, i + 2, c);
            if id.len() == 0 || !all_id_at(id) {
                return None;
            }
            let name = to_string(id);
            match find_label(host, "", name.as_str()) {
                Some(label) => {
                    let mut target = String::new();
                    push_char(&mut target, '#');
                    push_char(&mut target, '^');
                    target.append(name.as_str());
                    assert(target@ =~= seq!['#', '^'] + id@);
                    Some(Found { mark: i, next: c + 2, link: Some((label, target, Ink::Link)) })
                },
                None => None,
            }
        },
        None => None,
    }
}

fn find_anchor(s: &[char], i: usize, host: &Host) -> (r: Option<Found>)
    requires
        i < s@.len(),
    ensures
        r is Some == anchor_piece(s@, i as int, host@) is Some,
        r is Some ==> found_view(r->0) == anchor_piece(s@, i as int, host@)->0,
{
    let n: usize = s.len();
    if n - i < 2 || s[i] != ' ' || s[i + 1] != '^' {
        return None;
    }
    let end: usize = line_end_at(s, i);
    let head = part(s, 0, end);
    assert(head@ =~= s@.take(end as int));
    match find_block_id(head) {
        Some((at, e)) => {
            if at != i {
                return None;
            }
            let id = to_string(part(head, at + 2, e));
            let refs: usize = find_refs(host, id.as_str());
            if refs == 0 {
                return Some(Found { mark: i, next: end, link: None });
            }
            let mut shown = String::new();
            push_char(&mut shown, ' ');
            let up = superscript(refs);
            shown.append(up.as_str());
            assert(shown@ =~= seq![' '] + superscript_of(refs as nat));
            let mut target = "refs:^".to_owned();
            target.append(id.as_str());
            Some(Found { mark: i, next: end, link: Some((shown, target, Ink::Tag)) })
        },
        None => None,
    }
}

fn find_tag(s: &[char], i: usize) -> (r: Option<Found>)
    requires
        i < s@.len(),
    ensures
        r is Some == tag_piece(s@, i as int) is Some,
        r is Some ==> found_view(r->0) == tag_piece(s@, i as int)->0,
{
    let n: usize = s.len();
    if s[i] != '#' || !(i == 0 || !word_at(s[i - 1])) {
        return None;
    }
    let mut j: usize = i + 1;
    while j < n && tag_at(s[j])
        invariant
            n == s@.len(),
            i < j <= n,
            tag_run(s@, i + 1) == tag_run(s@, j as int),
        decreases n - j,
    {
        j += 1;
    }
    if j > i + 1 {
        let shown = to_string(part(s, i, j));
        let target = to_string(part(s, i + 1, j));
        Some(Found { mark: i, next: j, link: Some((shown, target, Ink::Tag)) })
    } else {
        None
    }
}

fn find_piece(s: &[char], i: usize, host: &Host) -> (r: Option<Found>)
    requires
        i < s@.len(),
    ensures
        r is Some == piece_at(s@, i as int, host@) is Some,
        r is Some ==> found_view(r->0) == piece_at(s@, i as int, host@)->0,
{
    if let Some(p) = find_wiki(s, i, host) {
        return Some(p);
    }
    if let Some(p) = find_ref(s, i, host) {
        return Some(p);
    }
    if let Some(p) = find_anchor(s, i, host) {
        return Some(p);
    }
    find_tag(s, i)
}

fn push_plain(
    out: &mut Inline,
    t: &Text,
    base: usize,
    a: usize,
    b: usize,
    style: Style,
)
    requires
        t.wf(),
        a <= b <= t@.len(),
    ensures
        final(out)@ == with_plain(old(out)@, t@, base as int, a as int, b as int, style),
{
    assert(t.offs@[a as int] == offset(t@, a as int));
    push_mark(out, base.saturating_add(t.offs[a]));
    let s = to_string(part(t.chars.as_slice(), a, b));
    push_run(out, s.as_str(), style);
}

/// Appends plain text, splitting out `[[wiki-links]]`, `((block refs))` and
/// `#tags` into clickable runs and hiding block-id anchors. `base` is where the
/// text begins in the source.
pub fn push_text(out: &mut Inline, value: &str, base: usize, style: Style, host: &Host)
    ensures
        final(out)@ == with_text(old(out)@, value@, base as int, style, host@),
{
    let t = Text::new(value);
    let s = t.chars.as_slice();
    let n: usize = s.len();
    let mut i: usize = 0;
    let mut plain: usize = 0;
    let ghost want = with_text(out@, value@, base as int, style, host@);
    while i < n
        invariant
            t.wf(),
            t@ == value@,
            s@ == value@,
            n == s@.len(),
            plain <= i <= n,
            want == with_text_from(
                out@,
                value@,
                base as int,
                i as int,
                plain as int,
                style,
                host@,
            ),
        decreases n - i,
    {
        proof {
            lemma_piece(value@, i as int, host@);
        }
        match find_piece(s, i, host) {
            Some(p) => {
                push_plain(out, &t, base, plain, i, style);
                let next: usize = p.next;
                if let Some((shown, target, ink)) = p.link {
                    assert(t.offs@[p.mark as int] == offset(t@, p.mark as int));
                    push_mark(out, base.saturating_add(t.offs[p.mark]));
                    push_page_link(out, shown.as_str(), target, ink, style);
                }
                i = next;
                plain = next;
            },
            None => {
                i += 1;
            },
        }
    }
    push_plain(out, &t, base, plain, n, style);
}

// --- Nodes ---

/// Reference definitions: `(id, url)`, the first of an id counts.
pub open spec fn url_from(defs: Seq<(Seq<char>, Seq<char>)>, id: Seq<char>, i: int) -> Option<
    Seq<char>,
>
    decreases defs.len() - i,
{
    if i < 0 || i >= defs.len() {
        None
    } else if defs[i].0 == id {
        Some(defs[i].1)
    } else {
        url_from(defs, id, i + 1)
    }
}

/// Definitions as values.
pub open spec fn def_views(v: Seq<(String, String)>) -> Seq<(Seq<char>, Seq<char>)> {
    v.map_values(|p: (String, String)| (p.0@, p.1@))
}

fn find_url(defs: &Vec<(String, String)>, id: &String) -> (r: Option<String>)
    ensures
        opt_view(r) == url_from(def_views(defs@), id@, 0),
{
    let ghost all = def_views(defs@);
    let mut i: usize = 0;
    while i < defs.len()
        invariant
            i <= defs@.len(),
            all == def_views(defs@),
            url_from(all, id@, 0) == url_from(all, id@, i as int),
        decreases defs.len() - i,
    {
        assert(all[i as int] == (defs@[i as int].0@, defs@[i as int].1@));
        if defs[i].0 == *id {
            return Some(defs[i].1.clone());
        }
        i += 1;
    }
    None
}

/// Where a node begins in the source; 0 where the parser recorded nothing.
pub open spec fn source_of(at: Option<Span>) -> int {
    match at {
        Some(s) => s.start as int,
        None => 0,
    }
}

/// What a label shows: the label, or the id where there is none.
pub open spec fn label_or_id(label: Option<Seq<char>>, id: Seq<char>) -> Seq<char> {
    match label {
        Some(l) => l,
        None => id,
    }
}

/// What stands for an image that is not ready.
pub open spec fn image_label(alt: Seq<char>) -> Seq<char> {
    if alt.len() == 0 {
        "🖼 image"@
    } else {
        "🖼 "@ + alt
    }
}

/// The style behind an inline HTML tag: `<mark>` and `<u>` switch theirs on,
/// `</mark>` and `</u>` off. `None` for any other tag.
pub open spec fn tag_style(style: Style, html: Seq<char>) -> Option<Style> {
    let tag = ascii_lower(trim(html));
    if tag == "<mark>"@ || crate::text::begins(tag, "<mark "@) {
        Some(Style { background: Some(Ink::Mark), ..style })
    } else if tag == "</mark>"@ {
        Some(Style { background: None, ..style })
    } else if tag == "<u>"@ {
        Some(Style { underline: true, ..style })
    } else if tag == "</u>"@ {
        Some(Style { underline: false, ..style })
    } else {
        None
    }
}

/// What inline content is built with: what the host knows, and the reference
/// definitions of the page.
pub struct Setting {
    pub host: Known,
    pub defs: Seq<(Seq<char>, Seq<char>)>,
}

/// `o` with one node. An HTML tag adds nothing of its own where it changes the
/// style (see [`style_after`]).
pub open spec fn with_node(o: Shown, n: Tree, style: Style, e: Setting) -> Shown
    decreases n, 0int,
{
    let start = blen(o.text);
    match n.kind {
        Kind::Text(s) => with_text(o, s, source_of(n.at), style, e.host),
        Kind::Strong => with_nodes(o, n.children, 0, Style { bold: true, ..style }, e),
        Kind::Emphasis => with_nodes(o, n.children, 0, Style { italic: true, ..style }, e),
        Kind::Delete => with_nodes(o, n.children, 0, Style { strike: true, ..style }, e),
        Kind::InlineCode(s) => with_run(
            with_mark(o, moved(source_of(n.at), 1)),
            s,
            Style { color: Some(Ink::Code), background: Some(Ink::CodeBackground), ..style },
        ),
        Kind::InlineMath(s) => {
            let m = with_mark(o, source_of(n.at));
            match spacer_from(e.host.spacers, s, false, 0) {
                Some(w) => with_gap(m, s, false, w),
                None => with_run(m, seq!['$'] + s + seq!['$'], style),
            }
        },
        Kind::Link(url) => {
            let b = with_nodes(o, n.children, 0, in_ink(style, Ink::Link), e);
            if start < blen(b.text) {
                with_link(b, start, LinkTarget::Url(url))
            } else {
                b
            }
        },
        Kind::Break => with_run(o, seq!['\n'], style),
        Kind::Image { url, alt } => {
            let m = with_mark(o, source_of(n.at));
            match spacer_from(e.host.spacers, url, true, 0) {
                Some(w) => with_gap(m, url, true, w),
                None => with_link(
                    with_run(m, image_label(alt), in_ink(style, Ink::Link)),
                    start,
                    LinkTarget::Url(url),
                ),
            }
        },
        Kind::FootnoteReference { label, id } => with_run(
            o,
            seq!['['] + label_or_id(label, id) + seq![']'],
            in_ink(style, Ink::Link),
        ),
        Kind::LinkReference(id) => match url_from(e.defs, id, 0) {
            Some(url) => {
                let b = with_nodes(o, n.children, 0, in_ink(style, Ink::Link), e);
                if start < blen(b.text) {
                    with_link(b, start, LinkTarget::Url(url))
                } else {
                    b
                }
            },
            None => with_nodes(o, n.children, 0, style, e),
        },
        Kind::ImageReference { id, alt } => {
            let b = with_run(o, image_label(alt), in_ink(style, Ink::Link));
            match url_from(e.defs, id, 0) {
                Some(url) => with_link(b, start, LinkTarget::Url(url)),
                None => b,
            }
        },
        Kind::Html(s) => if tag_style(style, s) is Some {
            o
        } else {
            with_run(o, s, style)
        },
        Kind::Paragraph => with_nodes(o, n.children, 0, style, e),
        _ => o,
    }
}

/// The style of what stands behind a node: only an HTML tag changes it.
pub open spec fn style_after(n: Tree, style: Style) -> Style {
    match n.kind {
        Kind::Html(s) => match tag_style(style, s) {
            Some(t) => t,
            None => style,
        },
        _ => style,
    }
}

/// `o` with the nodes from `i` on.
pub open spec fn with_nodes(o: Shown, nodes: Seq<Tree>, i: int, style: Style, e: Setting) -> Shown
    decreases nodes, nodes.len() - i,
{
    if i < 0 || i >= nodes.len() {
        o
    } else {
        with_nodes(
            with_node(o, nodes[i], style, e),
            nodes,
            i + 1,
            style_after(nodes[i], style),
            e,
        )
    }
}

fn push_image_label(out: &mut Inline, alt: &String, style: Style)
    ensures
        final(out)@ == with_run(old(out)@, image_label(alt@), in_ink(style, Ink::Link)),
{
    let c = Style { color: Some(Ink::Link), ..style };
    if alt.as_str().is_empty() {
        push_run(out, "🖼 image", c);
    } else {
        let mut label = "🖼 ".to_owned();
        label.append(alt.as_str());
        push_run(out, label.as_str(), c);
    }
}

fn find_tag_style(style: Style, html: &String) -> (r: Option<Style>)
    ensures
        r == tag_style(style, html@),
{
    let t = Text::new(html.as_str());
    let s = t.chars.as_slice();
    let (a, b) = trim_range(s);
    let low = lowered(part(s, a, b));
    let tag = low.as_slice();
    if same(tag, "<mark>") || crate::text::looks_at(tag, 0, "<mark ") {
        Some(Style { background: Some(Ink::Mark), ..style })
    } else if same(tag, "</mark>") {
        Some(Style { background: None, ..style })
    } else if same(tag, "<u>") {
        Some(Style { underline: true, ..style })
    } else if same(tag, "</u>") {
        Some(Style { underline: false, ..style })
    } else {
        None
    }
}

fn lowered(s: &[char]) -> (r: Vec<char>)
    ensures
        r@ == ascii_lower(s@),
{
    let mut out: Vec<char> = Vec::new();
    let mut i: usize = 0;
    while i < s.len()
        invariant
            i <= s@.len(),
            out@ == ascii_lower(s@.take(i as int)),
        decreases s.len() - i,
    {
        out.push(to_lower(s[i]));
        assert(ascii_lower(s@.take(i + 1)) =~= ascii_lower(s@.take(i as int)).push(
            crate::text::lower(s@[i as int]),
        ));
        i += 1;
    }
    assert(s@.take(s@.len() as int) =~= s@);
    out
}

/// The setting of a host and definitions.
pub open spec fn setting(host: Host, defs: Vec<(String, String)>) -> Setting {
    Setting { host: host@, defs: def_views(defs@) }
}

fn source_start(at: &Option<Span>) -> (r: usize)
    ensures
        r as int == source_of(*at),
{
    match at {
        Some(s) => s.start,
        None => 0,
    }
}

/// Appends the inline content of one node.
fn push_node(out: &mut Inline, n: &DocNode, style: Style, host: &Host, defs: &Vec<(String, String)>)
    ensures
        final(out)@ == with_node(old(out)@, n@, style, setting(*host, *defs)),
    decreases n, 0int,
{
    let ghost e = setting(*host, *defs);
    let ghost before = out@;
    let start: usize = text_len(out);
    let src: usize = source_start(&n.at);
    match &n.kind {
        Kind::Text(s) => push_text(out, s.as_str(), src, style, host),
        Kind::Strong => {
            build_inline(&n.children, Style { bold: true, ..style }, host, defs, out);
        },
        Kind::Emphasis => {
            build_inline(&n.children, Style { italic: true, ..style }, host, defs, out);
        },
        Kind::Delete => {
            build_inline(&n.children, Style { strike: true, ..style }, host, defs, out);
        },
        Kind::InlineCode(s) => {
            push_mark(out, src.saturating_add(1));
            push_run(
                out,
                s.as_str(),
                Style { color: Some(Ink::Code), background: Some(Ink::CodeBackground), ..style },
            );
        },
        Kind::InlineMath(s) => {
            push_mark(out, src);
            match find_spacer(host, s.as_str(), false) {
                Some(w) => push_gap(out, s, false, w),
                None => {
                    let mut raw = String::new();
                    push_char(&mut raw, '$');
                    raw.append(s.as_str());
                    push_char(&mut raw, '$');
                    assert(raw@ =~= seq!['$'] + s@ + seq!['$']);
                    push_run(out, raw.as_str(), style);
                },
            }
        },
        Kind::Link(url) => {
            build_inline(
                &n.children,
                Style { color: Some(Ink::Link), ..style },
                host,
                defs,
                out,
            );
            if start < text_len(out) {
                let u = url.clone();
                push_link(out, start, LinkTarget::Url(u));
            }
        },
        Kind::Break => {
            proof {
                reveal_strlit("\n");
                assert("\n"@ =~= seq!['\n']);
            }
            push_run(out, "\n", style);
        },
        Kind::Image { url, alt } => {
            push_mark(out, src);
            match find_spacer(host, url.as_str(), true) {
                Some(w) => push_gap(out, url, true, w),
                None => {
                    push_image_label(out, alt, style);
                    let u = url.clone();
                    push_link(out, start, LinkTarget::Url(u));
                },
            }
        },
        Kind::FootnoteReference { label, id } => {
            let mut raw = String::new();
            push_char(&mut raw, '[');
            match label {
                Some(l) => raw.append(l.as_str()),
                None => raw.append(id.as_str()),
            }
            push_char(&mut raw, ']');
            assert(raw@ =~= seq!['['] + label_or_id(opt_view(*label), id@) + seq![']']);
            push_run(out, raw.as_str(), Style { color: Some(Ink::Link), ..style });
        },
        Kind::LinkReference(id) => match find_url(defs, id) {
            Some(url) => {
                build_inline(
                    &n.children,
                    Style { color: Some(Ink::Link), ..style },
                    host,
                    defs,
                    out,
                );
                if start < text_len(out) {
                    push_link(out, start, LinkTarget::Url(url));
                }
            },
            None => {
                build_inline(&n.children, style, host, defs, out);
            },
        },
        Kind::ImageReference { id, alt } => {
            push_image_label(out, alt, style);
            if let Some(url) = find_url(defs, id) {
                push_link(out, start, LinkTarget::Url(url));
            }
        },
        Kind::Html(s) => {
            if find_tag_style(style, s).is_none() {
                push_run(out, s.as_str(), style);
            }
        },
        Kind::Paragraph => {
            build_inline(&n.children, style, host, defs, out);
        },
        _ => {},
    }
}

/// Appends the inline content of `nodes`, one behind the other.
pub fn build_inline(
    nodes: &[DocNode],
    style: Style,
    host: &Host,
    defs: &Vec<(String, String)>,
    out: &mut Inline,
)
    ensures
        final(out)@ == with_nodes(old(out)@, trees(nodes@), 0, style, setting(*host, *defs)),
    decreases nodes@, 1int,
{
    let ghost e = setting(*host, *defs);
    let ghost all = trees(nodes@);
    let ghost want = with_nodes(out@, all, 0, style, e);
    let mut cur: Style = style;
    let mut i: usize = 0;
    proof {
        lemma_trees(nodes@);
    }
    while i < nodes.len()
        invariant
            i <= nodes@.len(),
            e == setting(*host, *defs),
            all == trees(nodes@),
            all.len() == nodes@.len(),
            forall|k: int| 0 <= k < nodes@.len() ==> #[trigger] all[k] == tree(nodes@[k]),
            want == with_nodes(out@, all, i as int, cur, e),
        decreases nodes.len() - i,
    {
        let n = &nodes[i];
        assert(all[i as int] == n@);
        push_node(out, n, cur, host, defs);
        if let Kind::Html(s) = &n.kind {
            if let Some(t) = find_tag_style(cur, s) {
                cur = t;
            }
        }
        i += 1;
    }
}

} // verus!
