//! The images of a page: those that lead a block, and all of them.
use crate::inline::moved;
use crate::parse::{markdown_blocks, parse_blocks};
use crate::text::{
    ends, find_char, index_of, looks_at, offset, part, skip_space, to_string, trim, trim_range,
    trim_start, views, Text,
};
use crate::tree::{lemma_trees, lemma_trees_push, opt_view, tree, trees, Kind, DocNode, Tree};
use std::ops::Range;
use vstd::prelude::*;

verus! {

/// An image that leads a block.
#[derive(PartialEq, Eq, Debug)]
pub struct ImageInfo {
    /// The URL or path as written.
    pub src: String,
    /// The alternative text (may be empty).
    pub alt: String,
    /// What a `{width=…}` attribute right behind the image says, without its
    /// unit.
    pub width: Option<String>,
    /// Where the image ends in the source.
    pub end: usize,
    /// Where the attribute ends, or the image where there is none.
    pub attr_end: usize,
}

/// An [`ImageInfo`] as a value.
pub struct Picture {
    pub src: Seq<char>,
    pub alt: Seq<char>,
    pub width: Option<Seq<char>>,
    pub end: int,
    pub attr_end: int,
}

impl View for ImageInfo {
    type V = Picture;

    open spec fn view(&self) -> Picture {
        Picture {
            src: self.src@,
            alt: self.alt@,
            width: opt_view(self.width),
            end: self.end as int,
            attr_end: self.attr_end as int,
        }
    }
}

impl ImageInfo {
    /// The byte range in the source to replace with `{width=N}` when resizing:
    /// the attribute's span where there is one and it reads as a number, an
    /// empty range just after the image otherwise.
    pub fn attr_target(&self, readable: bool) -> (r: Range<usize>)
        ensures
            r.start == self.end,
            r.end == if readable && self.width is Some {
                self.attr_end
            } else {
                self.end
            },
    {
        if readable && self.width.is_some() {
            Range { start: self.end, end: self.attr_end }
        } else {
            Range { start: self.end, end: self.end }
        }
    }
}

/// The number of a leading `{width=320}` or `{width=320px}`, as written, and
/// where the text goes on behind it.
pub open spec fn width_attr(s: Seq<char>) -> Option<(Seq<char>, int)> {
    if crate::text::begins(s, "{width="@) {
        match index_of(s, '}', 7) {
            Some(c) => {
                let inner = s.subrange(7, c);
                let number = if ends(inner, "px"@) {
                    inner.take(inner.len() - 2)
                } else {
                    inner
                };
                Some((trim(number), c + 1))
            },
            None => None,
        }
    } else {
        None
    }
}

fn find_width(s: &[char]) -> (r: Option<(String, usize)>)
    ensures
        r is Some == width_attr(s@) is Some,
        r is Some ==> ((r->0).0@, (r->0).1 as int) == width_attr(s@)->0 && (r->0).1 <= s@.len(),
{
    proof {
        reveal_strlit("{width=");
        reveal_strlit("px");
    }
    let total: usize = s.len();
    if !looks_at(s, 0, "{width=") {
        return None;
    }
    match find_char(s, '}', 7) {
        Some(c) => {
            let inner = part(s, 7, c);
            let n: usize = inner.len();
            let number = if n >= 2 && looks_at(inner, n - 2, "px") {
                let head = part(inner, 0, n - 2);
                assert(head@ =~= inner@.take(n - 2));
                head
            } else {
                inner
            };
            let (a, b) = trim_range(number);
            Some((to_string(part(number, a, b)), c + 1))
        },
        None => None,
    }
}

/// Parses a leading `{width=320}` or `{width=320px}`: the number as written,
/// and the text behind the closing `}`. Whether it reads as a number is left to
/// the caller.
pub fn parse_leading_width(s: &str) -> (r: Option<(String, &str)>)
    ensures
        r is Some == width_attr(s@) is Some,
        r is Some ==> (r->0).0@ == (width_attr(s@)->0).0 && (r->0).1@ == s@.skip(
            (width_attr(s@)->0).1,
        ),
{
    let t = Text::new(s);
    let n: usize = t.chars.len();
    match find_width(t.chars.as_slice()) {
        Some((number, at)) => {
            let rest = s.substring_char(at, n);
            assert(rest@ =~= s@.skip(at as int));
            Some((number, rest))
        },
        None => None,
    }
}

/// Which of `nodes` is the leading image: the first, or the one behind a text
/// of nothing but whitespace.
pub open spec fn lead_index(nodes: Seq<Tree>) -> int {
    if nodes.len() > 0 {
        match nodes[0].kind {
            Kind::Text(s) => if trim(s).len() == 0 {
                1
            } else {
                0
            },
            _ => 0,
        }
    } else {
        0
    }
}

/// The width attribute that begins the text behind the image at `k`, and where
/// it ends in the source.
pub open spec fn attr_behind(nodes: Seq<Tree>, k: int) -> Option<(Seq<char>, Option<int>)> {
    if 0 <= k && k + 1 < nodes.len() {
        match nodes[k + 1].kind {
            Kind::Text(t) => match width_attr(t) {
                Some((number, after)) => Some(
                    (
                        number,
                        match nodes[k + 1].at {
                            Some(q) => Some(moved(q.start as int, offset(t, after) as int)),
                            None => None,
                        },
                    ),
                ),
                None => None,
            },
            _ => None,
        }
    } else {
        None
    }
}

/// The image that leads `nodes`.
pub open spec fn lead_image(nodes: Seq<Tree>) -> Option<Picture> {
    let k = lead_index(nodes);
    if 0 <= k < nodes.len() && nodes[k].at is Some {
        let end = nodes[k].at->0.end as int;
        match nodes[k].kind {
            Kind::Image { url, alt } => Some(
                Picture {
                    src: url,
                    alt,
                    width: match attr_behind(nodes, k) {
                        Some((number, _)) => Some(number),
                        None => None,
                    },
                    end,
                    attr_end: match attr_behind(nodes, k) {
                        Some((_, Some(e))) => e,
                        _ => end,
                    },
                },
            ),
            _ => None,
        }
    } else {
        None
    }
}

/// A text node without a place in the source.
pub open spec fn text_node(s: Seq<char>) -> Tree {
    Tree { kind: Kind::Text(s), children: seq![], align: seq![], at: None }
}

/// What stands behind the leading image, to be shown below it: the text behind
/// it without a readable attribute and without leading whitespace, and all
/// other nodes.
pub open spec fn below_image(nodes: Seq<Tree>, readable: bool) -> Seq<Tree> {
    let k = lead_index(nodes);
    if k + 1 < nodes.len() {
        match nodes[k + 1].kind {
            Kind::Text(t) => {
                let tail = match width_attr(t) {
                    Some((_, after)) => if readable {
                        t.skip(after)
                    } else {
                        t
                    },
                    None => t,
                };
                let rest = trim_start(tail);
                if rest.len() > 0 {
                    seq![text_node(rest)] + nodes.skip(k + 2)
                } else {
                    nodes.skip(k + 2)
                }
            },
            _ => nodes.skip(k + 1),
        }
    } else {
        seq![]
    }
}

fn find_lead(nodes: &Vec<DocNode>) -> (r: usize)
    ensures
        r as int == lead_index(trees(nodes@)),
{
    proof {
        lemma_trees(nodes@);
    }
    if nodes.len() == 0 {
        return 0;
    }
    assert(trees(nodes@)[0] == tree(nodes@[0]));
    if let Kind::Text(s) = &nodes[0].kind {
        let t = Text::new(s.as_str());
        let (a, b) = trim_range(t.chars.as_slice());
        if a == b {
            return 1;
        }
    }
    0
}

/// The image that leads a block of `nodes` (leading whitespace ignored), with
/// the `{width=…}` attribute right behind it. `None` if the block begins with
/// no image.
pub fn leading_image(nodes: &Vec<DocNode>) -> (r: Option<ImageInfo>)
    ensures
        r is Some == lead_image(trees(nodes@)) is Some,
        r is Some ==> r->0@ == lead_image(trees(nodes@))->0,
{
    let ghost all = trees(nodes@);
    proof {
        lemma_trees(nodes@);
    }
    let k: usize = find_lead(nodes);
    let n: usize = nodes.len();
    if k >= n {
        return None;
    }
    assert(all[k as int] == tree(nodes@[k as int]));
    let end: usize = match &nodes[k].at {
        Some(p) => p.end,
        None => {
            return None;
        },
    };
    match &nodes[k].kind {
        Kind::Image { url, alt } => {
            let mut width: Option<String> = None;
            let mut attr_end: usize = end;
            if n - k > 1 {
                let next = &nodes[k + 1];
                assert(all[k + 1] == tree(nodes@[k + 1]));
                if let Kind::Text(s) = &next.kind {
                    let t = Text::new(s.as_str());
                    if let Some((number, after)) = find_width(t.chars.as_slice()) {
                        width = Some(number);
                        assert(t.offs@[after as int] == offset(s@, after as int));
                        if let Some(q) = &next.at {
                            attr_end = q.start.saturating_add(t.offs[after]);
                        }
                    }
                }
            }
            Some(ImageInfo { src: url.clone(), alt: alt.clone(), width, end, attr_end })
        },
        _ => None,
    }
}

/// What stands behind the leading image of `nodes`, to be shown below it (a
/// caption). `readable` says whether its width attribute reads as a number; one
/// that does not stays text.
pub fn image_caption(nodes: &Vec<DocNode>, readable: bool) -> (r: Vec<DocNode>)
    ensures
        trees(r@) == below_image(trees(nodes@), readable),
{
    let ghost all = trees(nodes@);
    proof {
        lemma_trees(nodes@);
    }
    let mut out: Vec<DocNode> = Vec::new();
    let k: usize = find_lead(nodes);
    let n: usize = nodes.len();
    if n < 2 || k >= n - 1 {
        return out;
    }
    let mut from: usize = k + 1;
    assert(all[k + 1] == tree(nodes@[k + 1]));
    if let Kind::Text(s) = &nodes[k + 1].kind {
        let t = Text::new(s.as_str());
        let c = t.chars.as_slice();
        let m: usize = c.len();
        let start: usize = match find_width(c) {
            Some((_, after)) => if readable {
                after
            } else {
                0
            },
            None => 0,
        };
        let tail = part(c, start, m);
        assert(s@.skip(0) =~= s@);
        assert(tail@ =~= s@.skip(start as int));
        let a: usize = skip_space(tail, 0);
        let w: usize = tail.len();
        if a < w {
            let rest = part(tail, a, w);
            assert(rest@ =~= trim_start(tail@));
            let node = DocNode {
                kind: Kind::Text(to_string(rest)),
                children: Vec::new(),
                align: Vec::new(),
                at: None,
            };
            assert(node@ == text_node(rest@)) by {
                assert(node@.children =~= seq![]);
                assert(node@.align =~= seq![]);
            }
            proof {
                lemma_trees_push(out@, node);
            }
            out.push(node);
        }
        from = k + 2;
    }
    crate::doc::push_copies(&mut out, nodes, from);
    assert(trees(out@) =~= below_image(all, readable));
    out
}

// --- Collecting ---

/// The leading images of a node and of the list items below it.
pub open spec fn pictures_in(n: Tree) -> Seq<Picture>
    decreases n, 0int,
{
    match n.kind {
        Kind::Paragraph => match lead_image(n.children) {
            Some(p) => seq![p],
            None => seq![],
        },
        Kind::List(_) => pictures_upto(n.children, n.children.len() as int),
        Kind::ListItem(_) => pictures_upto(n.children, n.children.len() as int),
        _ => seq![],
    }
}

/// The leading images of the first `k` nodes.
pub open spec fn pictures_upto(nodes: Seq<Tree>, k: int) -> Seq<Picture>
    decreases nodes, k,
{
    if k <= 0 || k > nodes.len() {
        seq![]
    } else {
        pictures_upto(nodes, k - 1) + pictures_in(nodes[k - 1])
    }
}

/// Image infos as values.
pub open spec fn info_views(v: Seq<ImageInfo>) -> Seq<Picture> {
    v.map_values(|i: ImageInfo| i@)
}

fn push_pictures(n: &DocNode, out: &mut Vec<ImageInfo>)
    ensures
        info_views(final(out)@) == info_views(old(out)@) + pictures_in(n@),
    decreases n, 0int,
{
    let ghost before = info_views(out@);
    proof {
        lemma_trees(n.children@);
    }
    match &n.kind {
        Kind::Paragraph => {
            if let Some(info) = leading_image(&n.children) {
                out.push(info);
                assert(info_views(out@) =~= before + pictures_in(n@));
            } else {
                assert(before + pictures_in(n@) =~= before);
            }
        },
        Kind::List(_) => {
            collect_images(&n.children, out);
        },
        Kind::ListItem(_) => {
            collect_images(&n.children, out);
        },
        _ => {
            assert(before + pictures_in(n@) =~= before);
        },
    }
}

/// Collects the leading images of paragraphs and list items, in the order of
/// the page.
pub fn collect_images(nodes: &Vec<DocNode>, out: &mut Vec<ImageInfo>)
    ensures
        info_views(final(out)@) == info_views(old(out)@) + pictures_upto(
            trees(nodes@),
            nodes@.len() as int,
        ),
    decreases nodes@, 1int,
{
    let ghost before = info_views(out@);
    let ghost all = trees(nodes@);
    let mut i: usize = 0;
    proof {
        lemma_trees(nodes@);
    }
    assert(before + pictures_upto(all, 0) =~= before);
    while i < nodes.len()
        invariant
            i <= nodes@.len(),
            all == trees(nodes@),
            all.len() == nodes@.len(),
            forall|k: int| 0 <= k < nodes@.len() ==> #[trigger] all[k] == tree(nodes@[k]),
            info_views(out@) == before + pictures_upto(all, i as int),
        decreases nodes.len() - i,
    {
        assert(all[i as int] == tree(nodes@[i as int]));
        push_pictures(&nodes[i], out);
        assert(before + pictures_upto(all, i as int) + pictures_in(all[i as int]) =~= before
            + pictures_upto(all, i + 1));
        i += 1;
    }
}

/// Every image that leads a paragraph or list item of `source`, in document
/// order, with its width attribute and the places to overwrite to set the
/// width.
pub fn images(source: &str) -> (r: Vec<ImageInfo>)
    ensures
        info_views(r@) == match markdown_blocks(source@, false) {
            Some(b) => pictures_upto(b, b.len() as int),
            None => seq![],
        },
{
    let mut out: Vec<ImageInfo> = Vec::new();
    assert(info_views(out@) =~= seq![]);
    if let Some(nodes) = parse_blocks(source, false) {
        proof {
            lemma_trees(nodes@);
        }
        collect_images(&nodes, &mut out);
        assert(info_views(out@) =~= pictures_upto(trees(nodes@), nodes@.len() as int));
    }
    out
}

/// Whether images are looked for below a node of this kind.
pub open spec fn holds_images(kind: Kind<Seq<char>>) -> bool {
    match kind {
        Kind::Paragraph => true,
        Kind::Heading(_) => true,
        Kind::Blockquote => true,
        Kind::List(_) => true,
        Kind::ListItem(_) => true,
        Kind::Emphasis => true,
        Kind::Strong => true,
        Kind::Delete => true,
        Kind::Link(_) => true,
        Kind::LinkReference(_) => true,
        Kind::Table => true,
        Kind::TableRow => true,
        Kind::TableCell => true,
        _ => false,
    }
}

/// The sources of all images in a node.
pub open spec fn srcs_in(n: Tree) -> Seq<Seq<char>>
    decreases n, 0int,
{
    match n.kind {
        Kind::Image { url, alt } => seq![url],
        k => if holds_images(k) {
            srcs_upto(n.children, n.children.len() as int)
        } else {
            seq![]
        },
    }
}

/// The sources of all images in the first `k` nodes.
pub open spec fn srcs_upto(nodes: Seq<Tree>, k: int) -> Seq<Seq<char>>
    decreases nodes, k,
{
    if k <= 0 || k > nodes.len() {
        seq![]
    } else {
        srcs_upto(nodes, k - 1) + srcs_in(nodes[k - 1])
    }
}

fn looks_below(kind: &Kind<String>) -> (r: bool)
    ensures
        r == holds_images(crate::tree::kind_view(*kind)),
{
    match kind {
        Kind::Paragraph => true,
        Kind::Heading(_) => true,
        Kind::Blockquote => true,
        Kind::List(_) => true,
        Kind::ListItem(_) => true,
        Kind::Emphasis => true,
        Kind::Strong => true,
        Kind::Delete => true,
        Kind::Link(_) => true,
        Kind::LinkReference(_) => true,
        Kind::Table => true,
        Kind::TableRow => true,
        Kind::TableCell => true,
        _ => false,
    }
}

fn push_srcs(n: &DocNode, out: &mut Vec<String>)
    ensures
        views(final(out)@) == views(old(out)@) + srcs_in(n@),
    decreases n, 0int,
{
    let ghost before = views(out@);
    proof {
        lemma_trees(n.children@);
    }
    if let Kind::Image { url, .. } = &n.kind {
        out.push(url.clone());
        assert(views(out@) =~= before + srcs_in(n@));
    } else if looks_below(&n.kind) {
        collect_all_image_srcs(&n.children, out);
    } else {
        assert(before + srcs_in(n@) =~= before);
    }
}

/// Collects the source of every image in `nodes`.
pub fn collect_all_image_srcs(nodes: &Vec<DocNode>, out: &mut Vec<String>)
    ensures
        views(final(out)@) == views(old(out)@) + srcs_upto(trees(nodes@), nodes@.len() as int),
    decreases nodes@, 1int,
{
    let ghost before = views(out@);
    let ghost all = trees(nodes@);
    let mut i: usize = 0;
    proof {
        lemma_trees(nodes@);
    }
    assert(before + srcs_upto(all, 0) =~= before);
    while i < nodes.len()
        invariant
            i <= nodes@.len(),
            all == trees(nodes@),
            all.len() == nodes@.len(),
            forall|k: int| 0 <= k < nodes@.len() ==> #[trigger] all[k] == tree(nodes@[k]),
            views(out@) == before + srcs_upto(all, i as int),
        decreases nodes.len() - i,
    {
        assert(all[i as int] == tree(nodes@[i as int]));
        push_srcs(&nodes[i], out);
        assert(before + srcs_upto(all, i as int) + srcs_in(all[i as int]) =~= before + srcs_upto(
            all,
            i + 1,
        ));
        i += 1;
    }
}

/// Every image source in `source`, leading a block and inline, so that a host
/// can decode them ahead.
pub fn all_image_srcs(source: &str) -> (r: Vec<String>)
    ensures
        views(r@) == match markdown_blocks(source@, false) {
            Some(b) => srcs_upto(b, b.len() as int),
            None => seq![],
        },
{
    let mut out: Vec<String> = Vec::new();
    assert(views(out@) =~= seq![]);
    if let Some(nodes) = parse_blocks(source, false) {
        proof {
            lemma_trees(nodes@);
        }
        collect_all_image_srcs(&nodes, &mut out);
        assert(views(out@) =~= srcs_upto(trees(nodes@), nodes@.len() as int));
    }
    out
}

} // verus!
