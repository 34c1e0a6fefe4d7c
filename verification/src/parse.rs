//! Parsing a page into its document tree.
use crate::tree::{trees, Align, Kind, DocNode, Span, Tree};
use markdown::mdast;
use vstd::prelude::*;

verus! {

/// A node of the `markdown` crate, opaque.
#[verifier::external_type_specification]
#[verifier::external_body]
pub struct ExMdastNode(mdast::Node);

/// A column alignment of the `markdown` crate, opaque.
#[verifier::external_type_specification]
#[verifier::external_body]
pub struct ExMdastAlignKind(mdast::AlignKind);

/// The top-level blocks that the `markdown` crate parses a text into with its
/// GFM options, with the math constructs on or off. `None` where it finds the
/// text not to be a document.
pub uninterp spec fn markdown_blocks(text: Seq<char>, math: bool) -> Option<Seq<Tree>>;

/// The children of the root that `markdown::to_mdast` gives for `text` with
/// `ParseOptions::gfm()` and its `math_flow` and `math_text` constructs set to
/// `math`, each node with what the library keeps of it. The result depends on
/// the text and the options alone.
#[verifier::external_body]
pub(crate) fn parse_blocks(text: &str, math: bool) -> (r: Option<Vec<DocNode>>)
    ensures
        r is Some == markdown_blocks(text@, math) is Some,
        r is Some ==> trees(r->0@) == markdown_blocks(text@, math)->0,
{
    let mut options = markdown::ParseOptions::gfm();
    options.constructs.math_flow = math;
    options.constructs.math_text = math;
    match markdown::to_mdast(text, &options) {
        Ok(mdast::Node::Root(root)) => Some(root.children.iter().map(lift).collect()),
        _ => None,
    }
}

/// A node of the `markdown` crate with all below it (`mdast::Node::children`,
/// `mdast::Node::position`) as a node of the library.
#[verifier::external_body]
fn lift(n: &mdast::Node) -> DocNode {
    let align = match n {
        mdast::Node::Table(t) => t.align.iter().map(lift_align).collect(),
        _ => Vec::new(),
    };
    DocNode {
        kind: lift_container(n),
        children: n.children().map_or(Vec::new(), |c| c.iter().map(lift).collect()),
        align,
        at: n.position().map(|p| Span { start: p.start.offset, end: p.end.offset }),
    }
}

/// `mdast::AlignKind` as a column alignment of the library.
#[verifier::external_body]
fn lift_align(a: &mdast::AlignKind) -> Align {
    match a {
        mdast::AlignKind::Left => Align::Left,
        mdast::AlignKind::Right => Align::Right,
        mdast::AlignKind::Center => Align::Center,
        mdast::AlignKind::None => Align::Unset,
    }
}

/// The kinds of `mdast::Node` that hold other nodes.
#[verifier::external_body]
fn lift_container(n: &mdast::Node) -> Kind<String> {
    match n {
        mdast::Node::Paragraph(_) => Kind::Paragraph,
        mdast::Node::Heading(h) => Kind::Heading(h.depth),
        mdast::Node::Blockquote(_) => Kind::Blockquote,
        mdast::Node::List(l) => Kind::List(l.ordered),
        mdast::Node::ListItem(i) => Kind::ListItem(i.checked),
        mdast::Node::Table(_) => Kind::Table,
        mdast::Node::TableRow(_) => Kind::TableRow,
        mdast::Node::TableCell(_) => Kind::TableCell,
        mdast::Node::Strong(_) => Kind::Strong,
        mdast::Node::Emphasis(_) => Kind::Emphasis,
        mdast::Node::Delete(_) => Kind::Delete,
        _ => lift_leaf(n),
    }
}

/// The kinds of `mdast::Node` that hold one text.
#[verifier::external_body]
fn lift_leaf(n: &mdast::Node) -> Kind<String> {
    match n {
        mdast::Node::Root(_) => Kind::Root,
        mdast::Node::Text(t) => Kind::Text(t.value.clone()),
        mdast::Node::Html(h) => Kind::Html(h.value.clone()),
        mdast::Node::Math(m) => Kind::Math(m.value.clone()),
        mdast::Node::InlineCode(c) => Kind::InlineCode(c.value.clone()),
        mdast::Node::InlineMath(m) => Kind::InlineMath(m.value.clone()),
        mdast::Node::Link(l) => Kind::Link(l.url.clone()),
        mdast::Node::ThematicBreak(_) => Kind::ThematicBreak,
        mdast::Node::Break(_) => Kind::Break,
        _ => lift_resource(n),
    }
}

/// The kinds of `mdast::Node` that hold several texts.
#[verifier::external_body]
fn lift_resource(n: &mdast::Node) -> Kind<String> {
    match n {
        mdast::Node::Code(c) => Kind::Code { lang: c.lang.clone(), value: c.value.clone() },
        mdast::Node::LinkReference(l) => Kind::LinkReference(l.identifier.clone()),
        mdast::Node::Image(i) => Kind::Image { url: i.url.clone(), alt: i.alt.clone() },
        mdast::Node::ImageReference(i) => Kind::ImageReference {
            id: i.identifier.clone(),
            alt: i.alt.clone(),
        },
        _ => lift_association(n),
    }
}

/// The kinds of `mdast::Node` that go by an identifier.
#[verifier::external_body]
fn lift_association(n: &mdast::Node) -> Kind<String> {
    match n {
        mdast::Node::Definition(d) => Kind::Definition {
            id: d.identifier.clone(),
            url: d.url.clone(),
        },
        mdast::Node::FootnoteDefinition(f) => Kind::FootnoteDefinition {
            label: f.label.clone(),
            id: f.identifier.clone(),
        },
        mdast::Node::FootnoteReference(f) => Kind::FootnoteReference {
            label: f.label.clone(),
            id: f.identifier.clone(),
        },
        _ => Kind::Other,
    }
}

} // verus!
