//! The document tree: what a page parses into.
use vstd::prelude::*;

verus! {

/// A byte range of the source.
#[derive(Clone, Copy, PartialEq, Eq, Debug, Structural)]
pub struct Span {
    pub start: usize,
    pub end: usize,
}

/// How a table column is aligned.
#[derive(Clone, Copy, PartialEq, Eq, Debug, Structural)]
pub enum Align {
    Unset,
    Left,
    Right,
    Center,
}

/// What a node is, with the text that it carries.
#[derive(PartialEq, Eq, Debug)]
pub enum Kind<S> {
    Root,
    Paragraph,
    /// A heading of a depth from one to six.
    Heading(u8),
    Blockquote,
    /// A list, ordered or not.
    List(bool),
    /// A list item; a task item says whether it is done.
    ListItem(Option<bool>),
    Code { lang: Option<S>, value: S },
    /// A block of display math.
    Math(S),
    Html(S),
    ThematicBreak,
    Table,
    TableRow,
    TableCell,
    FootnoteDefinition { label: Option<S>, id: S },
    Definition { id: S, url: S },
    Text(S),
    Strong,
    Emphasis,
    Delete,
    InlineCode(S),
    InlineMath(S),
    Link(S),
    LinkReference(S),
    Image { url: S, alt: S },
    ImageReference { id: S, alt: S },
    FootnoteReference { label: Option<S>, id: S },
    Break,
    Other,
}

/// A node of the document tree.
#[derive(Debug)]
pub struct DocNode {
    pub kind: Kind<String>,
    pub children: Vec<DocNode>,
    /// The alignment of each column, for a table.
    pub align: Vec<Align>,
    /// Where the node stands in the source.
    pub at: Option<Span>,
}

/// A node as a value.
pub struct Tree {
    pub kind: Kind<Seq<char>>,
    pub children: Seq<Tree>,
    pub align: Seq<Align>,
    pub at: Option<Span>,
}

/// The text of an optional string.
pub open spec fn opt_view(s: Option<String>) -> Option<Seq<char>> {
    match s {
        Some(s) => Some(s@),
        None => None,
    }
}

/// A kind with its strings as values.
pub open spec fn kind_view(k: Kind<String>) -> Kind<Seq<char>> {
    match k {
        Kind::Root => Kind::Root,
        Kind::Paragraph => Kind::Paragraph,
        Kind::Heading(d) => Kind::Heading(d),
        Kind::Blockquote => Kind::Blockquote,
        Kind::List(o) => Kind::List(o),
        Kind::ListItem(c) => Kind::ListItem(c),
        Kind::Code { lang, value } => Kind::Code { lang: opt_view(lang), value: value@ },
        Kind::Math(s) => Kind::Math(s@),
        Kind::Html(s) => Kind::Html(s@),
        Kind::ThematicBreak => Kind::ThematicBreak,
        Kind::Table => Kind::Table,
        Kind::TableRow => Kind::TableRow,
        Kind::TableCell => Kind::TableCell,
        Kind::FootnoteDefinition { label, id } => Kind::FootnoteDefinition {
            label: opt_view(label),
            id: id@,
        },
        Kind::Definition { id, url } => Kind::Definition { id: id@, url: url@ },
        Kind::Text(s) => Kind::Text(s@),
        Kind::Strong => Kind::Strong,
        Kind::Emphasis => Kind::Emphasis,
        Kind::Delete => Kind::Delete,
        Kind::InlineCode(s) => Kind::InlineCode(s@),
        Kind::InlineMath(s) => Kind::InlineMath(s@),
        Kind::Link(s) => Kind::Link(s@),
        Kind::LinkReference(s) => Kind::LinkReference(s@),
        Kind::Image { url, alt } => Kind::Image { url: url@, alt: alt@ },
        Kind::ImageReference { id, alt } => Kind::ImageReference { id: id@, alt: alt@ },
        Kind::FootnoteReference { label, id } => Kind::FootnoteReference {
            label: opt_view(label),
            id: id@,
        },
        Kind::Break => Kind::Break,
        Kind::Other => Kind::Other,
    }
}

/// A node as a value.
pub open spec fn tree(n: DocNode) -> Tree
    decreases n,
{
    Tree {
        kind: kind_view(n.kind),
        children: trees(n.children@),
        align: n.align@,
        at: n.at,
    }
}

/// Nodes as values.
pub open spec fn trees(s: Seq<DocNode>) -> Seq<Tree>
    decreases s,
{
    if s.len() == 0 {
        seq![]
    } else {
        trees(s.drop_last()).push(tree(s.last()))
    }
}

impl View for DocNode {
    type V = Tree;

    open spec fn view(&self) -> Tree {
        tree(*self)
    }
}

/// `trees` works node by node.
pub proof fn lemma_trees(s: Seq<DocNode>)
    ensures
        trees(s).len() == s.len(),
        forall|i: int| 0 <= i < s.len() ==> #[trigger] trees(s)[i] == tree(s[i]),
    decreases s.len(),
{
    if s.len() > 0 {
        lemma_trees(s.drop_last());
        assert forall|i: int| 0 <= i < s.len() implies #[trigger] trees(s)[i] == tree(s[i]) by {
            if i < s.len() - 1 {
                assert(trees(s)[i] == trees(s.drop_last())[i]);
                assert(s.drop_last()[i] == s[i]);
            }
        }
    }
}

pub proof fn lemma_trees_push(s: Seq<DocNode>, n: DocNode)
    ensures
        trees(s.push(n)) == trees(s).push(tree(n)),
{
    assert(s.push(n).drop_last() =~= s);
}

fn copy_opt(s: &Option<String>) -> (r: Option<String>)
    ensures
        opt_view(r) == opt_view(*s),
{
    match s {
        Some(s) => Some(s.clone()),
        None => None,
    }
}

fn copy_kind(k: &Kind<String>) -> (r: Kind<String>)
    ensures
        kind_view(r) == kind_view(*k),
{
    match k {
        Kind::Root => Kind::Root,
        Kind::Paragraph => Kind::Paragraph,
        Kind::Heading(d) => Kind::Heading(*d),
        Kind::Blockquote => Kind::Blockquote,
        Kind::List(o) => Kind::List(*o),
        Kind::ListItem(c) => Kind::ListItem(*c),
        Kind::Code { lang, value } => Kind::Code { lang: copy_opt(lang), value: value.clone() },
        Kind::Math(s) => Kind::Math(s.clone()),
        Kind::Html(s) => Kind::Html(s.clone()),
        Kind::ThematicBreak => Kind::ThematicBreak,
        Kind::Table => Kind::Table,
        Kind::TableRow => Kind::TableRow,
        Kind::TableCell => Kind::TableCell,
        Kind::FootnoteDefinition { label, id } => Kind::FootnoteDefinition {
            label: copy_opt(label),
            id: id.clone(),
        },
        Kind::Definition { id, url } => Kind::Definition { id: id.clone(), url: url.clone() },
        Kind::Text(s) => Kind::Text(s.clone()),
        Kind::Strong => Kind::Strong,
        Kind::Emphasis => Kind::Emphasis,
        Kind::Delete => Kind::Delete,
        Kind::InlineCode(s) => Kind::InlineCode(s.clone()),
        Kind::InlineMath(s) => Kind::InlineMath(s.clone()),
        Kind::Link(s) => Kind::Link(s.clone()),
        Kind::LinkReference(s) => Kind::LinkReference(s.clone()),
        Kind::Image { url, alt } => Kind::Image { url: url.clone(), alt: alt.clone() },
        Kind::ImageReference { id, alt } => Kind::ImageReference {
            id: id.clone(),
            alt: alt.clone(),
        },
        Kind::FootnoteReference { label, id } => Kind::FootnoteReference {
            label: copy_opt(label),
            id: id.clone(),
        },
        Kind::Break => Kind::Break,
        Kind::Other => Kind::Other,
    }
}

fn copy_align(v: &Vec<Align>) -> (r: Vec<Align>)
    ensures
        r@ == v@,
{
    let mut out: Vec<Align> = Vec::new();
    let mut i: usize = 0;
    while i < v.len()
        invariant
            i <= v@.len(),
            out@ == v@.take(i as int),
        decreases v.len() - i,
    {
        out.push(v[i]);
        assert(v@.take(i + 1) =~= v@.take(i as int).push(v@[i as int]));
        i += 1;
    }
    assert(v@.take(v@.len() as int) =~= v@);
    out
}

/// A copy of a node with all below it.
pub fn copy_node(n: &DocNode) -> (r: DocNode)
    ensures
        r@ == n@,
    decreases n,
{
    DocNode {
        kind: copy_kind(&n.kind),
        children: copy_nodes(&n.children),
        align: copy_align(&n.align),
        at: n.at,
    }
}

/// A copy of nodes with all below them.
pub fn copy_nodes(v: &Vec<DocNode>) -> (r: Vec<DocNode>)
    ensures
        trees(r@) == trees(v@),
    decreases v,
{
    let mut out: Vec<DocNode> = Vec::new();
    let mut i: usize = 0;
    while i < v.len()
        invariant
            i <= v@.len(),
            trees(out@) == trees(v@.take(i as int)),
        decreases v.len() - i,
    {
        let c = copy_node(&v[i]);
        proof {
            lemma_trees_push(out@, c);
            assert(v@.take(i + 1) =~= v@.take(i as int).push(v@[i as int]));
            lemma_trees_push(v@.take(i as int), v@[i as int]);
        }
        out.push(c);
        i += 1;
    }
    assert(v@.take(v@.len() as int) =~= v@);
    out
}

// --- Weight ---

/// How many nodes a tree has.
pub open spec fn weight(n: Tree) -> nat
    decreases n, 0int,
{
    1 + weight_from(n.children, 0)
}

/// How many nodes the trees from `i` on have.
pub open spec fn weight_from(nodes: Seq<Tree>, i: int) -> nat
    decreases nodes, nodes.len() - i,
{
    if i < 0 || i >= nodes.len() {
        0
    } else {
        weight(nodes[i]) + weight_from(nodes, i + 1)
    }
}

/// Trees that agree from some place on weigh the same from there.
pub proof fn lemma_weight_shift(a: Seq<Tree>, b: Seq<Tree>, i: int, j: int)
    requires
        0 <= i <= a.len(),
        0 <= j <= b.len(),
        a.skip(i) == b.skip(j),
    ensures
        weight_from(a, i) == weight_from(b, j),
    decreases a.len() - i,
{
    assert(a.skip(i).len() == a.len() - i);
    assert(b.skip(j).len() == b.len() - j);
    if i < a.len() {
        assert(a.skip(i)[0] == a[i] && b.skip(j)[0] == b[j]);
        assert(a[i] == b[j]);
        assert(a.skip(i + 1) =~= a.skip(i).skip(1));
        assert(b.skip(j + 1) =~= b.skip(j).skip(1));
        lemma_weight_shift(a, b, i + 1, j + 1);
    }
}

/// Fewer trees weigh no more.
pub proof fn lemma_weight_later(nodes: Seq<Tree>, i: int, j: int)
    requires
        0 <= i <= j <= nodes.len(),
    ensures
        weight_from(nodes, j) <= weight_from(nodes, i),
    decreases j - i,
{
    if i < j {
        lemma_weight_later(nodes, i + 1, j);
    }
}

/// One of several trees weighs no more than all of them.
pub proof fn lemma_weight_one(nodes: Seq<Tree>, i: int)
    requires
        0 <= i < nodes.len(),
    ensures
        weight(nodes[i]) + weight_from(nodes, i + 1) == weight_from(nodes, i),
        weight(nodes[i]) <= weight_from(nodes, 0),
        weight(nodes[i]) >= 1,
{
    lemma_weight_later(nodes, 0, i);
}

} // verus!
