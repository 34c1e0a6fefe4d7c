//! Reading the document tree: callouts, embeds, fold keys, display math,
//! reference definitions and leading images.
use crate::alerts::{alert_marker, marker_at, AlertKind};
use crate::anchors::{embed_line, embed_of};
use crate::inline::{def_views, moved, source_of, url_from};
use crate::math::dollars;
use crate::text::{
    index_at, lemma_offset_mono, line_end_at, line_end_from, looks_at, offset, on_boundary, part,
    stands_at, to_string, trim, trim_range, Text,
};
use crate::tree::{
    copy_node, kind_view, lemma_trees, lemma_trees_push, lemma_weight_later, lemma_weight_one,
    lemma_weight_shift, opt_view, tree, trees, weight, weight_from, DocNode, Kind, Span, Tree,
};
use vstd::prelude::*;

verus! {

// --- Slices of the source ---

/// The characters of `s` from byte `a` to byte `b`, where both lie on
/// boundaries in order.
pub open spec fn slice_at(s: Seq<char>, a: int, b: int) -> Option<(int, int)> {
    if a <= b && on_boundary(s, a) && on_boundary(s, b) {
        Some((index_at(s, a), index_at(s, b)))
    } else {
        None
    }
}

pub(crate) fn find_slice(t: &Text, a: usize, b: usize) -> (r: Option<(usize, usize)>)
    requires
        t.wf(),
    ensures
        r is Some == slice_at(t@, a as int, b as int) is Some,
        r is Some ==> ((r->0).0 as int, (r->0).1 as int) == slice_at(t@, a as int, b as int)->0 && (
        r->0).0 <= (r->0).1 <= t@.len(),
{
    if a > b {
        return None;
    }
    match (t.index_of(a), t.index_of(b)) {
        (Some(i), Some(j)) => {
            proof {
                if i > j {
                    lemma_offset_mono(t@, j as int, i as int);
                }
            }
            Some((i, j))
        },
        _ => None,
    }
}

/// The source text of a node.
pub open spec fn source_slice(s: Seq<char>, at: Option<Span>) -> Option<Seq<char>> {
    match at {
        Some(p) => match slice_at(s, p.start as int, p.end as int) {
            Some((i, j)) => Some(s.subrange(i, j)),
            None => None,
        },
        None => None,
    }
}

pub(crate) fn find_source<'a>(t: &'a Text, at: &Option<Span>) -> (r: Option<&'a [char]>)
    requires
        t.wf(),
    ensures
        r is Some == source_slice(t@, *at) is Some,
        r is Some ==> r->0@ == source_slice(t@, *at)->0,
{
    match at {
        Some(p) => match find_slice(t, p.start, p.end) {
            Some((i, j)) => Some(part(t.chars.as_slice(), i, j)),
            None => None,
        },
        None => None,
    }
}

// --- Callouts ---

/// A callout: its kind, its fold state, where its marker stands in the source,
/// and its content without the marker.
pub struct Callout {
    pub kind: AlertKind,
    pub fold: Option<bool>,
    pub marker: int,
    pub children: Seq<Tree>,
}

/// The text node `t` without its first `n` characters; its source moves with
/// it.
pub open spec fn text_behind(t: Tree, s: Seq<char>, n: int) -> Tree {
    Tree {
        kind: Kind::Text(s.skip(n)),
        at: match t.at {
            Some(p) => Some(
                Span { start: moved(p.start as int, offset(s, n) as int) as usize, end: p.end },
            ),
            None => None,
        },
        ..t
    }
}

/// Inline nodes without a marker that takes all of the first: that goes, and a
/// hard break behind it too.
pub open spec fn behind_marker(inner: Seq<Tree>) -> Seq<Tree> {
    if inner.len() > 1 && inner[1].kind is Break {
        inner.skip(2)
    } else {
        inner.skip(1)
    }
}

/// The content of a callout: `nodes` without the marker of `n` characters that
/// leads the text `s` at the start of the first paragraph.
pub open spec fn without_marker(nodes: Seq<Tree>, s: Seq<char>, n: int) -> Seq<Tree> {
    let p = nodes[0];
    if n >= s.len() {
        let rest = behind_marker(p.children);
        if rest.len() == 0 {
            nodes.skip(1)
        } else {
            seq![Tree { children: rest, ..p }] + nodes.skip(1)
        }
    } else {
        seq![
            Tree {
                children: seq![text_behind(p.children[0], s, n)] + p.children.skip(1),
                ..p
            },
        ] + nodes.skip(1)
    }
}

/// The text that a blockquote begins with, where it begins with any.
pub open spec fn lead_text(nodes: Seq<Tree>) -> Option<Seq<char>> {
    if nodes.len() > 0 && nodes[0].kind is Paragraph && nodes[0].children.len() > 0 {
        match nodes[0].children[0].kind {
            Kind::Text(s) => Some(s),
            _ => None,
        }
    } else {
        None
    }
}

/// The callout that a blockquote of `nodes` is.
pub open spec fn callout_of(nodes: Seq<Tree>) -> Option<Callout> {
    match lead_text(nodes) {
        Some(s) => match marker_at(s, 0, true) {
            Some(m) => Some(
                Callout {
                    kind: m.kind,
                    fold: m.fold,
                    marker: source_of(nodes[0].children[0].at),
                    children: without_marker(nodes, s, m.body),
                },
            ),
            None => None,
        },
        None => None,
    }
}

/// The nodes of `v` from `from` on, copied behind `out`.
pub(crate) fn push_copies(out: &mut Vec<DocNode>, v: &Vec<DocNode>, from: usize)
    requires
        from <= v@.len(),
    ensures
        trees(final(out)@) == trees(old(out)@) + trees(v@).skip(from as int),
{
    let ghost before = trees(out@);
    let ghost all = trees(v@);
    let mut i: usize = from;
    proof {
        lemma_trees(v@);
    }
    assert(before + all.subrange(from as int, from as int) =~= before);
    while i < v.len()
        invariant
            from <= i <= v@.len(),
            all == trees(v@),
            all.len() == v@.len(),
            forall|k: int| 0 <= k < v@.len() ==> #[trigger] all[k] == tree(v@[k]),
            trees(out@) == before + all.subrange(from as int, i as int),
        decreases v.len() - i,
    {
        let c = copy_node(&v[i]);
        proof {
            lemma_trees_push(out@, c);
            assert(all[i as int] == tree(v@[i as int]));
            assert((before + all.subrange(from as int, i as int)).push(all[i as int]) =~= before
                + all.subrange(from as int, i + 1));
        }
        out.push(c);
        i += 1;
    }
    assert(all.subrange(from as int, all.len() as int) =~= all.skip(from as int));
}

/// A copy of the paragraph `p` without the marker that takes all of its first
/// text.
fn cut_whole(p: &DocNode) -> (r: DocNode)
    requires
        p.children@.len() > 0,
    ensures
        r@ == (Tree { children: behind_marker(p@.children), ..p@ }),
{
    proof {
        lemma_trees(p.children@);
        if p.children@.len() > 1 {
            assert(trees(p.children@)[1] == tree(p.children@[1]));
        }
    }
    let mut inner: Vec<DocNode> = Vec::new();
    let mut from: usize = 1;
    if p.children.len() > 1 {
        if let Kind::Break = &p.children[1].kind {
            from = 2;
        }
    }
    push_copies(&mut inner, &p.children, from);
    assert(trees(inner@) =~= behind_marker(p@.children));
    with_children(p, inner)
}

/// A copy of `p` with other children.
fn with_children(p: &DocNode, children: Vec<DocNode>) -> (r: DocNode)
    ensures
        r@ == (Tree { children: trees(children@), ..p@ }),
{
    let whole = copy_node(p);
    DocNode { kind: whole.kind, children, align: whole.align, at: whole.at }
}

/// A copy of the paragraph `p` whose first text lost `n` characters.
fn cut_text(p: &DocNode, s: &String, n: usize) -> (r: DocNode)
    requires
        p.children@.len() > 0,
        n <= s@.len(),
        kind_view(p.children@[0].kind) == Kind::<Seq<char>>::Text(s@),
    ensures
        r@ == (Tree {
            children: seq![text_behind(p@.children[0], s@, n as int)] + p@.children.skip(1),
            ..p@
        }),
{
    proof {
        lemma_trees(p.children@);
        assert(trees(p.children@)[0] == tree(p.children@[0]));
    }
    let t = Text::new(s.as_str());
    let c = t.chars.as_slice();
    let total: usize = c.len();
    let rest = part(c, n, total);
    assert(rest@ =~= s@.skip(n as int));
    let value = to_string(rest);
    assert(t.offs@[n as int] == offset(s@, n as int));
    let first = copy_node(&p.children[0]);
    let at: Option<Span> = match first.at {
        Some(q) => Some(Span { start: q.start.saturating_add(t.offs[n]), end: q.end }),
        None => None,
    };
    let head = DocNode { kind: Kind::Text(value), children: first.children, align: first.align, at };
    assert(head@ == text_behind(p@.children[0], s@, n as int));
    let mut inner: Vec<DocNode> = Vec::new();
    proof {
        lemma_trees_push(inner@, head);
    }
    inner.push(head);
    push_copies(&mut inner, &p.children, 1);
    assert(trees(inner@) =~= seq![text_behind(p@.children[0], s@, n as int)]
        + p@.children.skip(1));
    with_children(p, inner)
}

/// If a blockquote of `nodes` is a callout, its kind, its fold state
/// (`Some(true)` is folded), the marker's source byte offset, and a copy of its
/// children with the marker stripped (the first text's source offset advances
/// by the stripped length).
pub fn alert_parts(nodes: &Vec<DocNode>) -> (r: Option<(AlertKind, Option<bool>, usize, Vec<DocNode>)>)
    ensures
        r is Some == callout_of(trees(nodes@)) is Some,
        r is Some ==> {
            let c = callout_of(trees(nodes@))->0;
            &&& (r->0).0 == c.kind
            &&& (r->0).1 == c.fold
            &&& (r->0).2 as int == c.marker
            &&& trees((r->0).3@) == c.children
        },
{
    let ghost all = trees(nodes@);
    proof {
        lemma_trees(nodes@);
    }
    if nodes.len() == 0 {
        return None;
    }
    let p = &nodes[0];
    assert(all[0] == p@);
    proof {
        lemma_trees(p.children@);
    }
    if let Kind::Paragraph = &p.kind {
    } else {
        return None;
    }
    if p.children.len() == 0 {
        return None;
    }
    let first = &p.children[0];
    assert(p@.children[0] == first@);
    let s = match &first.kind {
        Kind::Text(s) => s,
        _ => {
            return None;
        },
    };
    let marker: usize = match &first.at {
        Some(q) => q.start,
        None => 0,
    };
    let t = Text::new(s.as_str());
    let total: usize = t.chars.len();
    match alert_marker(s.as_str()) {
        Some((kind, strip, fold)) => {
            let ghost m = marker_at(s@, 0, true)->0;
            proof {
                lemma_marker_body(s@);
                crate::text::lemma_index_at(s@, m.body);
            }
            let n: usize = match t.index_of(strip) {
                Some(n) => n,
                None => total,
            };
            let mut out: Vec<DocNode> = Vec::new();
            if n >= total {
                let q = cut_whole(p);
                proof {
                    lemma_trees(q.children@);
                }
                if q.children.len() > 0 {
                    proof {
                        lemma_trees_push(out@, q);
                    }
                    out.push(q);
                }
            } else {
                let q = cut_text(p, s, n);
                proof {
                    lemma_trees_push(out@, q);
                }
                out.push(q);
            }
            push_copies(&mut out, nodes, 1);
            assert(trees(out@) =~= without_marker(all, s@, n as int));
            Some((kind, fold, marker, out))
        },
        None => None,
    }
}

proof fn lemma_marker_body(s: Seq<char>)
    ensures
        marker_at(s, 0, true) is Some ==> 0 <= marker_at(s, 0, true)->0.body <= s.len(),
{
}

/// If a blockquote of `nodes` is a callout, its kind and a copy of its children
/// with the marker stripped.
pub fn alert_children(nodes: &Vec<DocNode>) -> (r: Option<(AlertKind, Vec<DocNode>)>)
    ensures
        r is Some == callout_of(trees(nodes@)) is Some,
        r is Some ==> {
            let c = callout_of(trees(nodes@))->0;
            (r->0).0 == c.kind && trees((r->0).1@) == c.children
        },
{
    match alert_parts(nodes) {
        Some((kind, _, _, children)) => Some((kind, children)),
        None => None,
    }
}

// --- Small readings ---

/// The fold key of a heading: its first source line, trimmed.
pub open spec fn fold_key(s: Seq<char>, at: Option<Span>) -> Option<Seq<char>> {
    match source_slice(s, at) {
        Some(h) => Some(trim(h.take(line_end_from(h, 0)))),
        None => None,
    }
}

pub(crate) fn find_fold_key(t: &Text, at: &Option<Span>) -> (r: Option<String>)
    requires
        t.wf(),
    ensures
        opt_view(r) == fold_key(t@, *at),
{
    match find_source(t, at) {
        Some(h) => {
            let e: usize = line_end_at(h, 0);
            let line = part(h, 0, e);
            assert(line@ =~= h@.take(e as int));
            let (a, b) = trim_range(line);
            Some(to_string(part(line, a, b)))
        },
        None => None,
    }
}

/// A heading's fold key: its trimmed first source line (`## Goals`).
pub fn heading_fold_key(at: &Option<Span>, source: &str) -> (r: Option<String>)
    ensures
        opt_view(r) == fold_key(source@, *at),
{
    let t = Text::new(source);
    find_fold_key(&t, at)
}

/// The target of a paragraph that is exactly one standalone embed.
pub open spec fn embed_in(children: Seq<Tree>) -> Option<Seq<char>> {
    if children.len() == 1 {
        match children[0].kind {
            Kind::Text(s) => embed_of(s),
            _ => None,
        }
    } else {
        None
    }
}

/// The embed target when a paragraph of `children` is exactly a standalone
/// `![[target]]` line.
pub fn embed_target(children: &Vec<DocNode>) -> (r: Option<String>)
    ensures
        opt_view(r) == embed_in(trees(children@)),
{
    proof {
        lemma_trees(children@);
    }
    if children.len() != 1 {
        return None;
    }
    assert(trees(children@)[0] == tree(children@[0]));
    match &children[0].kind {
        Kind::Text(s) => match embed_line(s.as_str()) {
            Some(t) => Some(t.to_owned()),
            None => None,
        },
        _ => None,
    }
}

/// Whether a node is math between `$$` in the source.
pub open spec fn is_display(n: Tree, s: Seq<char>) -> bool {
    n.kind is InlineMath && n.at is Some && on_boundary(s, n.at->0.start as int) && stands_at(
        s,
        index_at(s, n.at->0.start as int),
        dollars(),
    )
}

/// The one node of `nodes` from `i` on that is display math; none where there
/// are more.
pub open spec fn display_from(nodes: Seq<Tree>, s: Seq<char>, i: int, found: Option<int>) -> Option<
    int,
>
    decreases nodes.len() - i,
{
    if i < 0 || i >= nodes.len() {
        found
    } else if is_display(nodes[i], s) {
        if found is Some {
            None
        } else {
            display_from(nodes, s, i + 1, Some(i))
        }
    } else {
        display_from(nodes, s, i + 1, found)
    }
}

pub(crate) fn find_display(nodes: &Vec<DocNode>, t: &Text) -> (r: Option<usize>)
    requires
        t.wf(),
    ensures
        r is Some == display_from(trees(nodes@), t@, 0, None) is Some,
        r is Some ==> r->0 as int == display_from(trees(nodes@), t@, 0, None)->0,
        r is Some ==> r->0 < nodes@.len() && is_display(tree(nodes@[r->0 as int]), t@),
{
    let ghost all = trees(nodes@);
    proof {
        lemma_trees(nodes@);
        reveal_strlit("$$");
        assert("$$"@ =~= dollars());
    }
    let mut found: Option<usize> = None;
    let ghost mut f: Option<int> = None;
    let mut i: usize = 0;
    while i < nodes.len()
        invariant
            t.wf(),
            "$$"@ == dollars(),
            i <= nodes@.len(),
            all == trees(nodes@),
            all.len() == nodes@.len(),
            forall|k: int| 0 <= k < nodes@.len() ==> #[trigger] all[k] == tree(nodes@[k]),
            found is Some == f is Some,
            found is Some ==> found->0 as int == f->0 && found->0 < nodes@.len() && is_display(
                all[found->0 as int],
                t@,
            ),
            display_from(all, t@, 0, None) == display_from(all, t@, i as int, f),
        decreases nodes.len() - i,
    {
        assert(all[i as int] == tree(nodes@[i as int]));
        let n = &nodes[i];
        let mut hit = false;
        if let Kind::InlineMath(_) = &n.kind {
            if let Some(p) = &n.at {
                if let Some(k) = t.index_of(p.start) {
                    hit = looks_at(t.chars.as_slice(), k, "$$");
                }
            }
        }
        assert(hit == is_display(all[i as int], t@));
        if hit {
            if found.is_some() {
                return None;
            }
            found = Some(i);
            proof {
                f = Some(i as int);
            }
        }
        i += 1;
    }
    found
}

/// The single `$$…$$` math node among `nodes`, if there is exactly one: its
/// index.
pub fn only_display_math(nodes: &Vec<DocNode>, source: &str) -> (r: Option<usize>)
    ensures
        r is Some == display_from(trees(nodes@), source@, 0, None) is Some,
        r is Some ==> r->0 as int == display_from(trees(nodes@), source@, 0, None)->0,
{
    let t = Text::new(source);
    find_display(nodes, &t)
}

// --- Reference definitions ---

/// `defs` with the definition of a node and of all below it, in the order of
/// the page; the first definition of an id stays.
pub open spec fn defs_with(defs: Seq<(Seq<char>, Seq<char>)>, n: Tree) -> Seq<
    (Seq<char>, Seq<char>),
>
    decreases n, 0int,
{
    let own = match n.kind {
        Kind::Definition { id, url } => if url_from(defs, id, 0) is Some {
            defs
        } else {
            defs.push((id, url))
        },
        _ => defs,
    };
    defs_with_all(own, n.children, 0)
}

/// `defs` with the definitions of the nodes from `i` on.
pub open spec fn defs_with_all(
    defs: Seq<(Seq<char>, Seq<char>)>,
    nodes: Seq<Tree>,
    i: int,
) -> Seq<(Seq<char>, Seq<char>)>
    decreases nodes, nodes.len() - i,
{
    if i < 0 || i >= nodes.len() {
        defs
    } else {
        defs_with_all(defs_with(defs, nodes[i]), nodes, i + 1)
    }
}

/// Collects the reference definitions (`[id]: url`) of a node and all below it,
/// so that references resolve no matter where the definition appears.
pub fn collect_definitions(n: &DocNode, out: &mut Vec<(String, String)>)
    ensures
        def_views(final(out)@) == defs_with(def_views(old(out)@), n@),
    decreases n, 0int,
{
    let ghost before = def_views(out@);
    if let Kind::Definition { id, url } = &n.kind {
        if !has_definition(out, id) {
            let pair = (id.clone(), url.clone());
            out.push(pair);
            assert(def_views(out@) =~= before.push((id@, url@)));
        }
    }
    collect_all_definitions(&n.children, out);
}

fn has_definition(defs: &Vec<(String, String)>, id: &String) -> (r: bool)
    ensures
        r == url_from(def_views(defs@), id@, 0) is Some,
{
    let ghost all = def_views(defs@);
    let mut i: usize = 0;
    while i < defs.len()
        invariant
            i <= defs@.len(),
            all == def_views(defs@),
            url_from(all, id@, 0) == url_from(all, id@, i as int),
        decreases defs.len() - i,
    {
        assert(all[i as int] == (defs@[i as int].0@, defs@[i as int].1@));
        if defs[i].0 == *id {
            return true;
        }
        i += 1;
    }
    false
}

/// Collects the reference definitions of `nodes` and all below them.
pub fn collect_all_definitions(nodes: &Vec<DocNode>, out: &mut Vec<(String, String)>)
    ensures
        def_views(final(out)@) == defs_with_all(def_views(old(out)@), trees(nodes@), 0),
    decreases nodes@, 1int,
{
    let ghost all = trees(nodes@);
    let ghost want = defs_with_all(def_views(out@), all, 0);
    let mut i: usize = 0;
    proof {
        lemma_trees(nodes@);
    }
    while i < nodes.len()
        invariant
            i <= nodes@.len(),
            all == trees(nodes@),
            all.len() == nodes@.len(),
            forall|k: int| 0 <= k < nodes@.len() ==> #[trigger] all[k] == tree(nodes@[k]),
            want == defs_with_all(def_views(out@), all, i as int),
        decreases nodes.len() - i,
    {
        assert(all[i as int] == tree(nodes@[i as int]));
        collect_definitions(&nodes[i], out);
        i += 1;
    }
}

// --- Laws ---

/// A callout without its marker has no more nodes than with it.
pub proof fn law_callout_does_not_grow(nodes: Seq<Tree>)
    requires
        callout_of(nodes) is Some,
    ensures
        weight_from(callout_of(nodes)->0.children, 0) <= weight_from(nodes, 0),
{
    let s = lead_text(nodes)->0;
    let m = marker_at(s, 0, true)->0;
    let p = nodes[0];
    let inner = p.children;
    let out = without_marker(nodes, s, m.body);
    lemma_weight_one(nodes, 0);
    lemma_weight_one(inner, 0);
    if m.body >= s.len() {
        let rest = behind_marker(inner);
        if inner.len() > 1 && inner[1].kind is Break {
            lemma_weight_later(inner, 0, 2);
            assert(rest.skip(0) =~= inner.skip(2));
            lemma_weight_shift(rest, inner, 0, 2);
        } else {
            assert(rest.skip(0) =~= inner.skip(1));
            lemma_weight_shift(rest, inner, 0, 1);
        }
        if rest.len() == 0 {
            assert(out.skip(0) =~= nodes.skip(1));
            lemma_weight_shift(out, nodes, 0, 1);
        } else {
            let q = Tree { children: rest, ..p };
            assert(out[0] == q);
            assert(out.skip(1) =~= nodes.skip(1));
            lemma_weight_shift(out, nodes, 1, 1);
            assert(weight(q) <= weight(p));
        }
    } else {
        let head = text_behind(inner[0], s, m.body);
        let fresh = seq![head] + inner.skip(1);
        let q = Tree { children: fresh, ..p };
        assert(out[0] == q);
        assert(out.skip(1) =~= nodes.skip(1));
        lemma_weight_shift(out, nodes, 1, 1);
        assert(fresh[0] == head);
        assert(fresh.skip(1) =~= inner.skip(1));
        lemma_weight_shift(fresh, inner, 1, 1);
        assert(weight(head) == weight(inner[0]));
        assert(weight_from(fresh, 0) == weight_from(inner, 0));
        assert(weight(q) == weight(p));
    }
}

/// Whether no id is defined twice.
pub open spec fn ids_once(defs: Seq<(Seq<char>, Seq<char>)>) -> bool {
    forall|i: int, j: int| 0 <= i < j < defs.len() ==> #[trigger] defs[i].0 != #[trigger] defs[j].0
}

proof fn lemma_url_none(defs: Seq<(Seq<char>, Seq<char>)>, id: Seq<char>, i: int, k: int)
    requires
        0 <= i <= k < defs.len(),
        url_from(defs, id, i) is None,
    ensures
        defs[k].0 != id,
    decreases k - i,
{
    if i < k {
        lemma_url_none(defs, id, i + 1, k);
    }
}

/// Collecting definitions keeps every id once.
pub proof fn law_definitions_once(defs: Seq<(Seq<char>, Seq<char>)>, n: Tree)
    requires
        ids_once(defs),
    ensures
        ids_once(defs_with(defs, n)),
    decreases n, 0int,
{
    let own = match n.kind {
        Kind::Definition { id, url } => if url_from(defs, id, 0) is Some {
            defs
        } else {
            defs.push((id, url))
        },
        _ => defs,
    };
    assert(ids_once(own)) by {
        if let Kind::Definition { id, url } = n.kind {
            if url_from(defs, id, 0) is None {
                assert forall|i: int, j: int| 0 <= i < j < own.len() implies #[trigger] own[i].0
                    != #[trigger] own[j].0 by {
                    if j == defs.len() {
                        lemma_url_none(defs, id, 0, i);
                    } else {
                        assert(own[i] == defs[i] && own[j] == defs[j]);
                    }
                }
            }
        }
    }
    lemma_definitions_once_all(own, n.children, 0);
}

proof fn lemma_definitions_once_all(
    defs: Seq<(Seq<char>, Seq<char>)>,
    nodes: Seq<Tree>,
    i: int,
)
    requires
        ids_once(defs),
    ensures
        ids_once(defs_with_all(defs, nodes, i)),
    decreases nodes, nodes.len() - i,
{
    if 0 <= i < nodes.len() {
        law_definitions_once(defs, nodes[i]);
        lemma_definitions_once_all(defs_with(defs, nodes[i]), nodes, i + 1);
    }
}

} // verus!
