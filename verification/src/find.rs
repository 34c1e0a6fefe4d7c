//! Searching a page: how often a query stands in its visible text, and in which
//! blocks.
use crate::blocks::{block_shows, renders_to_block};
use crate::doc::{alert_parts, callout_of, law_callout_does_not_grow};
use crate::inline::{build_inline, nothing, plain_style, with_nodes};
use crate::inline::{Host, Inline, Setting, Style};
use crate::math::{cow_text, normalize_math_fences, normalized};
use crate::parse::{markdown_blocks, parse_blocks};
use crate::rows::{all_rows, find_mixed, find_rows, mixed_of, piece_views, MixedSeg, Piece};
use crate::search::{matches_of, scan_matches};
use crate::text::Text;
use crate::tree::{
    lemma_trees, lemma_weight_one, tree, trees, weight, weight_from, DocNode, Kind, Tree,
};
use vstd::prelude::*;

verus! {

/// What inline content is built with where nothing is known.
pub open spec fn bare() -> Setting {
    Setting {
        host: crate::inline::Known { labels: seq![], refs: seq![], spacers: seq![] },
        defs: seq![],
    }
}

/// The visible text of a run of nodes, markup stripped.
pub open spec fn visible(nodes: Seq<Tree>) -> Seq<char> {
    with_nodes(nothing(), nodes, 0, plain_style(), bare()).text
}

fn bare_host() -> (r: Host)
    ensures
        r@ == bare().host,
{
    let r = Host { labels: Vec::new(), refs: Vec::new(), spacers: Vec::new() };
    assert(r@.labels =~= seq![]);
    assert(r@.refs =~= seq![]);
    assert(r@.spacers =~= seq![]);
    r
}

/// The visible text of a run of nodes, markup stripped.
pub fn inline_text(nodes: &Vec<DocNode>) -> (r: String)
    ensures
        r@ == visible(trees(nodes@)),
{
    let host = bare_host();
    let defs: Vec<(String, String)> = Vec::new();
    assert(crate::inline::def_views(defs@) =~= seq![]);
    let mut out = Inline::new();
    build_inline(nodes.as_slice(), Style::default(), &host, &defs, &mut out);
    out.text
}

/// How often `q` stands in the prose of a mixed paragraph, from piece `i` on.
pub open spec fn piece_hits(pieces: Seq<Piece>, i: int, q: Seq<char>) -> nat
    decreases pieces.len() - i,
{
    if i < 0 || i >= pieces.len() {
        0
    } else {
        let here = match pieces[i] {
            Piece::Prose(nodes) => matches_of(visible(nodes), q).len(),
            Piece::Props(_) => 0,
        };
        here + piece_hits(pieces, i + 1, q)
    }
}

/// How often `q` stands in the text of a paragraph of the page `s`. Properties
/// are shown as a panel, which is not searched.
pub open spec fn prose_hits(n: Tree, s: Seq<char>, q: Seq<char>) -> nat {
    if all_rows(s, n.at) is Some {
        0
    } else {
        match mixed_of(s, n.at, n.children) {
            Some(pieces) => piece_hits(pieces, 0, q),
            None => matches_of(visible(n.children), q).len(),
        }
    }
}

/// How often `q` stands in the visible text of a node of the page `s`: of a
/// paragraph, heading or table cell its own, of lists, quotes, tables and
/// footnotes that of all below. A callout counts without its marker, and not at
/// all where it is folded. Code blocks, raw HTML and property panels are not
/// searched.
pub open spec fn hits(n: Tree, s: Seq<char>, q: Seq<char>) -> nat
    decreases weight(n), 0int,
{
    match n.kind {
        Kind::Paragraph => prose_hits(n, s, q),
        Kind::Heading(_) => matches_of(visible(n.children), q).len(),
        Kind::TableCell => matches_of(visible(n.children), q).len(),
        Kind::Blockquote => match callout_of(n.children) {
            Some(c) => if c.fold == Some(true) {
                0
            } else {
                proof {
                    law_callout_does_not_grow(n.children);
                }
                hits_from(c.children, 0, s, q)
            },
            None => hits_from(n.children, 0, s, q),
        },
        Kind::List(_) => hits_from(n.children, 0, s, q),
        Kind::ListItem(_) => hits_from(n.children, 0, s, q),
        Kind::Table => hits_from(n.children, 0, s, q),
        Kind::TableRow => hits_from(n.children, 0, s, q),
        Kind::FootnoteDefinition { .. } => hits_from(n.children, 0, s, q),
        _ => 0,
    }
}

/// How often `q` stands in the visible text of the nodes from `i` on.
pub open spec fn hits_from(nodes: Seq<Tree>, i: int, s: Seq<char>, q: Seq<char>) -> nat
    decreases weight_from(nodes, i), 1int,
{
    if i < 0 || i >= nodes.len() {
        0
    } else {
        proof {
            lemma_weight_one(nodes, i);
        }
        hits(nodes[i], s, q) + hits_from(nodes, i + 1, s, q)
    }
}

/// `x` repeated.
pub open spec fn times(x: int, n: nat) -> Seq<int> {
    Seq::new(n, |k: int| x)
}

/// Block numbers as values.
pub open spec fn ints(v: Seq<usize>) -> Seq<int> {
    v.map_values(|x: usize| x as int)
}

fn push_times(out: &mut Vec<usize>, x: usize, n: usize)
    ensures
        ints(final(out)@) == ints(old(out)@) + times(x as int, n as nat),
{
    let ghost before = ints(out@);
    let mut i: usize = 0;
    assert(before + times(x as int, 0) =~= before);
    while i < n
        invariant
            i <= n,
            ints(out@) == before + times(x as int, i as nat),
        decreases n - i,
    {
        let ghost now = ints(out@);
        out.push(x);
        assert(ints(out@) =~= now.push(x as int));
        assert(now.push(x as int) =~= before + times(x as int, (i + 1) as nat));
        i += 1;
    }
}

proof fn lemma_times(x: int, a: nat, b: nat)
    ensures
        times(x, a) + times(x, b) == times(x, a + b),
{
    assert(times(x, a) + times(x, b) =~= times(x, a + b));
}

fn push_text_hits(children: &Vec<DocNode>, query: &str, ix: usize, out: &mut Vec<usize>)
    ensures
        ints(final(out)@) == ints(old(out)@) + times(
            ix as int,
            matches_of(visible(trees(children@)), query@).len(),
        ),
{
    let text = inline_text(children);
    let found = scan_matches(text.as_str(), query);
    push_times(out, ix, found.len());
}

/// Puts block number `ix` behind `out` once for each match in the text of a
/// paragraph.
fn push_prose_hits(n: &DocNode, t: &Text, query: &str, ix: usize, out: &mut Vec<usize>)
    requires
        t.wf(),
    ensures
        ints(final(out)@) == ints(old(out)@) + times(ix as int, prose_hits(n@, t@, query@)),
{
    assert(ints(out@) + times(ix as int, 0) =~= ints(out@));
    if find_rows(t, &n.at).is_some() {
        return;
    }
    match find_mixed(t, &n.at, &n.children) {
        Some(pieces) => {
            let ghost all = piece_views(pieces@);
            let ghost want = ints(out@) + times(ix as int, piece_hits(all, 0, query@));
            let mut i: usize = 0;
            while i < pieces.len()
                invariant
                    i <= pieces@.len(),
                    all == piece_views(pieces@),
                    want == ints(out@) + times(ix as int, piece_hits(all, i as int, query@)),
                decreases pieces.len() - i,
            {
                let ghost before = ints(out@);
                let ghost rest = piece_hits(all, i + 1, query@);
                assert(all[i as int] == pieces@[i as int]@);
                match &pieces[i] {
                    MixedSeg::Prose(nodes) => {
                        push_text_hits(nodes, query, ix, out);
                        proof {
                            let here = matches_of(visible(trees(nodes@)), query@).len();
                            lemma_times(ix as int, here, rest);
                            assert(before + (times(ix as int, here) + times(ix as int, rest))
                                =~= (before + times(ix as int, here)) + times(ix as int, rest));
                        }
                    },
                    MixedSeg::Props(_) => {},
                }
                i += 1;
            }
            assert(ints(out@) + times(ix as int, 0) =~= ints(out@));
        },
        None => {
            push_text_hits(&n.children, query, ix, out);
        },
    }
}

/// Puts block number `ix` behind `out` once for each match in the visible text
/// of a node.
fn push_hits(n: &DocNode, t: &Text, query: &str, ix: usize, out: &mut Vec<usize>)
    requires
        t.wf(),
    ensures
        ints(final(out)@) == ints(old(out)@) + times(ix as int, hits(n@, t@, query@)),
    decreases weight(n@), 0int,
{
    let ghost before = ints(out@);
    assert(before + times(ix as int, 0) =~= before);
    match &n.kind {
        Kind::Paragraph => {
            push_prose_hits(n, t, query, ix, out);
        },
        Kind::Heading(_) => {
            push_text_hits(&n.children, query, ix, out);
        },
        Kind::TableCell => {
            push_text_hits(&n.children, query, ix, out);
        },
        Kind::Blockquote => {
            if let Some((_, fold, _, children)) = alert_parts(&n.children) {
                proof {
                    law_callout_does_not_grow(trees(n.children@));
                }
                if let Some(true) = fold {
                    return;
                }
                for_each_inline_text(&children, t, query, ix, out);
            } else {
                for_each_inline_text(&n.children, t, query, ix, out);
            }
        },
        Kind::List(_) => {
            for_each_inline_text(&n.children, t, query, ix, out);
        },
        Kind::ListItem(_) => {
            for_each_inline_text(&n.children, t, query, ix, out);
        },
        Kind::Table => {
            for_each_inline_text(&n.children, t, query, ix, out);
        },
        Kind::TableRow => {
            for_each_inline_text(&n.children, t, query, ix, out);
        },
        Kind::FootnoteDefinition { .. } => {
            for_each_inline_text(&n.children, t, query, ix, out);
        },
        _ => {},
    }
}

fn for_each_inline_text(
    nodes: &Vec<DocNode>,
    t: &Text,
    query: &str,
    ix: usize,
    out: &mut Vec<usize>,
)
    requires
        t.wf(),
    ensures
        ints(final(out)@) == ints(old(out)@) + times(
            ix as int,
            hits_from(trees(nodes@), 0, t@, query@),
        ),
    decreases weight_from(trees(nodes@), 0), 1int,
{
    let ghost all = trees(nodes@);
    let ghost want = ints(out@) + times(ix as int, hits_from(all, 0, t@, query@));
    proof {
        lemma_trees(nodes@);
    }
    let mut i: usize = 0;
    while i < nodes.len()
        invariant
            t.wf(),
            i <= nodes@.len(),
            all == trees(nodes@),
            all.len() == nodes@.len(),
            forall|k: int| 0 <= k < nodes@.len() ==> #[trigger] all[k] == tree(nodes@[k]),
            want == ints(out@) + times(ix as int, hits_from(all, i as int, t@, query@)),
        decreases nodes.len() - i,
    {
        let ghost before = ints(out@);
        assert(all[i as int] == tree(nodes@[i as int]));
        proof {
            lemma_weight_one(all, i as int);
            lemma_times(
                ix as int,
                hits(all[i as int], t@, query@),
                hits_from(all, i + 1, t@, query@),
            );
        }
        push_hits(&nodes[i], t, query, ix, out);
        proof {
            let a = times(ix as int, hits(all[i as int], t@, query@));
            let b = times(ix as int, hits_from(all, i + 1, t@, query@));
            assert(before + (a + b) =~= (before + a) + b);
        }
        i += 1;
    }
    assert(ints(out@) + times(ix as int, 0) =~= ints(out@));
}

/// The number of each block that holds a match, once per match, for the nodes
/// from `i` on; the first that is shown is block `ix`.
pub open spec fn found_from(
    nodes: Seq<Tree>,
    i: int,
    ix: int,
    s: Seq<char>,
    q: Seq<char>,
) -> Seq<int>
    decreases nodes.len() - i,
{
    if i < 0 || i >= nodes.len() {
        seq![]
    } else if block_shows(nodes[i].kind) {
        times(ix, hits(nodes[i], s, q)) + found_from(nodes, i + 1, ix + 1, s, q)
    } else {
        found_from(nodes, i + 1, ix, s, q)
    }
}

/// The matches of `q` in a page `s` that parses into `blocks`: for each, the
/// number of its block among those shown. An empty query matches nothing.
pub open spec fn found_in(blocks: Option<Seq<Tree>>, s: Seq<char>, q: Seq<char>) -> Seq<int> {
    match blocks {
        Some(nodes) => if q.len() == 0 {
            seq![]
        } else {
            found_from(nodes, 0, 0, s, q)
        },
        None => seq![],
    }
}

/// The block number of each match of `query` in the page `source` that was
/// parsed into `nodes`, in the order of the page.
pub fn find_in(nodes: &Vec<DocNode>, source: &str, query: &str) -> (r: Vec<usize>)
    ensures
        ints(r@) == found_in(Some(trees(nodes@)), source@, query@),
{
    let t = Text::new(source);
    let mut out: Vec<usize> = Vec::new();
    let ghost all = trees(nodes@);
    assert(ints(out@) =~= seq![]);
    if query.is_empty() {
        return out;
    }
    proof {
        lemma_trees(nodes@);
    }
    let ghost want = found_from(all, 0, 0, source@, query@);
    assert(seq![] + want =~= want);
    let mut ix: usize = 0;
    let mut i: usize = 0;
    while i < nodes.len()
        invariant
            ix <= i <= nodes@.len(),
            t.wf(),
            t@ == source@,
            all == trees(nodes@),
            all.len() == nodes@.len(),
            forall|k: int| 0 <= k < nodes@.len() ==> #[trigger] all[k] == tree(nodes@[k]),
            want == ints(out@) + found_from(all, i as int, ix as int, source@, query@),
        decreases nodes.len() - i,
    {
        let ghost before = ints(out@);
        assert(all[i as int] == tree(nodes@[i as int]));
        if renders_to_block(&nodes[i]) {
            push_hits(&nodes[i], &t, query, ix, &mut out);
            proof {
                let a = times(ix as int, hits(all[i as int], t@, query@));
                let b = found_from(all, i + 1, ix + 1, source@, query@);
                assert(before + (a + b) =~= (before + a) + b);
            }
            ix += 1;
        }
        i += 1;
    }
    assert(ints(out@) + Seq::<int>::empty() =~= ints(out@));
    out
}

/// The block number of each match of `query` in the visible text of `source`, in
/// the order of the page.
pub fn find_matches(source: &str, query: &str) -> (r: Vec<usize>)
    ensures
        ints(r@) == found_in(
            markdown_blocks(normalized(source@), true),
            normalized(source@),
            query@,
        ),
{
    let text = normalize_math_fences(source);
    let page = cow_text(&text);
    match parse_blocks(page, true) {
        Some(nodes) => find_in(&nodes, page, query),
        None => {
            let out: Vec<usize> = Vec::new();
            assert(ints(out@) =~= seq![]);
            out
        },
    }
}

/// How often `query` stands in the visible text of `source`, in any ASCII case.
/// An empty query does not.
pub fn match_count(source: &str, query: &str) -> (r: usize)
    ensures
        r == found_in(
            markdown_blocks(normalized(source@), true),
            normalized(source@),
            query@,
        ).len(),
{
    find_matches(source, query).len()
}

} // verus!
