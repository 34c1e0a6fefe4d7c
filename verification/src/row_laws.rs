//! The rows and pieces of a paragraph that holds properties: each property line
//! makes a row, and what is prose stays prose.
use crate::doc::slice_at;
use crate::math_laws::{is_gap, is_tight, lacks};
use crate::page_laws::law_a_property_is_read;
use crate::properties::{is_key, value_start};
use crate::rows::{
    all_rows, clip_from, full_line_end, is_prop, lemma_run_end, pieces_from, row_at, rows_between,
    rows_from, run_end, Piece, RowView,
};
use crate::text;
use crate::text::{is_space, line_end_from, offset};
use crate::tree::{Span, Tree};
use vstd::prelude::*;

verus! {

/// A property line.
pub open spec fn property_line(
    lead: Seq<char>,
    key: Seq<char>,
    g: Seq<char>,
    value: Seq<char>,
    tail: Seq<char>,
) -> Seq<char> {
    lead + (key + seq![':', ':'] + g + value + tail)
}

proof fn lemma_value_start(
    lead: Seq<char>,
    key: Seq<char>,
    g: Seq<char>,
    value: Seq<char>,
    tail: Seq<char>,
)
    requires
        is_gap(lead),
        is_key(key),
        is_gap(g),
        is_tight(value),
        is_gap(tail),
    ensures
        value_start(property_line(lead, key, g, value, tail)) == lead.len() + key.len() + 2
            + g.len(),
{
    let own = key + seq![':', ':'] + g + value + tail;
    let line = lead + own;
    let w = lead.len() as int;
    let n = key.len() as int;
    crate::page_laws::lemma_property(key, g, value, tail);
    assert forall|k: int| 0 <= k < w implies is_space(#[trigger] line[k]) by {
        assert(line[k] == lead[k]);
    }
    assert(line[w] == own[0]);
    text::lemma_space_end_at(line, 0, w);
    assert(line.skip(w) =~= own);
    let rest = own.skip(n + 2);
    assert(rest =~= g + value + tail);
    let m = g.len() as int;
    assert forall|k: int| 0 <= k < m implies is_space(#[trigger] rest[k]) by {
        assert(rest[k] == g[k]);
    }
    assert(rest[m] == value[0]);
    text::lemma_space_end_at(rest, 0, m);
}

/// A property line makes a row of its key and value, which leads to where the
/// value stands in the source; a paragraph of one such line is that row.
pub proof fn law_a_property_line_makes_a_row(
    before: Seq<char>,
    lead: Seq<char>,
    key: Seq<char>,
    g: Seq<char>,
    value: Seq<char>,
    tail: Seq<char>,
    behind: Seq<char>,
    at: Span,
)
    requires
        is_gap(lead),
        is_key(key),
        is_gap(g),
        is_tight(value),
        is_gap(tail),
        lacks(property_line(lead, key, g, value, tail), '\n'),
        ({
            let line = property_line(lead, key, g, value, tail);
            let s = before + line + behind;
            slice_at(s, at.start as int, at.end as int) == Some(
                (before.len() as int, (before.len() + line.len()) as int),
            )
        }),
    ensures
        ({
            let line = property_line(lead, key, g, value, tail);
            let s = before + line + behind;
            let a = before.len() as int;
            let row = RowView {
                key,
                value,
                offset: offset(s, a + lead.len() + key.len() + 2 + g.len()) as int,
            };
            &&& row_at(s, a, a + line.len()) == Some(row)
            &&& all_rows(s, Some(at)) == Some(seq![row])
        }),
{
    let line = property_line(lead, key, g, value, tail);
    let s = before + line + behind;
    let a = before.len() as int;
    let b = a + line.len();
    law_a_property_is_read(lead, key, g, value, tail);
    lemma_value_start(lead, key, g, value, tail);
    assert(s.subrange(a, b) =~= line);
    text::lemma_index_of(s, '\n', a);
    let e = line_end_from(s, a);
    if e < b {
        assert(s[e] == line[e - a]);
    }
    assert(full_line_end(s, a, b) == b);
    let row = row_at(s, a, b)->0;
    assert(rows_from(s, b, b, seq![row]) == Some(seq![row]));
    assert(seq![].push(row) =~= seq![row]);
}

// --- Mixed paragraphs ---

/// The rows of the property lines from `k` on.
pub open spec fn prop_rows(s: Seq<char>, ranges: Seq<(int, int)>, k: int) -> Seq<RowView>
    decreases ranges.len() - k,
{
    if k < 0 || k >= ranges.len() {
        seq![]
    } else if is_prop(s, ranges[k]) {
        seq![row_at(s, ranges[k].0, ranges[k].1)->0] + prop_rows(s, ranges, k + 1)
    } else {
        prop_rows(s, ranges, k + 1)
    }
}

/// The rows of pieces.
pub open spec fn rows_in(pieces: Seq<Piece>) -> Seq<RowView>
    decreases pieces.len(),
{
    if pieces.len() == 0 {
        seq![]
    } else {
        rows_in(pieces.drop_last()) + match pieces.last() {
            Piece::Props(rows) => rows,
            Piece::Prose(_) => seq![],
        }
    }
}

proof fn lemma_run_rows(s: Seq<char>, ranges: Seq<(int, int)>, k: int, j: int)
    requires
        0 <= k <= j <= ranges.len(),
        forall|m: int| k <= m < j ==> is_prop(s, #[trigger] ranges[m]),
    ensures
        prop_rows(s, ranges, k) == rows_between(s, ranges, k, j) + prop_rows(s, ranges, j),
    decreases j - k,
{
    if k < j {
        lemma_run_rows(s, ranges, k, j - 1);
        assert(is_prop(s, ranges[j - 1]));
        assert(prop_rows(s, ranges, k) =~= rows_between(s, ranges, k, j) + prop_rows(s, ranges, j));
    } else {
        assert(rows_between(s, ranges, k, j) =~= Seq::<RowView>::empty());
        assert(prop_rows(s, ranges, k) =~= rows_between(s, ranges, k, j) + prop_rows(s, ranges, j));
    }
}

proof fn lemma_no_rows(s: Seq<char>, ranges: Seq<(int, int)>, k: int, j: int)
    requires
        0 <= k <= j <= ranges.len(),
        forall|m: int| k <= m < j ==> !is_prop(s, #[trigger] ranges[m]),
    ensures
        prop_rows(s, ranges, k) == prop_rows(s, ranges, j),
    decreases j - k,
{
    if k < j {
        assert(!is_prop(s, ranges[k]));
        lemma_no_rows(s, ranges, k + 1, j);
    }
}

/// A paragraph that mixes prose and properties loses no property: its pieces
/// hold a row for each property line, in order.
pub proof fn law_no_property_is_lost(
    out: Seq<Piece>,
    s: Seq<char>,
    ranges: Seq<(int, int)>,
    nodes: Seq<Tree>,
    k: int,
)
    requires
        0 <= k <= ranges.len(),
        pieces_from(out, s, ranges, nodes, k) is Some,
    ensures
        rows_in(pieces_from(out, s, ranges, nodes, k)->0) == rows_in(out) + prop_rows(s, ranges, k),
    decreases ranges.len() - k,
{
    if k < ranges.len() {
        let prop = is_prop(s, ranges[k]);
        lemma_run_end(s, ranges, k, prop);
        let j = run_end(s, ranges, k, prop);
        if prop {
            let rows = rows_between(s, ranges, k, j);
            let next = out.push(Piece::Props(rows));
            law_no_property_is_lost(next, s, ranges, nodes, j);
            lemma_run_rows(s, ranges, k, j);
            assert(next.drop_last() =~= out);
            assert(rows_in(next) =~= rows_in(out) + rows);
            assert((rows_in(out) + rows) + prop_rows(s, ranges, j) =~= rows_in(out) + (rows
                + prop_rows(s, ranges, j)));
        } else {
            let prose = clip_from(
                seq![],
                nodes,
                0,
                s,
                offset(s, ranges[k].0) as int,
                offset(s, ranges[j - 1].1) as int,
            )->0;
            lemma_no_rows(s, ranges, k, j);
            if prose.len() > 0 {
                let next = out.push(Piece::Prose(prose));
                law_no_property_is_lost(next, s, ranges, nodes, j);
                assert(next.drop_last() =~= out);
                assert(rows_in(next) =~= rows_in(out));
            } else {
                law_no_property_is_lost(out, s, ranges, nodes, j);
            }
        }
    } else {
        assert(rows_in(out) + prop_rows(s, ranges, k) =~= rows_in(out));
    }
}

/// Clipping keeps the nodes that lie inside whole and in their order, and drops
/// those that lie outside.
pub proof fn law_clipping_keeps_what_lies_inside(
    out: Seq<Tree>,
    nodes: Seq<Tree>,
    k: int,
    s: Seq<char>,
    lo: int,
    hi: int,
)
    requires
        0 <= k <= nodes.len(),
        lo < hi,
    ensures
        (forall|m: int|
            k <= m < nodes.len() ==> (#[trigger] nodes[m]).at is Some && lo <= nodes[m].at->0.start
                < nodes[m].at->0.end <= hi) ==> clip_from(out, nodes, k, s, lo, hi) == Some(
            out + nodes.skip(k),
        ),
        (forall|m: int|
            k <= m < nodes.len() ==> (#[trigger] nodes[m]).at is Some && (nodes[m].at->0.end <= lo
                || hi <= nodes[m].at->0.start)) ==> clip_from(out, nodes, k, s, lo, hi) == Some(
            out,
        ),
    decreases nodes.len() - k,
{
    if k < nodes.len() {
        let n = nodes[k];
        law_clipping_keeps_what_lies_inside(out + seq![n], nodes, k + 1, s, lo, hi);
        law_clipping_keeps_what_lies_inside(out + seq![], nodes, k + 1, s, lo, hi);
        assert(out + seq![n] + nodes.skip(k + 1) =~= out + nodes.skip(k));
        assert(out + Seq::<Tree>::empty() =~= out);
    } else {
        assert(out + nodes.skip(k) =~= out);
    }
}

} // verus!
