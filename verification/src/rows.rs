//! Paragraphs of properties: those that hold nothing else, and those that mix
//! them with prose.
use crate::doc::{find_slice, slice_at};
use crate::properties::{find_property, property_of, value_start};
use crate::text::{
    join, join_lines, lemma_index_of, line_end_at, line_end_from, lines_of, offset, part,
    skip_space_back, space_start, split_lines, to_string, trim_end, views, Text,
};
use crate::tree::{
    copy_node, lemma_trees, lemma_trees_push, tree, trees, DocNode, Kind, Span, Tree,
};
use vstd::prelude::*;

verus! {

/// A property row: key, value, and the source byte offset where the value text
/// begins.
#[derive(PartialEq, Eq, Debug)]
pub struct Row {
    pub key: String,
    pub value: String,
    pub offset: usize,
}

/// A [`Row`] as a value.
pub struct RowView {
    pub key: Seq<char>,
    pub value: Seq<char>,
    pub offset: int,
}

impl View for Row {
    type V = RowView;

    open spec fn view(&self) -> RowView {
        RowView { key: self.key@, value: self.value@, offset: self.offset as int }
    }
}

/// Rows as values.
pub open spec fn row_views(v: Seq<Row>) -> Seq<RowView> {
    v.map_values(|r: Row| r@)
}

/// The row of the line of `s` from `a` to `b`.
pub open spec fn row_at(s: Seq<char>, a: int, b: int) -> Option<RowView> {
    let line = s.subrange(a, b);
    match property_of(line) {
        Some((key, value)) => Some(
            RowView { key, value, offset: offset(s, a + value_start(line)) as int },
        ),
        None => None,
    }
}

fn find_row(t: &Text, a: usize, b: usize) -> (r: Option<Row>)
    requires
        t.wf(),
        a <= b <= t@.len(),
    ensures
        r is Some == row_at(t@, a as int, b as int) is Some,
        r is Some ==> r->0@ == row_at(t@, a as int, b as int)->0,
{
    let line = part(t.chars.as_slice(), a, b);
    match find_property(line) {
        Some(((k, l), (v, w))) => {
            let at: usize = a + v;
            assert(t.offs@[at as int] == offset(t@, at as int));
            Some(
                Row {
                    key: to_string(part(line, k, l)),
                    value: to_string(part(line, v, w)),
                    offset: t.offs[at],
                },
            )
        },
        None => None,
    }
}

// --- Paragraphs of properties alone ---

/// The end of the line at `i` with its line feed, not past `end`.
pub open spec fn full_line_end(s: Seq<char>, i: int, end: int) -> int {
    if line_end_from(s, i) < end {
        line_end_from(s, i) + 1
    } else {
        end
    }
}

/// `rows` with a row for each line of `s` from `i` to `end`; none where a line
/// is no property.
pub open spec fn rows_from(s: Seq<char>, i: int, end: int, rows: Seq<RowView>) -> Option<
    Seq<RowView>,
>
    decreases end - i,
{
    if i < 0 || i >= end || end > s.len() {
        Some(rows)
    } else {
        proof {
            lemma_index_of(s, '\n', i);
        }
        let e = full_line_end(s, i, end);
        match row_at(s, i, e) {
            Some(r) => rows_from(s, e, end, rows.push(r)),
            None => None,
        }
    }
}

/// The rows of a paragraph that holds properties alone.
pub open spec fn all_rows(s: Seq<char>, at: Option<Span>) -> Option<Seq<RowView>> {
    match at {
        Some(p) => match slice_at(s, p.start as int, p.end as int) {
            Some((i, j)) => if i < j {
                rows_from(s, i, j, seq![])
            } else {
                None
            },
            None => None,
        },
        None => None,
    }
}

pub(crate) fn find_rows(t: &Text, at: &Option<Span>) -> (r: Option<Vec<Row>>)
    requires
        t.wf(),
    ensures
        r is Some == all_rows(t@, *at) is Some,
        r is Some ==> row_views(r->0@) == all_rows(t@, *at)->0,
{
    let p = match at {
        Some(p) => p,
        None => {
            return None;
        },
    };
    let (from, end) = match find_slice(t, p.start, p.end) {
        Some(x) => x,
        None => {
            return None;
        },
    };
    if from >= end {
        return None;
    }
    let s = t.chars.as_slice();
    let ghost want = rows_from(t@, from as int, end as int, seq![]);
    let mut out: Vec<Row> = Vec::new();
    let mut i: usize = from;
    assert(row_views(out@) =~= seq![]);
    while i < end
        invariant
            t.wf(),
            s@ == t@,
            i <= end <= t@.len(),
            want == rows_from(t@, i as int, end as int, row_views(out@)),
            want == all_rows(t@, *at),
        decreases end - i,
    {
        let ghost acc = row_views(out@);
        let e0: usize = line_end_at(s, i);
        let e: usize = if e0 < end {
            e0 + 1
        } else {
            end
        };
        match find_row(t, i, e) {
            Some(r) => {
                let ghost v = r@;
                out.push(r);
                assert(row_views(out@) =~= acc.push(v));
            },
            None => {
                return None;
            },
        }
        i = e;
    }
    Some(out)
}

/// If every line of the paragraph at `at` is a `key:: value` property, its
/// rows. `None` for mixed or ordinary prose.
pub fn property_rows(at: &Option<Span>, source: &str) -> (r: Option<Vec<Row>>)
    ensures
        r is Some == all_rows(source@, *at) is Some,
        r is Some ==> row_views(r->0@) == all_rows(source@, *at)->0,
{
    let t = Text::new(source);
    find_rows(&t, at)
}

// --- Clipping ---

/// The character ranges of the lines of `s` from `i` to `end`, without their
/// line feeds.
pub open spec fn ranges_from(s: Seq<char>, i: int, end: int) -> Seq<(int, int)>
    decreases end - i,
{
    if i < 0 || i > end || end > s.len() {
        seq![]
    } else {
        proof {
            lemma_index_of(s, '\n', i);
        }
        let e = line_end_from(s, i);
        if e < end {
            seq![(i, e)] + ranges_from(s, e + 1, end)
        } else {
            seq![(i, end)]
        }
    }
}

fn find_ranges(t: &Text, from: usize, end: usize) -> (r: Vec<(usize, usize)>)
    requires
        t.wf(),
        from <= end <= t@.len(),
    ensures
        r@.len() == ranges_from(t@, from as int, end as int).len(),
        r@.len() > 0,
        forall|k: int|
            #![trigger r@[k]]
            0 <= k < r@.len() ==> (r@[k].0 as int, r@[k].1 as int) == ranges_from(
                t@,
                from as int,
                end as int,
            )[k] && r@[k].0 <= r@[k].1 <= t@.len(),
{
    let s = t.chars.as_slice();
    let ghost want = ranges_from(t@, from as int, end as int);
    let ghost mut acc: Seq<(int, int)> = seq![];
    let mut out: Vec<(usize, usize)> = Vec::new();
    let mut i: usize = from;
    assert(acc + want =~= want);
    loop
        invariant
            s@ == t@,
            i <= end <= t@.len(),
            want == acc + ranges_from(t@, i as int, end as int),
            out@.len() == acc.len(),
            forall|k: int|
                #![trigger out@[k]]
                0 <= k < out@.len() ==> (out@[k].0 as int, out@[k].1 as int) == acc[k] && out@[k].0
                    <= out@[k].1 <= t@.len(),
            want == ranges_from(t@, from as int, end as int),
        decreases end - i,
    {
        let e: usize = line_end_at(s, i);
        if e < end {
            let ghost rest = ranges_from(t@, e + 1, end as int);
            proof {
                assert(acc + (seq![(i as int, e as int)] + rest) =~= acc.push(
                    (i as int, e as int),
                ) + rest);
                acc = acc.push((i as int, e as int));
            }
            out.push((i, e));
            i = e + 1;
        } else {
            proof {
                assert(acc + seq![(i as int, end as int)] =~= acc.push((i as int, end as int)));
                acc = acc.push((i as int, end as int));
            }
            out.push((i, end));
            return out;
        }
    }
}

/// A clipped text so far: its lines, and the byte range of the source that they
/// cover.
pub struct Kept {
    pub lines: Seq<Seq<char>>,
    pub span: Option<(int, int)>,
}

/// `kept` with the value line `v` of the source line from `a` to `b`, if it
/// lies in the bytes from `lo` to `hi`. `None` where the source line, without
/// trailing whitespace, does not end with it.
pub open spec fn clip_line(
    kept: Kept,
    s: Seq<char>,
    a: int,
    b: int,
    v: Seq<char>,
    lo: int,
    hi: int,
) -> Option<Kept> {
    let line = s.subrange(a, b);
    let e = a + space_start(line, line.len() as int);
    if crate::text::ends(trim_end(line), v) {
        let x = offset(s, e - v.len()) as int;
        let y = offset(s, e) as int;
        if x < hi && y > lo {
            Some(
                Kept {
                    lines: kept.lines.push(v),
                    span: Some(
                        (
                            match kept.span {
                                Some((x0, _)) => x0,
                                None => x,
                            },
                            y,
                        ),
                    ),
                },
            )
        } else {
            Some(kept)
        }
    } else {
        None
    }
}

/// `kept` with the value lines from `k` on.
pub open spec fn clip_lines(
    kept: Kept,
    s: Seq<char>,
    ranges: Seq<(int, int)>,
    lines: Seq<Seq<char>>,
    k: int,
    lo: int,
    hi: int,
) -> Option<Kept>
    decreases lines.len() - k,
{
    if k < 0 || k >= lines.len() {
        Some(kept)
    } else {
        match clip_line(kept, s, ranges[k].0, ranges[k].1, lines[k], lo, hi) {
            Some(next) => clip_lines(next, s, ranges, lines, k + 1, lo, hi),
            None => None,
        }
    }
}

/// A text node cut to the lines that lie in the bytes from `lo` to `hi`, its
/// place in the source exact.
pub open spec fn clipped_text(n: Tree, v: Seq<char>, s: Seq<char>, lo: int, hi: int) -> Option<
    Tree,
> {
    match n.at {
        Some(p) => match slice_at(s, p.start as int, p.end as int) {
            Some((i, j)) => {
                let ranges = ranges_from(s, i, j);
                let lines = lines_of(v);
                if ranges.len() == lines.len() {
                    match clip_lines(
                        Kept { lines: seq![], span: None },
                        s,
                        ranges,
                        lines,
                        0,
                        lo,
                        hi,
                    ) {
                        Some(kept) => match kept.span {
                            Some((x, y)) => Some(
                                Tree {
                                    kind: Kind::Text(join_lines(kept.lines)),
                                    children: seq![],
                                    align: seq![],
                                    at: Some(Span { start: x as usize, end: y as usize }),
                                },
                            ),
                            None => None,
                        },
                        None => None,
                    }
                } else {
                    None
                }
            },
            None => None,
        },
        None => None,
    }
}

/// What stays of one node in the bytes from `lo` to `hi`: all of it, nothing,
/// or a part of a text. `None` where another node straddles an end.
pub open spec fn clipped(n: Tree, s: Seq<char>, lo: int, hi: int) -> Option<Seq<Tree>> {
    match n.at {
        None => None,
        Some(p) => if p.end <= lo || p.start >= hi {
            Some(seq![])
        } else if p.start >= lo && p.end <= hi {
            Some(seq![n])
        } else {
            match n.kind {
                Kind::Break => Some(seq![]),
                Kind::Text(v) => match clipped_text(n, v, s, lo, hi) {
                    Some(t) => Some(seq![t]),
                    None => None,
                },
                _ => None,
            }
        },
    }
}

/// `out` with what stays of the nodes from `k` on.
pub open spec fn clip_from(
    out: Seq<Tree>,
    nodes: Seq<Tree>,
    k: int,
    s: Seq<char>,
    lo: int,
    hi: int,
) -> Option<Seq<Tree>>
    decreases nodes.len() - k,
{
    if k < 0 || k >= nodes.len() {
        Some(out)
    } else {
        match clipped(nodes[k], s, lo, hi) {
            Some(more) => clip_from(out + more, nodes, k + 1, s, lo, hi),
            None => None,
        }
    }
}

fn clip_text(n: &DocNode, v: &String, t: &Text, lo: usize, hi: usize) -> (r: Option<DocNode>)
    requires
        t.wf(),
    ensures
        r is Some == clipped_text(n@, v@, t@, lo as int, hi as int) is Some,
        r is Some ==> r->0@ == clipped_text(n@, v@, t@, lo as int, hi as int)->0,
{
    let p = match &n.at {
        Some(p) => p,
        None => {
            return None;
        },
    };
    let (i, j) = match find_slice(t, p.start, p.end) {
        Some(x) => x,
        None => {
            return None;
        },
    };
    let ranges = find_ranges(t, i, j);
    let val = Text::new(v.as_str());
    let w = val.chars.as_slice();
    let rows = split_lines(w);
    if ranges.len() != rows.len() {
        return None;
    }
    let s = t.chars.as_slice();
    let ghost rs = ranges_from(t@, i as int, j as int);
    let ghost lines = lines_of(v@);
    let ghost mut kept = Kept { lines: seq![], span: None };
    let ghost want = clip_lines(kept, t@, rs, lines, 0, lo as int, hi as int);
    let mut out: Vec<String> = Vec::new();
    let mut span: Option<(usize, usize)> = None;
    let mut k: usize = 0;
    assert(views(out@) =~= seq![]);
    while k < rows.len()
        invariant
            t.wf(),
            s@ == t@,
            w@ == v@,
            lines == lines_of(v@),
            rs == ranges_from(t@, i as int, j as int),
            rows@.len() == lines.len(),
            ranges@.len() == rs.len(),
            rs.len() == lines.len(),
            forall|m: int|
                #![trigger ranges@[m]]
                0 <= m < ranges@.len() ==> (ranges@[m].0 as int, ranges@[m].1 as int) == rs[m]
                    && ranges@[m].0 <= ranges@[m].1 <= t@.len(),
            forall|m: int|
                #![trigger rows@[m]]
                #![trigger lines[m]]
                0 <= m < rows@.len() ==> rows@[m].0 <= rows@[m].1 <= w@.len() && w@.subrange(
                    rows@[m].0 as int,
                    rows@[m].1 as int,
                ) == lines[m],
            k <= rows@.len(),
            views(out@) == kept.lines,
            span is Some == kept.span is Some,
            span is Some ==> ((span->0).0 as int, (span->0).1 as int) == kept.span->0,
            want == clip_lines(kept, t@, rs, lines, k as int, lo as int, hi as int),
            n.at is Some,
            slice_at(t@, n.at->0.start as int, n.at->0.end as int) == Some((i as int, j as int)),
            want == clip_lines(
                Kept { lines: seq![], span: None },
                t@,
                rs,
                lines,
                0,
                lo as int,
                hi as int,
            ),
        decreases rows.len() - k,
    {
        assert(ranges@[k as int].0 <= ranges@[k as int].1);
        assert(rows@[k as int].0 <= rows@[k as int].1);
        let a: usize = ranges[k].0;
        let b: usize = ranges[k].1;
        let line = part(s, a, b);
        let vl = part(w, rows[k].0, rows[k].1);
        let ll: usize = line.len();
        let e0: usize = skip_space_back(line, ll);
        let m: usize = vl.len();
        let trimmed = part(line, 0, e0);
        assert(trimmed@ =~= trim_end(line@));
        if m > e0 || !same_at(trimmed, e0 - m, vl) {
            assert(clip_line(kept, t@, a as int, b as int, vl@, lo as int, hi as int) is None);
            return None;
        }
        let e: usize = a + e0;
        assert(t.offs@[e as int] == offset(t@, e as int));
        assert(t.offs@[e - m] == offset(t@, e - m));
        let x: usize = t.offs[e - m];
        let y: usize = t.offs[e];
        let ghost acc = views(out@);
        if x < hi && y > lo {
            out.push(to_string(vl));
            assert(views(out@) =~= acc.push(vl@));
            span = match span {
                Some((x0, _)) => Some((x0, y)),
                None => Some((x, y)),
            };
        }
        proof {
            kept = clip_line(kept, t@, a as int, b as int, vl@, lo as int, hi as int)->0;
        }
        k += 1;
    }
    match span {
        Some((x, y)) => {
            let node = DocNode {
                kind: Kind::Text(join(&out)),
                children: Vec::new(),
                align: Vec::new(),
                at: Some(Span { start: x, end: y }),
            };
            assert(node@.children =~= seq![]);
            assert(node@.align =~= seq![]);
            Some(node)
        },
        None => None,
    }
}

/// Whether `v` stands in `s` at `i`.
fn same_at(s: &[char], i: usize, v: &[char]) -> (r: bool)
    requires
        i + v@.len() <= s@.len(),
    ensures
        r == crate::text::stands_at(s@, i as int, v@),
{
    let n: usize = s.len();
    let mut k: usize = 0;
    while k < v.len()
        invariant
            n == s@.len(),
            i + v@.len() <= s@.len(),
            k <= v@.len(),
            forall|m: int| 0 <= m < k ==> s@[i + m] == v@[m],
        decreases v.len() - k,
    {
        if s[i + k] != v[k] {
            proof {
                if crate::text::stands_at(s@, i as int, v@) {
                    assert(s@.subrange(i as int, i + v@.len())[k as int] == s@[i + k]);
                }
            }
            return false;
        }
        k += 1;
    }
    assert(s@.subrange(i as int, i + v@.len()) =~= v@);
    true
}

/// The nodes of a paragraph that fall inside the source bytes from `lo` to `hi`
/// (a whole number of lines): wholly contained nodes as they are, a text that
/// straddles an end split at its lines. `None` when another node straddles.
pub(crate) fn clip_children(nodes: &Vec<DocNode>, t: &Text, lo: usize, hi: usize) -> (r: Option<
    Vec<DocNode>,
>)
    requires
        t.wf(),
    ensures
        r is Some == clip_from(seq![], trees(nodes@), 0, t@, lo as int, hi as int) is Some,
        r is Some ==> trees(r->0@) == clip_from(
            seq![],
            trees(nodes@),
            0,
            t@,
            lo as int,
            hi as int,
        )->0,
{
    let ghost all = trees(nodes@);
    let ghost want = clip_from(seq![], all, 0, t@, lo as int, hi as int);
    let mut out: Vec<DocNode> = Vec::new();
    let mut k: usize = 0;
    proof {
        lemma_trees(nodes@);
    }
    while k < nodes.len()
        invariant
            t.wf(),
            k <= nodes@.len(),
            all == trees(nodes@),
            all.len() == nodes@.len(),
            forall|m: int| 0 <= m < nodes@.len() ==> #[trigger] all[m] == tree(nodes@[m]),
            want == clip_from(trees(out@), all, k as int, t@, lo as int, hi as int),
            want == clip_from(seq![], all, 0, t@, lo as int, hi as int),
        decreases nodes.len() - k,
    {
        let n = &nodes[k];
        assert(all[k as int] == tree(nodes@[k as int]));
        let ghost acc = trees(out@);
        assert(acc + Seq::<Tree>::empty() =~= acc);
        let p = match &n.at {
            Some(p) => p,
            None => {
                return None;
            },
        };
        if p.end <= lo || p.start >= hi {
        } else if p.start >= lo && p.end <= hi {
            let c = copy_node(n);
            proof {
                lemma_trees_push(out@, c);
                assert(acc.push(tree(c)) =~= acc + seq![n@]);
            }
            out.push(c);
        } else {
            match &n.kind {
                Kind::Break => {},
                Kind::Text(v) => match clip_text(n, v, t, lo, hi) {
                    Some(c) => {
                        proof {
                            lemma_trees_push(out@, c);
                            assert(acc.push(tree(c)) =~= acc + seq![tree(c)]);
                        }
                        out.push(c);
                    },
                    None => {
                        return None;
                    },
                },
                _ => {
                    return None;
                },
            }
        }
        k += 1;
    }
    Some(out)
}

/// [`clip_children`] on a source text.
pub fn clip_nodes(nodes: &Vec<DocNode>, lo: usize, hi: usize, source: &str) -> (r: Option<
    Vec<DocNode>,
>)
    ensures
        r is Some == clip_from(seq![], trees(nodes@), 0, source@, lo as int, hi as int) is Some,
        r is Some ==> trees(r->0@) == clip_from(
            seq![],
            trees(nodes@),
            0,
            source@,
            lo as int,
            hi as int,
        )->0,
{
    let t = Text::new(source);
    clip_children(nodes, &t, lo, hi)
}

// --- Paragraphs that mix prose and properties ---

/// One piece of a mixed paragraph: clipped prose, or a run of properties.
#[derive(Debug)]
pub enum MixedSeg {
    Prose(Vec<DocNode>),
    Props(Vec<Row>),
}

/// A [`MixedSeg`] as a value.
pub enum Piece {
    Prose(Seq<Tree>),
    Props(Seq<RowView>),
}

impl View for MixedSeg {
    type V = Piece;

    open spec fn view(&self) -> Piece {
        match self {
            MixedSeg::Prose(v) => Piece::Prose(trees(v@)),
            MixedSeg::Props(v) => Piece::Props(row_views(v@)),
        }
    }
}

/// Pieces as values.
pub open spec fn piece_views(v: Seq<MixedSeg>) -> Seq<Piece> {
    v.map_values(|m: MixedSeg| m@)
}

/// Whether the line of a range is a property.
pub open spec fn is_prop(s: Seq<char>, r: (int, int)) -> bool {
    row_at(s, r.0, r.1) is Some
}

/// The end of the run of lines from `k` on that are properties, or are not.
pub open spec fn run_end(s: Seq<char>, ranges: Seq<(int, int)>, k: int, prop: bool) -> int
    decreases ranges.len() - k,
{
    if 0 <= k < ranges.len() && is_prop(s, ranges[k]) == prop {
        run_end(s, ranges, k + 1, prop)
    } else {
        k
    }
}

/// The rows of the lines from `k` to `j`.
pub open spec fn rows_between(s: Seq<char>, ranges: Seq<(int, int)>, k: int, j: int) -> Seq<
    RowView,
>
    decreases j - k,
{
    if k >= j {
        seq![]
    } else {
        rows_between(s, ranges, k, j - 1).push(row_at(s, ranges[j - 1].0, ranges[j - 1].1)->0)
    }
}

/// Whether both kinds of line occur.
pub open spec fn is_mixed(s: Seq<char>, ranges: Seq<(int, int)>) -> bool {
    &&& exists|k: int| 0 <= k < ranges.len() && is_prop(s, #[trigger] ranges[k])
    &&& exists|k: int| 0 <= k < ranges.len() && !is_prop(s, #[trigger] ranges[k])
}

/// `out` with the pieces of the lines from `k` on: each run of properties, and
/// the prose between, clipped to its lines. `None` where prose cannot be
/// clipped.
pub open spec fn pieces_from(
    out: Seq<Piece>,
    s: Seq<char>,
    ranges: Seq<(int, int)>,
    nodes: Seq<Tree>,
    k: int,
) -> Option<Seq<Piece>>
    decreases ranges.len() - k,
{
    if k < 0 || k >= ranges.len() {
        Some(out)
    } else {
        let prop = is_prop(s, ranges[k]);
        proof {
            lemma_run_end(s, ranges, k, prop);
        }
        let j = run_end(s, ranges, k, prop);
        if prop {
            pieces_from(out.push(Piece::Props(rows_between(s, ranges, k, j))), s, ranges, nodes, j)
        } else {
            match clip_from(
                seq![],
                nodes,
                0,
                s,
                offset(s, ranges[k].0) as int,
                offset(s, ranges[j - 1].1) as int,
            ) {
                Some(prose) => if prose.len() > 0 {
                    pieces_from(out.push(Piece::Prose(prose)), s, ranges, nodes, j)
                } else {
                    pieces_from(out, s, ranges, nodes, j)
                },
                None => None,
            }
        }
    }
}

/// The run at a line holds that line and ends among the lines.
pub proof fn lemma_run_end(s: Seq<char>, ranges: Seq<(int, int)>, k: int, prop: bool)
    requires
        0 <= k <= ranges.len(),
    ensures
        k <= run_end(s, ranges, k, prop) <= ranges.len(),
        k < ranges.len() && is_prop(s, ranges[k]) == prop ==> k < run_end(s, ranges, k, prop),
        forall|m: int|
            k <= m < run_end(s, ranges, k, prop) ==> is_prop(s, #[trigger] ranges[m]) == prop,
    decreases ranges.len() - k,
{
    if k < ranges.len() && is_prop(s, ranges[k]) == prop {
        lemma_run_end(s, ranges, k + 1, prop);
    }
}

/// The pieces of the paragraph of `nodes` at `at`, where it mixes prose and
/// properties.
pub open spec fn mixed_of(s: Seq<char>, at: Option<Span>, nodes: Seq<Tree>) -> Option<
    Seq<Piece>,
> {
    match at {
        Some(p) => match slice_at(s, p.start as int, p.end as int) {
            Some((i, j)) => {
                let ranges = ranges_from(s, i, j);
                if is_mixed(s, ranges) {
                    pieces_from(seq![], s, ranges, nodes, 0)
                } else {
                    None
                }
            },
            None => None,
        },
        None => None,
    }
}

/// Whether `rows` are `ranges` of `s`.
spec fn same_ranges(rows: Seq<(usize, usize)>, s: Seq<char>, ranges: Seq<(int, int)>) -> bool {
    &&& rows.len() == ranges.len()
    &&& forall|k: int|
        #![trigger rows[k]]
        #![trigger ranges[k]]
        0 <= k < rows.len() ==> (rows[k].0 as int, rows[k].1 as int) == ranges[k] && rows[k].0
            <= rows[k].1 <= s.len()
}

fn find_props(
    t: &Text,
    rows: &Vec<(usize, usize)>,
    k: usize,
    j: usize,
    Ghost(ranges): Ghost<Seq<(int, int)>>,
) -> (r: Vec<Row>)
    requires
        t.wf(),
        same_ranges(rows@, t@, ranges),
        k <= j <= rows@.len(),
        forall|m: int| k <= m < j ==> is_prop(t@, #[trigger] ranges[m]),
    ensures
        row_views(r@) == rows_between(t@, ranges, k as int, j as int),
{
    let mut out: Vec<Row> = Vec::new();
    let mut i: usize = k;
    assert(row_views(out@) =~= seq![]);
    while i < j
        invariant
            t.wf(),
            same_ranges(rows@, t@, ranges),
            k <= i <= j <= rows@.len(),
            forall|m: int| k <= m < j ==> is_prop(t@, #[trigger] ranges[m]),
            row_views(out@) == rows_between(t@, ranges, k as int, i as int),
        decreases j - i,
    {
        let ghost acc = row_views(out@);
        assert(rows@[i as int].0 <= rows@[i as int].1);
        assert(is_prop(t@, ranges[i as int]));
        if let Some(r) = find_row(t, rows[i].0, rows[i].1) {
            let ghost v = r@;
            out.push(r);
            assert(row_views(out@) =~= acc.push(v));
        }
        i += 1;
    }
    out
}

pub(crate) fn find_mixed(t: &Text, at: &Option<Span>, nodes: &Vec<DocNode>) -> (r: Option<
    Vec<MixedSeg>,
>)
    requires
        t.wf(),
    ensures
        r is Some == mixed_of(t@, *at, trees(nodes@)) is Some,
        r is Some ==> piece_views(r->0@) == mixed_of(t@, *at, trees(nodes@))->0,
{
    let p = match at {
        Some(p) => p,
        None => {
            return None;
        },
    };
    let (i, j) = match find_slice(t, p.start, p.end) {
        Some(x) => x,
        None => {
            return None;
        },
    };
    let rows = find_ranges(t, i, j);
    let ghost ranges = ranges_from(t@, i as int, j as int);
    assert(same_ranges(rows@, t@, ranges)) by {
        assert forall|k: int| #![trigger ranges[k]] 0 <= k < rows@.len() implies (
        rows@[k].0 as int, rows@[k].1 as int) == ranges[k] && rows@[k].0 <= rows@[k].1
            <= t@.len() by {
            assert(rows@[k].0 <= rows@[k].1);
        }
    }
    let mut flags: Vec<bool> = Vec::new();
    let mut some = false;
    let mut other = false;
    let mut k: usize = 0;
    while k < rows.len()
        invariant
            t.wf(),
            same_ranges(rows@, t@, ranges),
            k <= rows@.len(),
            flags@.len() == k,
            forall|m: int| 0 <= m < k ==> #[trigger] flags@[m] == is_prop(t@, ranges[m]),
            some == exists|m: int| 0 <= m < k && is_prop(t@, #[trigger] ranges[m]),
            other == exists|m: int| 0 <= m < k && !is_prop(t@, #[trigger] ranges[m]),
        decreases rows.len() - k,
    {
        assert(rows@[k as int].0 <= rows@[k as int].1);
        let f = find_row(t, rows[k].0, rows[k].1).is_some();
        assert(f == is_prop(t@, ranges[k as int]));
        flags.push(f);
        if f {
            some = true;
        } else {
            other = true;
        }
        k += 1;
    }
    if !(some && other) {
        return None;
    }
    let n: usize = rows.len();
    let ghost all = trees(nodes@);
    let ghost want = pieces_from(seq![], t@, ranges, all, 0);
    let mut out: Vec<MixedSeg> = Vec::new();
    let mut k: usize = 0;
    assert(piece_views(out@) =~= seq![]);
    while k < n
        invariant
            t.wf(),
            same_ranges(rows@, t@, ranges),
            n == rows@.len(),
            flags@.len() == n,
            forall|m: int| 0 <= m < n ==> #[trigger] flags@[m] == is_prop(t@, ranges[m]),
            all == trees(nodes@),
            k <= n,
            want == pieces_from(piece_views(out@), t@, ranges, all, k as int),
            want == mixed_of(t@, *at, all),
        decreases n - k,
    {
        let ghost acc = piece_views(out@);
        let prop: bool = flags[k];
        let mut e: usize = k;
        while e < n && flags[e] == prop
            invariant
                n == flags@.len(),
                n == ranges.len(),
                forall|m: int| 0 <= m < n ==> #[trigger] flags@[m] == is_prop(t@, ranges[m]),
                k <= e <= n,
                run_end(t@, ranges, k as int, prop) == run_end(t@, ranges, e as int, prop),
            decreases n - e,
        {
            assert(flags@[e as int] == is_prop(t@, ranges[e as int]));
            e += 1;
        }
        proof {
            if e < n {
                assert(flags@[e as int] == is_prop(t@, ranges[e as int]));
            }
            assert(flags@[k as int] == is_prop(t@, ranges[k as int]));
            lemma_run_end(t@, ranges, k as int, prop);
        }
        if prop {
            let props = find_props(t, &rows, k, e, Ghost(ranges));
            let seg = MixedSeg::Props(props);
            let ghost v = seg@;
            out.push(seg);
            assert(piece_views(out@) =~= acc.push(v));
        } else {
            assert(rows@[k as int].0 <= rows@[k as int].1);
            assert(rows@[e - 1].0 <= rows@[e - 1].1);
            let a: usize = rows[k].0;
            let b: usize = rows[e - 1].1;
            assert(t.offs@[a as int] == offset(t@, a as int));
            assert(t.offs@[b as int] == offset(t@, b as int));
            match clip_children(nodes, t, t.offs[a], t.offs[b]) {
                Some(prose) => {
                    proof {
                        lemma_trees(prose@);
                    }
                    if prose.len() > 0 {
                        let seg = MixedSeg::Prose(prose);
                        let ghost v = seg@;
                        out.push(seg);
                        assert(piece_views(out@) =~= acc.push(v));
                    }
                },
                None => {
                    return None;
                },
            }
        }
        k = e;
    }
    Some(out)
}

/// The pieces of a paragraph of `nodes` at `at` that mixes prose lines and
/// `key:: value` lines: a panel for each run of properties, with the prose
/// between. `None` when the paragraph is not mixed, or a piece cannot be
/// clipped cleanly.
pub fn mixed_properties(at: &Option<Span>, nodes: &Vec<DocNode>, source: &str) -> (r: Option<
    Vec<MixedSeg>,
>)
    ensures
        r is Some == mixed_of(source@, *at, trees(nodes@)) is Some,
        r is Some ==> piece_views(r->0@) == mixed_of(source@, *at, trees(nodes@))->0,
{
    let t = Text::new(source);
    find_mixed(&t, at, nodes)
}

} // verus!
