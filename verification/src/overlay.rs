//! Painting over shown text: search matches on top of its styles, and clicks
//! mapped back to the source.
use crate::inline::{plain_style, run_views, Ink, Style};
use std::ops::Range;
use vstd::prelude::*;

verus! {

// --- Clicks ---

/// The last checkpoint at or before `rendered` among the first `n`.
pub open spec fn checkpoint(map: Seq<(usize, usize)>, rendered: int, n: int) -> Option<int>
    decreases n,
{
    if n <= 0 || n > map.len() {
        None
    } else if map[n - 1].0 <= rendered {
        Some(n - 1)
    } else {
        checkpoint(map, rendered, n - 1)
    }
}

/// The source offset of a rendered offset: that of the checkpoint before it,
/// and as much further as the rendered offset is behind it.
pub open spec fn source_at(map: Seq<(usize, usize)>, rendered: int) -> Option<int> {
    match checkpoint(map, rendered, map.len() as int) {
        Some(k) => Some(map[k].1 + (rendered - map[k].0)),
        None => None,
    }
}

/// Maps a rendered byte index to a source byte offset via the checkpoints
/// recorded while building the inline text. `None` when there is no checkpoint
/// at or before the index.
pub fn map_to_source(map: &[(usize, usize)], rendered: usize) -> (r: Option<usize>)
    requires
        source_at(map@, rendered as int) is Some ==> source_at(map@, rendered as int)->0
            <= usize::MAX,
    ensures
        r is Some == source_at(map@, rendered as int) is Some,
        r is Some ==> r->0 as int == source_at(map@, rendered as int)->0,
{
    let mut i: usize = map.len();
    while i > 0
        invariant
            i <= map@.len(),
            checkpoint(map@, rendered as int, map@.len() as int) == checkpoint(
                map@,
                rendered as int,
                i as int,
            ),
            source_at(map@, rendered as int) is Some ==> source_at(map@, rendered as int)->0
                <= usize::MAX,
        decreases i,
    {
        let p = map[i - 1];
        if p.0 <= rendered {
            return Some(p.1 + (rendered - p.0));
        }
        i -= 1;
    }
    None
}

// --- Matches over styles ---

/// `cuts` with one more, in order and each once.
pub open spec fn with_cut(cuts: Seq<int>, x: int) -> Seq<int>
    decreases cuts.len(),
{
    if cuts.len() == 0 || cuts.last() < x {
        cuts.push(x)
    } else if cuts.last() == x {
        cuts
    } else {
        with_cut(cuts.drop_last(), x).push(cuts.last())
    }
}

/// `cuts` with the ends of the first `n` styled ranges.
pub open spec fn style_cuts(cuts: Seq<int>, runs: Seq<(int, int, Style)>, n: int) -> Seq<int>
    decreases n,
{
    if n <= 0 {
        cuts
    } else {
        with_cut(with_cut(style_cuts(cuts, runs, n - 1), runs[n - 1].0), runs[n - 1].1)
    }
}

/// `cuts` with the ends of the first `n` matches.
pub open spec fn match_cuts(cuts: Seq<int>, found: Seq<(int, int, Ink)>, n: int) -> Seq<int>
    decreases n,
{
    if n <= 0 {
        cuts
    } else {
        with_cut(with_cut(match_cuts(cuts, found, n - 1), found[n - 1].0), found[n - 1].1)
    }
}

/// Every end of a range, in order and each once.
pub open spec fn all_cuts(runs: Seq<(int, int, Style)>, found: Seq<(int, int, Ink)>) -> Seq<int> {
    match_cuts(style_cuts(seq![], runs, runs.len() as int), found, found.len() as int)
}

/// The style of the first range from `i` on that covers `a` to `b`.
pub open spec fn style_over(runs: Seq<(int, int, Style)>, a: int, b: int, i: int) -> Option<Style>
    decreases runs.len() - i,
{
    if i < 0 || i >= runs.len() {
        None
    } else if runs[i].0 <= a && b <= runs[i].1 {
        Some(runs[i].2)
    } else {
        style_over(runs, a, b, i + 1)
    }
}

/// The colour of the first match from `i` on that covers `a` to `b`.
pub open spec fn ink_over(found: Seq<(int, int, Ink)>, a: int, b: int, i: int) -> Option<Ink>
    decreases found.len() - i,
{
    if i < 0 || i >= found.len() {
        None
    } else if found[i].0 <= a && b <= found[i].1 {
        Some(found[i].2)
    } else {
        ink_over(found, a, b, i + 1)
    }
}

/// A style with a match over it.
pub open spec fn merged(style: Option<Style>, ink: Option<Ink>) -> Option<Style> {
    match (style, ink) {
        (None, None) => None,
        (Some(s), None) => Some(s),
        (None, Some(c)) => Some(Style { background: Some(c), ..plain_style() }),
        (Some(s), Some(c)) => Some(Style { background: Some(c), ..s }),
    }
}

/// The styled stretches between the first `n` cuts.
pub open spec fn stretches(
    cuts: Seq<int>,
    runs: Seq<(int, int, Style)>,
    found: Seq<(int, int, Ink)>,
    n: int,
) -> Seq<(int, int, Style)>
    decreases n,
{
    if n <= 1 || n > cuts.len() {
        seq![]
    } else {
        let a = cuts[n - 2];
        let b = cuts[n - 1];
        let before = stretches(cuts, runs, found, n - 1);
        match merged(style_over(runs, a, b, 0), ink_over(found, a, b, 0)) {
            Some(s) => before.push((a, b, s)),
            None => before,
        }
    }
}

/// The styles of a text with matches over them.
pub open spec fn overlaid(runs: Seq<(int, int, Style)>, found: Seq<(int, int, Ink)>) -> Seq<
    (int, int, Style),
> {
    if found.len() == 0 {
        runs
    } else {
        let cuts = all_cuts(runs, found);
        stretches(cuts, runs, found, cuts.len() as int)
    }
}

/// Matches as values.
pub open spec fn ink_views(v: Seq<(Range<usize>, Ink)>) -> Seq<(int, int, Ink)> {
    v.map_values(|p: (Range<usize>, Ink)| (p.0.start as int, p.0.end as int, p.1))
}

/// Whole numbers as values.
pub open spec fn ints(v: Seq<usize>) -> Seq<int> {
    v.map_values(|x: usize| x as int)
}

fn put_cut(cuts: &mut Vec<usize>, x: usize)
    ensures
        ints(final(cuts)@) == with_cut(ints(old(cuts)@), x as int),
    decreases old(cuts)@.len(),
{
    let ghost before = cuts@;
    let n: usize = cuts.len();
    if n == 0 {
        cuts.push(x);
        assert(ints(cuts@) =~= ints(before).push(x as int));
        return;
    }
    let last: usize = cuts[n - 1];
    assert(ints(before).last() == last as int);
    if last < x {
        cuts.push(x);
        assert(ints(cuts@) =~= ints(before).push(x as int));
    } else if last > x {
        cuts.pop();
        assert(ints(cuts@) =~= ints(before).drop_last());
        put_cut(cuts, x);
        let ghost mid = ints(cuts@);
        cuts.push(last);
        assert(ints(cuts@) =~= mid.push(last as int));
    }
}

fn find_style(runs: &Vec<(Range<usize>, Style)>, a: usize, b: usize) -> (r: Option<Style>)
    ensures
        r == style_over(run_views(runs@), a as int, b as int, 0),
{
    let ghost all = run_views(runs@);
    let mut i: usize = 0;
    while i < runs.len()
        invariant
            i <= runs@.len(),
            all == run_views(runs@),
            style_over(all, a as int, b as int, 0) == style_over(all, a as int, b as int, i as int),
        decreases runs.len() - i,
    {
        let p = &runs[i];
        assert(all[i as int] == (p.0.start as int, p.0.end as int, p.1));
        if p.0.start <= a && b <= p.0.end {
            return Some(p.1);
        }
        i += 1;
    }
    None
}

fn find_ink(found: &Vec<(Range<usize>, Ink)>, a: usize, b: usize) -> (r: Option<Ink>)
    ensures
        r == ink_over(ink_views(found@), a as int, b as int, 0),
{
    let ghost all = ink_views(found@);
    let mut i: usize = 0;
    while i < found.len()
        invariant
            i <= found@.len(),
            all == ink_views(found@),
            ink_over(all, a as int, b as int, 0) == ink_over(all, a as int, b as int, i as int),
        decreases found.len() - i,
    {
        let p = &found[i];
        assert(all[i as int] == (p.0.start as int, p.0.end as int, p.1));
        if p.0.start <= a && b <= p.0.end {
            return Some(p.1);
        }
        i += 1;
    }
    None
}

/// Merges match backgrounds into a block's styled ranges: a sorted,
/// non-overlapping set, split at every end of a range, with the background of a
/// match on any style that it covers.
pub fn overlay_search(
    formatting: Vec<(Range<usize>, Style)>,
    search: &Vec<(Range<usize>, Ink)>,
) -> (r: Vec<(Range<usize>, Style)>)
    ensures
        run_views(r@) == overlaid(run_views(formatting@), ink_views(search@)),
{
    if search.len() == 0 {
        return formatting;
    }
    let ghost runs = run_views(formatting@);
    let ghost found = ink_views(search@);
    let mut cuts: Vec<usize> = Vec::new();
    let mut i: usize = 0;
    assert(ints(cuts@) =~= seq![]);
    while i < formatting.len()
        invariant
            i <= formatting@.len(),
            runs == run_views(formatting@),
            ints(cuts@) == style_cuts(seq![], runs, i as int),
        decreases formatting.len() - i,
    {
        let p = &formatting[i];
        assert(runs[i as int] == (p.0.start as int, p.0.end as int, p.1));
        put_cut(&mut cuts, p.0.start);
        put_cut(&mut cuts, p.0.end);
        i += 1;
    }
    let ghost base = ints(cuts@);
    let mut i: usize = 0;
    while i < search.len()
        invariant
            i <= search@.len(),
            found == ink_views(search@),
            ints(cuts@) == match_cuts(base, found, i as int),
        decreases search.len() - i,
    {
        let p = &search[i];
        assert(found[i as int] == (p.0.start as int, p.0.end as int, p.1));
        put_cut(&mut cuts, p.0.start);
        put_cut(&mut cuts, p.0.end);
        i += 1;
    }
    let ghost all = ints(cuts@);
    assert(all == all_cuts(runs, found));
    let mut out: Vec<(Range<usize>, Style)> = Vec::new();
    let mut k: usize = 1;
    let n: usize = cuts.len();
    assert(run_views(out@) =~= seq![]);
    while k < n
        invariant
            1 <= k,
            n == cuts@.len(),
            k <= n || n == 0,
            all == ints(cuts@),
            runs == run_views(formatting@),
            found == ink_views(search@),
            run_views(out@) == stretches(all, runs, found, k as int),
        decreases n - k,
    {
        let ghost acc = run_views(out@);
        let a: usize = cuts[k - 1];
        let b: usize = cuts[k];
        assert(all[k - 1] == a as int && all[k as int] == b as int);
        match (find_style(&formatting, a, b), find_ink(search, a, b)) {
            (None, None) => {},
            (Some(s), None) => {
                out.push((Range { start: a, end: b }, s));
                assert(run_views(out@) =~= acc.push((a as int, b as int, s)));
            },
            (None, Some(c)) => {
                let base = Style {
                    bold: false,
                    italic: false,
                    strike: false,
                    underline: false,
                    color: None,
                    background: Some(c),
                };
                out.push((Range { start: a, end: b }, base));
                assert(run_views(out@) =~= acc.push((a as int, b as int, base)));
            },
            (Some(s), Some(c)) => {
                let over = Style { background: Some(c), ..s };
                out.push((Range { start: a, end: b }, over));
                assert(run_views(out@) =~= acc.push((a as int, b as int, over)));
            },
        }
        k += 1;
    }
    out
}

// --- Laws ---

/// In order and each once.
pub open spec fn increasing(s: Seq<int>) -> bool {
    forall|i: int, j: int| 0 <= i < j < s.len() ==> s[i] < s[j]
}

proof fn lemma_with_cut(cuts: Seq<int>, x: int)
    requires
        increasing(cuts),
    ensures
        increasing(with_cut(cuts, x)),
        with_cut(cuts, x).contains(x),
        forall|y: int| cuts.contains(y) ==> #[trigger] with_cut(cuts, x).contains(y),
        forall|y: int| #[trigger] with_cut(cuts, x).contains(y) ==> cuts.contains(y) || y == x,
    decreases cuts.len(),
{
    let r = with_cut(cuts, x);
    if cuts.len() == 0 || cuts.last() < x {
        assert(r[r.len() - 1] == x);
        assert forall|y: int| cuts.contains(y) implies #[trigger] r.contains(y) by {
            let k = choose|k: int| 0 <= k < cuts.len() && cuts[k] == y;
            assert(r[k] == y);
        }
    } else if cuts.last() == x {
        assert(r[r.len() - 1] == x);
    } else {
        let d = cuts.drop_last();
        let m = with_cut(d, x);
        lemma_with_cut(d, x);
        assert(r == m.push(cuts.last()));
        assert forall|i: int, j: int| 0 <= i < j < r.len() implies r[i] < r[j] by {
            if j == r.len() - 1 {
                assert(m.contains(m[i]));
                assert(d.contains(m[i]) || m[i] == x);
                if d.contains(m[i]) {
                    let k = choose|k: int| 0 <= k < d.len() && d[k] == m[i];
                    assert(cuts[k] < cuts[cuts.len() - 1]);
                }
            }
        }
        let kx = choose|k: int| 0 <= k < m.len() && m[k] == x;
        assert(r[kx] == x);
        assert forall|y: int| cuts.contains(y) implies #[trigger] r.contains(y) by {
            let k = choose|k: int| 0 <= k < cuts.len() && cuts[k] == y;
            if k == cuts.len() - 1 {
                assert(r[r.len() - 1] == y);
            } else {
                assert(d[k] == y);
                assert(d.contains(y));
                assert(m.contains(y));
                let j = choose|j: int| 0 <= j < m.len() && m[j] == y;
                assert(r[j] == y);
            }
        }
        assert forall|y: int| #[trigger] r.contains(y) implies cuts.contains(y) || y == x by {
            let j = choose|j: int| 0 <= j < r.len() && r[j] == y;
            if j == r.len() - 1 {
                assert(cuts[cuts.len() - 1] == y);
            } else {
                assert(m[j] == y);
                assert(m.contains(y));
                if d.contains(y) {
                    let k = choose|k: int| 0 <= k < d.len() && d[k] == y;
                    assert(cuts[k] == y);
                }
            }
        }
    }
}

proof fn lemma_style_cuts(cuts: Seq<int>, runs: Seq<(int, int, Style)>, n: int)
    requires
        increasing(cuts),
        0 <= n <= runs.len(),
    ensures
        increasing(style_cuts(cuts, runs, n)),
        forall|k: int|
            #![trigger runs[k]]
            0 <= k < n ==> style_cuts(cuts, runs, n).contains(runs[k].0) && style_cuts(
                cuts,
                runs,
                n,
            ).contains(runs[k].1),
    decreases n,
{
    if n > 0 {
        lemma_style_cuts(cuts, runs, n - 1);
        let a = style_cuts(cuts, runs, n - 1);
        lemma_with_cut(a, runs[n - 1].0);
        let b = with_cut(a, runs[n - 1].0);
        lemma_with_cut(b, runs[n - 1].1);
    }
}

proof fn lemma_match_cuts(cuts: Seq<int>, found: Seq<(int, int, Ink)>, n: int)
    requires
        increasing(cuts),
        0 <= n <= found.len(),
    ensures
        increasing(match_cuts(cuts, found, n)),
        forall|y: int| cuts.contains(y) ==> #[trigger] match_cuts(cuts, found, n).contains(y),
        forall|k: int|
            #![trigger found[k]]
            0 <= k < n ==> match_cuts(cuts, found, n).contains(found[k].0) && match_cuts(
                cuts,
                found,
                n,
            ).contains(found[k].1),
    decreases n,
{
    if n > 0 {
        lemma_match_cuts(cuts, found, n - 1);
        let a = match_cuts(cuts, found, n - 1);
        lemma_with_cut(a, found[n - 1].0);
        let b = with_cut(a, found[n - 1].0);
        lemma_with_cut(b, found[n - 1].1);
    }
}

proof fn lemma_all_cuts(runs: Seq<(int, int, Style)>, found: Seq<(int, int, Ink)>)
    ensures
        increasing(all_cuts(runs, found)),
        forall|k: int|
            #![trigger runs[k]]
            0 <= k < runs.len() ==> all_cuts(runs, found).contains(runs[k].0) && all_cuts(
                runs,
                found,
            ).contains(runs[k].1),
        forall|k: int|
            #![trigger found[k]]
            0 <= k < found.len() ==> all_cuts(runs, found).contains(found[k].0) && all_cuts(
                runs,
                found,
            ).contains(found[k].1),
{
    lemma_style_cuts(seq![], runs, runs.len() as int);
    let a = style_cuts(seq![], runs, runs.len() as int);
    lemma_match_cuts(a, found, found.len() as int);
    assert forall|k: int| #![trigger runs[k]] 0 <= k < runs.len() implies all_cuts(
        runs,
        found,
    ).contains(runs[k].0) && all_cuts(runs, found).contains(runs[k].1) by {
        assert(a.contains(runs[k].0));
        assert(a.contains(runs[k].1));
    }
}

/// Ranges in order, none empty, none over another.
pub open spec fn in_order(runs: Seq<(int, int, Style)>) -> bool {
    &&& forall|k: int| #![trigger runs[k]] 0 <= k < runs.len() ==> runs[k].0 < runs[k].1
    &&& forall|j: int, k: int|
        #![trigger runs[j], runs[k]]
        0 <= j < k < runs.len() ==> runs[j].1 <= runs[k].0
}

proof fn lemma_stretches(
    cuts: Seq<int>,
    runs: Seq<(int, int, Style)>,
    found: Seq<(int, int, Ink)>,
    n: int,
)
    requires
        increasing(cuts),
        0 <= n <= cuts.len(),
    ensures
        in_order(stretches(cuts, runs, found, n)),
        n > 0 ==> forall|k: int|
            #![trigger stretches(cuts, runs, found, n)[k]]
            0 <= k < stretches(cuts, runs, found, n).len() ==> stretches(
                cuts,
                runs,
                found,
                n,
            )[k].1 <= cuts[n - 1],
    decreases n,
{
    if n > 1 {
        lemma_stretches(cuts, runs, found, n - 1);
        let before = stretches(cuts, runs, found, n - 1);
        let all = stretches(cuts, runs, found, n);
        assert(cuts[n - 2] < cuts[n - 1]);
        assert forall|j: int, k: int|
            #![trigger all[j], all[k]]
            0 <= j < k < all.len() implies all[j].1 <= all[k].0 by {
            assert(all[j] == before[j]);
            if k < before.len() {
                assert(all[k] == before[k]);
            }
        }
        assert forall|k: int| #![trigger all[k]] 0 <= k < all.len() implies all[k].0 < all[k].1
            && all[k].1 <= cuts[n - 1] by {
            if k < before.len() {
                assert(all[k] == before[k]);
            }
        }
    }
}

/// Matches laid over styles in order leave styles in order: sorted, none empty,
/// none over another.
pub proof fn law_overlay_in_order(runs: Seq<(int, int, Style)>, found: Seq<(int, int, Ink)>)
    requires
        in_order(runs),
    ensures
        in_order(overlaid(runs, found)),
{
    if found.len() > 0 {
        lemma_all_cuts(runs, found);
        let cuts = all_cuts(runs, found);
        lemma_stretches(cuts, runs, found, cuts.len() as int);
    }
}

/// The style at one byte: that of the first range that holds it.
pub open spec fn style_at(runs: Seq<(int, int, Style)>, x: int) -> Option<Style> {
    style_over(runs, x, x + 1, 0)
}

/// The match colour at one byte.
pub open spec fn ink_at(found: Seq<(int, int, Ink)>, x: int) -> Option<Ink> {
    ink_over(found, x, x + 1, 0)
}

proof fn lemma_cut_between(cuts: Seq<int>, k: int, c: int, x: int)
    requires
        increasing(cuts),
        0 < k < cuts.len(),
        cuts[k - 1] <= x < cuts[k],
        cuts.contains(c),
    ensures
        c <= x <==> c <= cuts[k - 1],
        x < c <==> cuts[k] <= c,
{
    let m = choose|m: int| 0 <= m < cuts.len() && cuts[m] == c;
    if m < k - 1 {
        assert(cuts[m] < cuts[k - 1]);
    }
    if m > k {
        assert(cuts[k] < cuts[m]);
    }
}

proof fn lemma_style_same(
    cuts: Seq<int>,
    runs: Seq<(int, int, Style)>,
    k: int,
    x: int,
    i: int,
)
    requires
        increasing(cuts),
        0 < k < cuts.len(),
        cuts[k - 1] <= x < cuts[k],
        0 <= i,
        forall|j: int|
            #![trigger runs[j]]
            0 <= j < runs.len() ==> cuts.contains(runs[j].0) && cuts.contains(runs[j].1),
    ensures
        style_over(runs, x, x + 1, i) == style_over(runs, cuts[k - 1], cuts[k], i),
    decreases runs.len() - i,
{
    if i < runs.len() {
        assert(cuts.contains(runs[i].0) && cuts.contains(runs[i].1));
        lemma_cut_between(cuts, k, runs[i].0, x);
        lemma_cut_between(cuts, k, runs[i].1, x);
        lemma_style_same(cuts, runs, k, x, i + 1);
    }
}

proof fn lemma_ink_same(cuts: Seq<int>, found: Seq<(int, int, Ink)>, k: int, x: int, i: int)
    requires
        increasing(cuts),
        0 < k < cuts.len(),
        cuts[k - 1] <= x < cuts[k],
        0 <= i,
        forall|j: int|
            #![trigger found[j]]
            0 <= j < found.len() ==> cuts.contains(found[j].0) && cuts.contains(found[j].1),
    ensures
        ink_over(found, x, x + 1, i) == ink_over(found, cuts[k - 1], cuts[k], i),
    decreases found.len() - i,
{
    if i < found.len() {
        assert(cuts.contains(found[i].0) && cuts.contains(found[i].1));
        lemma_cut_between(cuts, k, found[i].0, x);
        lemma_cut_between(cuts, k, found[i].1, x);
        lemma_ink_same(cuts, found, k, x, i + 1);
    }
}

proof fn lemma_style_over_push(
    runs: Seq<(int, int, Style)>,
    r: (int, int, Style),
    x: int,
    i: int,
)
    requires
        0 <= i <= runs.len(),
    ensures
        style_over(runs.push(r), x, x + 1, i) == match style_over(runs, x, x + 1, i) {
            Some(s) => Some(s),
            None => if r.0 <= x && x + 1 <= r.1 {
                Some(r.2)
            } else {
                None
            },
        },
    decreases runs.len() - i,
{
    let all = runs.push(r);
    if i < runs.len() {
        assert(all[i] == runs[i]);
        lemma_style_over_push(runs, r, x, i + 1);
    } else {
        assert(all[i] == r);
        assert(style_over(all, x, x + 1, i + 1) is None);
    }
}

proof fn lemma_stretches_at(
    cuts: Seq<int>,
    runs: Seq<(int, int, Style)>,
    found: Seq<(int, int, Ink)>,
    n: int,
    x: int,
)
    requires
        increasing(cuts),
        0 < n <= cuts.len(),
        forall|j: int|
            #![trigger runs[j]]
            0 <= j < runs.len() ==> cuts.contains(runs[j].0) && cuts.contains(runs[j].1),
        forall|j: int|
            #![trigger found[j]]
            0 <= j < found.len() ==> cuts.contains(found[j].0) && cuts.contains(found[j].1),
    ensures
        cuts[0] <= x < cuts[n - 1] ==> style_at(stretches(cuts, runs, found, n), x) == merged(
            style_at(runs, x),
            ink_at(found, x),
        ),
        x < cuts[0] || cuts[n - 1] <= x ==> style_at(stretches(cuts, runs, found, n), x) is None,
    decreases n,
{
    if n > 1 {
        lemma_stretches_at(cuts, runs, found, n - 1, x);
        let a = cuts[n - 2];
        let b = cuts[n - 1];
        assert(a < b);
        assert(cuts[0] <= a) by {
            if n > 2 {
                assert(cuts[0] < cuts[n - 2]);
            }
        }
        let before = stretches(cuts, runs, found, n - 1);
        let m = merged(style_over(runs, a, b, 0), ink_over(found, a, b, 0));
        if let Some(s) = m {
            lemma_style_over_push(before, (a, b, s), x, 0);
        }
        if a <= x < b {
            lemma_style_same(cuts, runs, n - 1, x, 0);
            lemma_ink_same(cuts, found, n - 1, x, 0);
        }
    }
}

proof fn lemma_outside(runs: Seq<(int, int, Style)>, cuts: Seq<int>, x: int, i: int)
    requires
        increasing(cuts),
        cuts.len() > 0,
        x < cuts[0] || cuts.last() <= x,
        0 <= i,
        forall|j: int|
            #![trigger runs[j]]
            0 <= j < runs.len() ==> cuts.contains(runs[j].0) && cuts.contains(runs[j].1),
    ensures
        style_over(runs, x, x + 1, i) is None,
    decreases runs.len() - i,
{
    if i < runs.len() {
        assert(cuts.contains(runs[i].0) && cuts.contains(runs[i].1));
        let p = choose|m: int| 0 <= m < cuts.len() && cuts[m] == runs[i].0;
        let q = choose|m: int| 0 <= m < cuts.len() && cuts[m] == runs[i].1;
        if p > 0 {
            assert(cuts[0] < cuts[p]);
        }
        if q < cuts.len() - 1 {
            assert(cuts[q] < cuts[cuts.len() - 1]);
        }
        lemma_outside(runs, cuts, x, i + 1);
    }
}

proof fn lemma_ink_outside(found: Seq<(int, int, Ink)>, cuts: Seq<int>, x: int, i: int)
    requires
        increasing(cuts),
        cuts.len() > 0,
        x < cuts[0] || cuts.last() <= x,
        0 <= i,
        forall|j: int|
            #![trigger found[j]]
            0 <= j < found.len() ==> cuts.contains(found[j].0) && cuts.contains(found[j].1),
    ensures
        ink_over(found, x, x + 1, i) is None,
    decreases found.len() - i,
{
    if i < found.len() {
        assert(cuts.contains(found[i].0) && cuts.contains(found[i].1));
        let p = choose|m: int| 0 <= m < cuts.len() && cuts[m] == found[i].0;
        let q = choose|m: int| 0 <= m < cuts.len() && cuts[m] == found[i].1;
        if p > 0 {
            assert(cuts[0] < cuts[p]);
        }
        if q < cuts.len() - 1 {
            assert(cuts[q] < cuts[cuts.len() - 1]);
        }
        lemma_ink_outside(found, cuts, x, i + 1);
    }
}

/// At every byte of the text an overlay shows the style that was there with the
/// match that is there over it, and nothing else.
pub proof fn law_overlay_at_every_byte(
    runs: Seq<(int, int, Style)>,
    found: Seq<(int, int, Ink)>,
    x: int,
)
    ensures
        style_at(overlaid(runs, found), x) == merged(style_at(runs, x), ink_at(found, x)),
{
    if found.len() == 0 {
        assert(ink_at(found, x) is None);
    } else {
        lemma_all_cuts(runs, found);
        let cuts = all_cuts(runs, found);
        assert(cuts.contains(found[0].0));
        assert(cuts.len() > 0);
        lemma_stretches_at(cuts, runs, found, cuts.len() as int, x);
        if x < cuts[0] || cuts.last() <= x {
            lemma_outside(runs, cuts, x, 0);
            lemma_ink_outside(found, cuts, x, 0);
        }
    }
}

} // verus!
