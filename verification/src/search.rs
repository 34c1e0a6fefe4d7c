//! Finding a query in shown text.
use crate::text;
use crate::text::{to_lower, Text};
use std::ops::Range;
use vstd::prelude::*;

verus! {

/// Whether `q` stands in `s` at `i`, ASCII letters compared without case.
pub open spec fn matches_at(s: Seq<char>, q: Seq<char>, i: int) -> bool {
    &&& 0 <= i
    &&& i + q.len() <= s.len()
    &&& forall|k: int| 0 <= k < q.len() ==> text::lower(s[i + k]) == text::lower(#[trigger] q[k])
}

/// Where `q` stands in `s` from `i` on, left to right, without overlaps. An
/// empty query stands nowhere.
pub open spec fn matches_from(s: Seq<char>, q: Seq<char>, i: int) -> Seq<int>
    decreases s.len() - i,
{
    if q.len() == 0 || i < 0 || i + q.len() > s.len() {
        seq![]
    } else if matches_at(s, q, i) {
        seq![i] + matches_from(s, q, i + q.len())
    } else {
        matches_from(s, q, i + 1)
    }
}

/// Every place of `q` in `s`.
pub open spec fn matches_of(s: Seq<char>, q: Seq<char>) -> Seq<int> {
    matches_from(s, q, 0)
}

/// Whether `rows` are the byte ranges of `q` at `places` of `s`.
pub open spec fn are_matches(
    rows: Seq<Range<usize>>,
    s: Seq<char>,
    q: Seq<char>,
    places: Seq<int>,
) -> bool {
    &&& rows.len() == places.len()
    &&& forall|k: int|
        #![trigger rows[k]]
        #![trigger places[k]]
        0 <= k < rows.len() ==> rows[k].start == text::offset(s, places[k]) && rows[k].end
            == text::offset(s, places[k] + q.len())
}

fn looks_like(s: &[char], q: &[char], i: usize) -> (r: bool)
    requires
        i + q@.len() <= s@.len(),
    ensures
        r == matches_at(s@, q@, i as int),
{
    let n: usize = s.len();
    let mut k: usize = 0;
    while k < q.len()
        invariant
            i + q@.len() <= s@.len(),
            n == s@.len(),
            k <= q@.len(),
            forall|m: int| 0 <= m < k ==> text::lower(s@[i + m]) == text::lower(#[trigger] q@[m]),
        decreases q.len() - k,
    {
        if to_lower(s[i + k]) != to_lower(q[k]) {
            assert(text::lower(s@[i + k]) != text::lower(q@[k as int]));
            return false;
        }
        k += 1;
    }
    true
}

/// Case-insensitive (ASCII-folded), non-overlapping byte ranges of `query` in
/// `text`. Ranges land on character boundaries; anything but ASCII is matched
/// exactly.
pub fn scan_matches(text: &str, query: &str) -> (r: Vec<Range<usize>>)
    ensures
        are_matches(r@, text@, query@, matches_of(text@, query@)),
{
    let t = Text::new(text);
    let p = Text::new(query);
    let s = t.chars.as_slice();
    let q = p.chars.as_slice();
    let n: usize = s.len();
    let m: usize = q.len();
    let mut out: Vec<Range<usize>> = Vec::new();
    if m == 0 || m > n {
        return out;
    }
    let mut i: usize = 0;
    let ghost mut acc: Seq<int> = seq![];
    assert(acc + matches_from(text@, query@, 0) =~= matches_of(text@, query@));
    while i <= n - m
        invariant
            t.wf(),
            t@ == text@,
            s@ == text@,
            q@ == query@,
            0 < m <= n,
            n == s@.len(),
            m == q@.len(),
            i <= n,
            acc + matches_from(text@, query@, i as int) == matches_of(text@, query@),
            are_matches(out@, text@, query@, acc),
        decreases n - i,
    {
        if looks_like(s, q, i) {
            let ghost rest = matches_from(text@, query@, i + m);
            proof {
                assert(acc + (seq![i as int] + rest) =~= acc.push(i as int) + rest);
                acc = acc.push(i as int);
            }
            assert(t.offs@[i as int] == text::offset(text@, i as int));
            assert(t.offs@[i + m] == text::offset(text@, i + m));
            out.push(Range { start: t.offs[i], end: t.offs[i + m] });
            i = i + m;
        } else {
            i = i + 1;
        }
    }
    assert(matches_from(text@, query@, i as int) =~= seq![]);
    assert(acc =~= matches_of(text@, query@));
    out
}

// --- Laws ---

/// Matches stand inside the text, one behind the other, and each one matches.
pub proof fn law_matches_disjoint(s: Seq<char>, q: Seq<char>, i: int)
    requires
        0 <= i,
    ensures
        forall|k: int|
            #![trigger matches_from(s, q, i)[k]]
            0 <= k < matches_from(s, q, i).len() ==> i <= matches_from(s, q, i)[k] && matches_at(
                s,
                q,
                matches_from(s, q, i)[k],
            ),
        forall|k: int, m: int|
            #![trigger matches_from(s, q, i)[k], matches_from(s, q, i)[m]]
            0 <= k < m < matches_from(s, q, i).len() ==> matches_from(s, q, i)[k] + q.len()
                <= matches_from(s, q, i)[m],
    decreases s.len() - i,
{
    if q.len() > 0 && i + q.len() <= s.len() {
        let all = matches_from(s, q, i);
        if matches_at(s, q, i) {
            law_matches_disjoint(s, q, i + q.len());
            let rest = matches_from(s, q, i + q.len());
            assert forall|k: int| #![trigger all[k]] 0 <= k < all.len() implies i <= all[k]
                && matches_at(s, q, all[k]) by {
                if k > 0 {
                    assert(all[k] == rest[k - 1]);
                }
            }
            assert forall|k: int, m: int|
                #![trigger all[k], all[m]]
                0 <= k < m < all.len() implies all[k] + q.len() <= all[m] by {
                assert(all[m] == rest[m - 1]);
                if k > 0 {
                    assert(all[k] == rest[k - 1]);
                }
            }
        } else {
            law_matches_disjoint(s, q, i + 1);
            let rest = matches_from(s, q, i + 1);
            assert(all == rest);
            assert forall|k: int| #![trigger all[k]] 0 <= k < all.len() implies i <= all[k]
                && matches_at(s, q, all[k]) by {
                assert(all[k] == rest[k]);
            }
        }
    } else {
        assert(matches_from(s, q, i).len() == 0);
    }
}

/// No occurrence is missed: wherever the query stands, a match covers that
/// place or starts at it.
pub proof fn law_no_match_missed(s: Seq<char>, q: Seq<char>, i: int, p: int)
    requires
        0 <= i <= p,
        q.len() > 0,
        matches_at(s, q, p),
    ensures
        exists|k: int|
            0 <= k < matches_from(s, q, i).len() && (#[trigger] matches_from(s, q, i)[k]) <= p
                < matches_from(s, q, i)[k] + q.len(),
    decreases s.len() - i,
{
    let all = matches_from(s, q, i);
    if matches_at(s, q, i) {
        if p < i + q.len() {
            assert(all[0] == i);
        } else {
            law_no_match_missed(s, q, i + q.len(), p);
            let rest = matches_from(s, q, i + q.len());
            let k = choose|k: int|
                0 <= k < rest.len() && (#[trigger] rest[k]) <= p < rest[k] + q.len();
            assert(all[k + 1] == rest[k]);
        }
    } else {
        law_no_match_missed(s, q, i + 1, p);
    }
}

} // verus!
