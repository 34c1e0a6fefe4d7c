//! `key:: value` property lines and the pills inside their values.
use crate::links;
use crate::links::{links, wiki_target_display, LinkHit, Target};
use crate::text;
use crate::text::{
    alnum, find_char, find_pair, letter, part, skip_digits, skip_space, to_string, trim_range, Text,
};
use vstd::prelude::*;

verus! {

/// Whether `c` may stand in a property key.
pub open spec fn key_char(c: char) -> bool {
    text::is_alnum(c) || c == '-' || c == '_' || c == '.'
}

/// Whether `s` looks like a property key: a letter, then key characters.
pub open spec fn is_key(s: Seq<char>) -> bool {
    &&& s.len() > 0
    &&& text::is_letter(s[0])
    &&& forall|k: int| 0 <= k < s.len() ==> key_char(#[trigger] s[k])
}

/// `::`.
pub open spec fn colons() -> Seq<char> {
    seq![':', ':']
}

/// The key of a property line and where it starts, and its value.
pub open spec fn property_of(line: Seq<char>) -> Option<(Seq<char>, Seq<char>)> {
    let rest = text::trim_start(line);
    match text::index_of_str(rest, colons(), 0) {
        Some(i) => if is_key(rest.take(i)) {
            Some((rest.take(i), text::trim(rest.skip(i + 2))))
        } else {
            None
        },
        None => None,
    }
}

/// Where the value of a property line begins: behind the `::` and the
/// whitespace that follows it.
pub open spec fn value_start(line: Seq<char>) -> int {
    let rest = text::trim_start(line);
    let i = text::index_of_str(rest, colons(), 0)->0;
    text::space_end(line, 0) + i + 2 + text::space_end(rest.skip(i + 2), 0)
}

fn key_at(s: &[char]) -> (r: bool)
    ensures
        r == is_key(s@),
{
    if s.len() == 0 || !letter(s[0]) {
        return false;
    }
    let mut k: usize = 0;
    while k < s.len()
        invariant
            k <= s@.len(),
            forall|m: int| 0 <= m < k ==> key_char(#[trigger] s@[m]),
        decreases s.len() - k,
    {
        let c: char = s[k];
        if !(alnum(c) || c == '-' || c == '_' || c == '.') {
            assert(!key_char(s@[k as int]));
            return false;
        }
        k += 1;
    }
    true
}

/// The character ranges of the key and of the value.
pub(crate) fn find_property(s: &[char]) -> (r: Option<((usize, usize), (usize, usize))>)
    ensures
        r is Some == property_of(s@) is Some,
        r is Some ==> {
            let ((a, b), (c, d)) = r->0;
            &&& a <= b <= s@.len()
            &&& c <= d <= s@.len()
            &&& a as int == text::space_end(s@, 0)
            &&& c as int == value_start(s@)
            &&& s@.subrange(a as int, b as int) == (property_of(s@)->0).0
            &&& s@.subrange(c as int, d as int) == (property_of(s@)->0).1
        },
{
    let a: usize = skip_space(s, 0);
    let n: usize = s.len();
    let rest = part(s, a, n);
    assert(rest@ =~= text::trim_start(s@));
    let m: usize = rest.len();
    match find_pair(rest, ':', ':', 0) {
        Some(i) => {
            let key = part(rest, 0, i);
            assert(key@ =~= rest@.take(i as int));
            if !key_at(key) {
                return None;
            }
            let tail = part(rest, i + 2, m);
            assert(tail@ =~= rest@.skip(i + 2));
            let (c, d) = trim_range(tail);
            assert(s@.subrange(a as int, a + i) =~= key@);
            assert(s@.subrange(a + i + 2 + c, a + i + 2 + d) =~= tail@.subrange(
                c as int,
                d as int,
            ));
            Some(((a, a + i), (a + i + 2 + c, a + i + 2 + d)))
        },
        None => None,
    }
}

/// Splits a `key:: value` property line into `(key, value)`. The key must look
/// like an identifier, so prose containing `::` is not mistaken for a property.
/// Leading indentation is ignored; the value is trimmed.
pub fn property(line: &str) -> (r: Option<(&str, &str)>)
    ensures
        r is Some == property_of(line@) is Some,
        r is Some ==> ((r->0).0@, (r->0).1@) == property_of(line@)->0,
{
    let t = Text::new(line);
    match find_property(t.chars.as_slice()) {
        Some(((a, b), (c, d))) => Some((line.substring_char(a, b), line.substring_char(c, d))),
        None => None,
    }
}

/// Where the body behind a list marker begins: a bullet and a space, or digits,
/// a dot or bracket, and a space.
pub open spec fn list_body(s: Seq<char>) -> Option<int> {
    let d = text::digits_end(s, 0);
    if s.len() >= 2 && (s[0] == '-' || s[0] == '*' || s[0] == '+') && s[1] == ' ' {
        Some(2)
    } else if d > 0 && d + 1 < s.len() && (s[d] == '.' || s[d] == ')') && s[d + 1] == ' ' {
        Some(d + 2)
    } else {
        None
    }
}

/// The prefix, key and value of a property line that may begin with a list
/// marker.
pub open spec fn prefixed(line: Seq<char>) -> Option<(Seq<char>, Seq<char>, Seq<char>)> {
    let ws = text::space_end(line, 0);
    match property_of(line) {
        Some((k, v)) => Some((line.take(ws), k, v)),
        None => match list_body(line.skip(ws)) {
            Some(b) => match property_of(line.skip(ws + b)) {
                Some((k, v)) => Some(
                    (line.take(ws + b + text::space_end(line.skip(ws + b), 0)), k, v),
                ),
                None => None,
            },
            None => None,
        },
    }
}

fn find_list_body(s: &[char]) -> (r: Option<usize>)
    ensures
        r is Some == list_body(s@) is Some,
        r is Some ==> r->0 as int == list_body(s@)->0 && r->0 <= s@.len(),
{
    let n: usize = s.len();
    if n >= 2 && (s[0] == '-' || s[0] == '*' || s[0] == '+') && s[1] == ' ' {
        return Some(2);
    }
    let d: usize = skip_digits(s, 0);
    if d > 0 && n >= 2 && d < n - 1 && (s[d] == '.' || s[d] == ')') && s[d + 1] == ' ' {
        return Some(d + 2);
    }
    None
}

/// [`property`], tolerating a leading list marker (`- key:: value`, also `* `,
/// `+ `, `1. `, `1) `). Gives `(prefix, key, value)`; `prefix` is everything
/// before the key (indent and marker), so an editor can write the line back
/// unchanged.
pub fn prefixed_property(line: &str) -> (r: Option<(&str, &str, &str)>)
    ensures
        r is Some == prefixed(line@) is Some,
        r is Some ==> ((r->0).0@, (r->0).1@, (r->0).2@) == prefixed(line@)->0,
{
    let t = Text::new(line);
    let s = t.chars.as_slice();
    let n: usize = s.len();
    let ws: usize = skip_space(s, 0);
    if let Some(((a, b), (c, d))) = find_property(s) {
        assert(line@.subrange(0, ws as int) =~= line@.take(ws as int));
        return Some(
            (line.substring_char(0, ws), line.substring_char(a, b), line.substring_char(c, d)),
        );
    }
    let rest = part(s, ws, n);
    assert(rest@ =~= line@.skip(ws as int));
    let k: usize = match find_list_body(rest) {
        Some(k) => k,
        None => {
            return None;
        },
    };
    let body = part(s, ws + k, n);
    assert(body@ =~= line@.skip(ws + k));
    match find_property(body) {
        Some(((a, b), (c, d))) => {
            let base: usize = ws + k;
            assert(line@.subrange(0, base + a) =~= line@.take(base + a));
            assert(line@.subrange(base + a, base + b) =~= body@.subrange(a as int, b as int));
            assert(line@.subrange(base + c, base + d) =~= body@.subrange(c as int, d as int));
            Some(
                (
                    line.substring_char(0, base + a),
                    line.substring_char(base + a, base + b),
                    line.substring_char(base + c, base + d),
                ),
            )
        },
        None => None,
    }
}

// --- Values ---

/// A rendered piece of a property value: literal text, or a link "pill" (a
/// wiki-link, `#tag`, or URL shown as a rounded chip).
#[derive(PartialEq, Debug)]
pub enum PropSeg {
    Text(String),
    Pill {
        /// The chip's display text: a wiki-link's label, a tag without its `#`,
        /// or a link's text.
        label: String,
        target: LinkHit,
        /// A `#tag` (and no wiki-link or URL).
        is_tag: bool,
    },
}

/// A [`PropSeg`] as a value.
pub enum Segment {
    Text(Seq<char>),
    Pill { label: Seq<char>, target: Target, is_tag: bool },
}

impl View for PropSeg {
    type V = Segment;

    open spec fn view(&self) -> Segment {
        match self {
            PropSeg::Text(t) => Segment::Text(t@),
            PropSeg::Pill { label, target, is_tag } => Segment::Pill {
                label: label@,
                target: target@,
                is_tag: *is_tag,
            },
        }
    }
}

/// What the source text of a link shows: a wiki-link its label, a tag its name,
/// an inline link its text, a bare URL itself.
pub open spec fn pill_label(raw: Seq<char>) -> Seq<char> {
    if is_wiki(raw) {
        links::wiki_display(raw.subrange(2, raw.len() - 2))
    } else if raw.len() > 0 && raw[0] == '#' {
        raw.skip(1)
    } else if raw.len() > 0 && raw[0] == '[' {
        match text::index_of(raw, ']', 1) {
            Some(e) => raw.subrange(1, e),
            None => raw,
        }
    } else {
        raw
    }
}

/// Whether `raw` is `[[…]]`.
pub open spec fn is_wiki(raw: Seq<char>) -> bool {
    raw.len() >= 4 && raw[0] == '[' && raw[1] == '[' && raw[raw.len() - 2] == ']' && raw[raw.len()
        - 1] == ']'
}

/// Whether the source text of a link is a tag.
pub open spec fn is_tag_text(raw: Seq<char>) -> bool {
    raw.len() > 0 && raw[0] == '#'
}

/// `s` from `i` to `j` as a text segment, or none where that is empty.
pub open spec fn gap(s: Seq<char>, i: int, j: int) -> Seq<Segment> {
    if i < j {
        seq![Segment::Text(s.subrange(i, j))]
    } else {
        seq![]
    }
}

/// The pill of a link.
pub open spec fn pill(s: Seq<char>, link: links::Link) -> Segment {
    let raw = s.subrange(link.start, link.end);
    Segment::Pill { label: pill_label(raw), target: link.target, is_tag: is_tag_text(raw) }
}

/// The segments of the first `n` links of `s`, up to the end of the last.
pub open spec fn segments_upto(s: Seq<char>, all: Seq<links::Link>, n: int) -> Seq<Segment>
    decreases n,
{
    if n <= 0 {
        seq![]
    } else {
        segments_upto(s, all, n - 1) + gap(s, end_of(all, n - 1), all[n - 1].start) + seq![
            pill(s, all[n - 1]),
        ]
    }
}

/// Where the first `n` links end.
pub open spec fn end_of(all: Seq<links::Link>, n: int) -> int {
    if n <= 0 {
        0
    } else {
        all[n - 1].end
    }
}

/// The segments of a property value: its links as pills, and the text between.
pub open spec fn segments(s: Seq<char>) -> Seq<Segment> {
    let all = links::links_of(s);
    let n = all.len() as int;
    segments_upto(s, all, n) + gap(s, end_of(all, n), s.len() as int)
}

/// The views of segments.
pub open spec fn seg_views(v: Seq<PropSeg>) -> Seq<Segment> {
    v.map_values(|p: PropSeg| p@)
}

fn push_gap(out: &mut Vec<PropSeg>, s: &[char], i: usize, j: usize)
    requires
        i <= s@.len(),
        j <= s@.len(),
    ensures
        seg_views(final(out)@) == seg_views(old(out)@) + gap(s@, i as int, j as int),
{
    let ghost before = seg_views(out@);
    if i < j {
        out.push(PropSeg::Text(to_string(part(s, i, j))));
    }
    assert(seg_views(out@) =~= before + gap(s@, i as int, j as int));
}

/// The display text of a link's source text, and whether it is a tag.
fn label_of(raw: &[char]) -> (r: (String, bool))
    ensures
        r.0@ == pill_label(raw@),
        r.1 == is_tag_text(raw@),
{
    let n: usize = raw.len();
    if n >= 4 && raw[0] == '[' && raw[1] == '[' && raw[n - 2] == ']' && raw[n - 1] == ']' {
        let inner = to_string(part(raw, 2, n - 2));
        let (_, shown) = wiki_target_display(inner.as_str());
        return (shown.to_owned(), false);
    }
    if n > 0 && raw[0] == '#' {
        let tag = part(raw, 1, n);
        assert(tag@ =~= raw@.skip(1));
        return (to_string(tag), true);
    }
    if n > 0 && raw[0] == '[' {
        if let Some(e) = find_char(raw, ']', 1) {
            return (to_string(part(raw, 1, e)), false);
        }
    }
    (to_string(raw), false)
}

/// Splits a property value into display segments: plain runs and link pills.
/// Built on [`links`], so the pill spans match the click hit-tests.
pub fn property_value_segments(value: &str) -> (r: Vec<PropSeg>)
    ensures
        seg_views(r@) == segments(value@),
{
    let t = Text::new(value);
    let s = t.chars.as_slice();
    let n: usize = s.len();
    let mut found = links(value);
    let ghost all = links::links_of(value@);
    let ghost rows = found@;
    let total: usize = found.len();
    let mut out: Vec<PropSeg> = Vec::new();
    let mut pos: usize = 0;
    let mut k: usize = 0;
    proof {
        links::law_links_ordered(value@, 0);
    }
    assert(seg_views(out@) =~= seq![]);
    while k < total
        invariant
            t.wf(),
            t@ == value@,
            s@ == value@,
            n == s@.len(),
            all == links::links_of(value@),
            links::are_links(rows, value@, all),
            total == rows.len(),
            found@ == rows.skip(k as int),
            k <= total,
            pos as int == end_of(all, k as int),
            pos <= n,
            seg_views(out@) == segments_upto(value@, all, k as int),
            forall|a: int|
                #![trigger all[a]]
                0 <= a < all.len() ==> 0 <= all[a].start < all[a].end <= value@.len(),
            forall|a: int, b: int|
                #![trigger all[a], all[b]]
                0 <= a < b < all.len() ==> all[a].end <= all[b].start,
        decreases total - k,
    {
        let ghost acc = seg_views(out@);
        let (range, hit) = found.remove(0);
        assert(links::is_link(rows[k as int], value@, all[k as int]));
        assert(found@ =~= rows.skip(k + 1));
        proof {
            text::lemma_index_at(value@, all[k as int].start);
            text::lemma_index_at(value@, all[k as int].end);
            if k > 0 {
                assert(all[k - 1].end <= all[k as int].start);
            }
        }
        let a: usize = match t.index_of(range.start) {
            Some(a) => a,
            None => 0,
        };
        let b: usize = match t.index_of(range.end) {
            Some(b) => b,
            None => 0,
        };
        push_gap(&mut out, s, pos, a);
        let (label, is_tag) = label_of(part(s, a, b));
        let ghost mid = seg_views(out@);
        out.push(PropSeg::Pill { label, target: hit, is_tag });
        assert(seg_views(out@) =~= mid + seq![pill(value@, all[k as int])]);
        assert(segments_upto(value@, all, k + 1) =~= mid + seq![pill(value@, all[k as int])]);
        pos = b;
        k += 1;
    }
    push_gap(&mut out, s, pos, n);
    out
}

// --- Laws ---

/// The pills among segments, in order.
pub open spec fn pills_in(v: Seq<Segment>) -> Seq<Segment>
    decreases v.len(),
{
    if v.len() == 0 {
        seq![]
    } else if v.last() is Pill {
        pills_in(v.drop_last()).push(v.last())
    } else {
        pills_in(v.drop_last())
    }
}

/// The texts among segments, in order.
pub open spec fn texts_in(v: Seq<Segment>) -> Seq<Segment>
    decreases v.len(),
{
    if v.len() == 0 {
        seq![]
    } else if v.last() is Text {
        texts_in(v.drop_last()).push(v.last())
    } else {
        texts_in(v.drop_last())
    }
}

/// Where link `n` starts; the end of the value behind the last link.
pub open spec fn start_of(s: Seq<char>, all: Seq<links::Link>, n: int) -> int {
    if 0 <= n < all.len() {
        all[n].start
    } else {
        s.len() as int
    }
}

/// The first `n` of the gaps before, between and behind the links, those that
/// are not empty.
pub open spec fn gaps_upto(s: Seq<char>, all: Seq<links::Link>, n: int) -> Seq<Segment>
    decreases n,
{
    if n <= 0 {
        seq![]
    } else {
        gaps_upto(s, all, n - 1) + gap(s, end_of(all, n - 1), start_of(s, all, n - 1))
    }
}

proof fn lemma_parts_concat(a: Seq<Segment>, b: Seq<Segment>)
    ensures
        pills_in(a + b) == pills_in(a) + pills_in(b),
        texts_in(a + b) == texts_in(a) + texts_in(b),
    decreases b.len(),
{
    if b.len() == 0 {
        assert(a + b =~= a);
        assert(pills_in(a) + pills_in(b) =~= pills_in(a));
        assert(texts_in(a) + texts_in(b) =~= texts_in(a));
    } else {
        let w = a + b;
        assert(w.drop_last() =~= a + b.drop_last());
        assert(w.last() == b.last());
        lemma_parts_concat(a, b.drop_last());
        assert(pills_in(w) =~= pills_in(a) + pills_in(b));
        assert(texts_in(w) =~= texts_in(a) + texts_in(b));
    }
}

proof fn lemma_one_part(x: Segment)
    ensures
        pills_in(seq![x]) == if x is Pill {
            seq![x]
        } else {
            seq![]
        },
        texts_in(seq![x]) == if x is Text {
            seq![x]
        } else {
            seq![]
        },
{
    let v = seq![x];
    assert(v.drop_last() =~= seq![]);
    assert(pills_in(v.drop_last()) =~= seq![]);
    assert(texts_in(v.drop_last()) =~= seq![]);
    assert(v.last() == x);
    if x is Pill {
        assert(pills_in(v) =~= seq![x]);
    } else {
        assert(texts_in(v) =~= seq![x]);
    }
}

proof fn lemma_gap_parts(s: Seq<char>, i: int, j: int)
    ensures
        pills_in(gap(s, i, j)) == Seq::<Segment>::empty(),
        texts_in(gap(s, i, j)) == gap(s, i, j),
{
    if i < j {
        lemma_one_part(Segment::Text(s.subrange(i, j)));
    } else {
        assert(gap(s, i, j) =~= seq![]);
    }
}

/// The pills of the first `n` links.
pub open spec fn pills_upto(s: Seq<char>, all: Seq<links::Link>, n: nat) -> Seq<Segment> {
    Seq::new(n, |k: int| pill(s, all[k]))
}

proof fn lemma_parts_upto(s: Seq<char>, all: Seq<links::Link>, n: int)
    requires
        0 <= n <= all.len(),
    ensures
        pills_in(segments_upto(s, all, n)) == pills_upto(s, all, n as nat),
        texts_in(segments_upto(s, all, n)) == gaps_upto(s, all, n),
    decreases n,
{
    if n > 0 {
        lemma_parts_upto(s, all, n - 1);
        let head = segments_upto(s, all, n - 1);
        let g = gap(s, end_of(all, n - 1), all[n - 1].start);
        let x = pill(s, all[n - 1]);
        lemma_parts_concat(head + g, seq![x]);
        lemma_parts_concat(head, g);
        lemma_gap_parts(s, end_of(all, n - 1), all[n - 1].start);
        lemma_one_part(x);
        assert(pills_in(segments_upto(s, all, n)) =~= pills_upto(s, all, n as nat));
        assert(texts_in(segments_upto(s, all, n)) =~= gaps_upto(s, all, n));
    } else {
        assert(pills_in(segments_upto(s, all, n)) =~= pills_upto(s, all, n as nat));
    }
}

/// Whether no text among segments is empty and no two texts stand side by side.
pub open spec fn texts_are_apart(v: Seq<Segment>) -> bool {
    &&& forall|k: int|
        0 <= k < v.len() ==> (#[trigger] v[k] matches Segment::Text(t) ==> t.len() > 0)
    &&& forall|k: int|
        #![trigger v[k]]
        0 < k < v.len() ==> !(v[k - 1] is Text && v[k] is Text)
}

proof fn lemma_apart_upto(s: Seq<char>, all: Seq<links::Link>, n: int)
    requires
        0 <= n <= all.len(),
        forall|k: int|
            #![trigger all[k]]
            0 <= k < all.len() ==> 0 <= all[k].start <= all[k].end <= s.len(),
    ensures
        texts_are_apart(segments_upto(s, all, n)),
        n > 0 ==> segments_upto(s, all, n).len() > 0 && segments_upto(s, all, n).last() is Pill,
        n == 0 ==> segments_upto(s, all, n).len() == 0,
    decreases n,
{
    let v = segments_upto(s, all, n);
    if n > 0 {
        lemma_apart_upto(s, all, n - 1);
        let head = segments_upto(s, all, n - 1);
        let (i, j) = (end_of(all, n - 1), all[n - 1].start);
        let g = gap(s, i, j);
        let x = pill(s, all[n - 1]);
        assert(v =~= (head + g).push(x));
        lemma_apart_gap(head, s, i, j);
        assert(texts_are_apart(head + g));
        assert forall|k: int| 0 <= k < v.len() implies (#[trigger] v[k] matches Segment::Text(
            t,
        ) ==> t.len() > 0) by {
            if k < (head + g).len() {
                assert(v[k] == (head + g)[k]);
            }
        }
        assert forall|k: int| #![trigger v[k]] 0 < k < v.len() implies !(v[k - 1] is Text
            && v[k] is Text) by {
            if k < (head + g).len() {
                assert(v[k] == (head + g)[k]);
                assert(v[k - 1] == (head + g)[k - 1]);
            }
        }
    }
}

proof fn lemma_apart_gap(v: Seq<Segment>, s: Seq<char>, i: int, j: int)
    requires
        texts_are_apart(v),
        v.len() > 0 ==> v.last() is Pill,
        0 <= i,
        j <= s.len(),
    ensures
        texts_are_apart(v + gap(s, i, j)),
{
    let w = v + gap(s, i, j);
    assert forall|k: int| 0 <= k < w.len() implies (#[trigger] w[k] matches Segment::Text(
        t,
    ) ==> t.len() > 0) by {
        if k < v.len() {
            assert(w[k] == v[k]);
        }
    }
    assert forall|k: int| #![trigger w[k]] 0 < k < w.len() implies !(w[k - 1] is Text
        && w[k] is Text) by {
        assert(w[k - 1] == v[k - 1]);
        if k < v.len() {
            assert(w[k] == v[k]);
        }
    }
}

/// A value is shown as its links say: one pill for each link, in order, with its
/// target and marked as a tag where its source begins with `#`; and as texts,
/// verbatim and in order, exactly the gaps before, between and behind the links
/// that are not empty. So no text is empty, and no two stand side by side.
pub proof fn law_one_pill_per_link(s: Seq<char>)
    ensures
        pills_in(segments(s)) == links::links_of(s).map_values(|l: links::Link| pill(s, l)),
        texts_in(segments(s)) == gaps_upto(
            s,
            links::links_of(s),
            links::links_of(s).len() as int + 1,
        ),
        texts_are_apart(segments(s)),
{
    let all = links::links_of(s);
    let n = all.len() as int;
    let (i, j) = (end_of(all, n), s.len() as int);
    links::law_links_ordered(s, 0);
    lemma_parts_upto(s, all, n);
    lemma_gap_parts(s, i, j);
    lemma_parts_concat(segments_upto(s, all, n), gap(s, i, j));
    assert(pills_in(segments(s)) =~= all.map_values(|l: links::Link| pill(s, l)));
    assert(texts_in(segments(s)) =~= gaps_upto(s, all, n + 1));
    lemma_apart_upto(s, all, n);
    lemma_apart_gap(segments_upto(s, all, n), s, i, j);
}

/// A value without links is one text segment, or none where it is empty.
pub proof fn law_plain_value_is_one_text(s: Seq<char>)
    requires
        links::links_of(s).len() == 0,
    ensures
        segments(s) == if s.len() > 0 {
            seq![Segment::Text(s)]
        } else {
            seq![]
        },
{
    if s.len() > 0 {
        assert(s.subrange(0, s.len() as int) =~= s);
        assert(segments(s) =~= seq![Segment::Text(s)]);
    } else {
        assert(segments(s) =~= seq![]);
    }
}

/// A property line can be put together again: its prefix, its key and `::` are
/// what it begins with.
pub proof fn law_prefix_and_key_lead_the_line(line: Seq<char>)
    requires
        prefixed(line) is Some,
    ensures
        ({
            let (p, k, v) = prefixed(line)->0;
            text::begins(line, p + k + colons())
        }),
{
    let ws = text::space_end(line, 0);
    text::lemma_space_end(line, 0);
    let (p, k, v) = prefixed(line)->0;
    if property_of(line) is Some {
        assert(line.subrange(0, p.len() as int) =~= p);
        lemma_property_leads(line);
        lemma_three_parts(line, p, k, colons());
    } else {
        let rest = line.skip(ws);
        text::lemma_digits_end(rest, 0);
        let b = list_body(rest)->0;
        let body = line.skip(ws + b);
        lemma_property_leads(body);
        text::lemma_space_end(body, 0);
        let a = text::space_end(body, 0);
        assert(line.subrange(0, p.len() as int) =~= p);
        assert(body.subrange(a, a + k.len()) =~= line.subrange(ws + b + a, ws + b + a + k.len()));
        assert(body.subrange(a + k.len(), a + k.len() + 2) =~= line.subrange(
            ws + b + a + k.len(),
            ws + b + a + k.len() + 2,
        ));
        lemma_three_parts(line, p, k, colons());
    }
}

proof fn lemma_three_parts(s: Seq<char>, a: Seq<char>, b: Seq<char>, c: Seq<char>)
    requires
        a.len() + b.len() + c.len() <= s.len(),
        s.subrange(0, a.len() as int) == a,
        s.subrange(a.len() as int, (a.len() + b.len()) as int) == b,
        s.subrange((a.len() + b.len()) as int, (a.len() + b.len() + c.len()) as int) == c,
    ensures
        text::begins(s, a + b + c),
{
    let n = (a + b + c).len() as int;
    assert(s.subrange(0, n) =~= s.subrange(0, a.len() as int) + s.subrange(
        a.len() as int,
        (a.len() + b.len()) as int,
    ) + s.subrange((a.len() + b.len()) as int, n));
}

proof fn lemma_property_leads(line: Seq<char>)
    requires
        property_of(line) is Some,
    ensures
        ({
            let a = text::space_end(line, 0);
            let k = (property_of(line)->0).0;
            &&& 0 <= a <= line.len()
            &&& a + k.len() + 2 <= line.len()
            &&& line.subrange(a, a + k.len()) == k
            &&& line.subrange(a + k.len(), a + k.len() + 2) == colons()
        }),
{
    let a = text::space_end(line, 0);
    text::lemma_space_end(line, 0);
    let rest = text::trim_start(line);
    text::lemma_index_of_str(rest, colons(), 0);
    let i = text::index_of_str(rest, colons(), 0)->0;
    assert(line.subrange(a, a + i) =~= rest.take(i));
    assert(line.subrange(a + i, a + i + 2) =~= rest.subrange(i, i + 2));
}

} // verus!
