//! Formatting of text by byte ranges.
//!
//! A list of spans says how each byte of a text is styled. The functions here
//! return it in one form: in order, apart, without plain spans, and with
//! neighbours of the same style joined.
use vstd::prelude::*;

verus! {

/// How a run of text is styled.
#[derive(Clone, Copy, PartialEq, Eq, Debug, Structural)]
pub struct RunStyle {
    pub bold: bool,
    pub italic: bool,
    pub underline: bool,
    pub strike: bool,
    /// The highlighter's colour, as `0xRRGGBBAA`.
    pub highlight: Option<u32>,
}

impl Default for RunStyle {
    fn default() -> (r: RunStyle)
        ensures
            r == plain(),
    {
        RunStyle { bold: false, italic: false, underline: false, strike: false, highlight: None }
    }
}

/// A styled range of bytes.
#[derive(Clone, Copy, PartialEq, Eq, Debug, Structural)]
pub struct StyleSpan {
    pub start: usize,
    pub end: usize,
    pub style: RunStyle,
}

/// A style that is on or off.
#[derive(Clone, Copy, PartialEq, Eq, Debug, Structural)]
pub enum Format {
    Bold,
    Italic,
    Underline,
    Strike,
}

/// A style as the glyph painter takes it.
#[derive(Clone, Copy, PartialEq, Eq, Debug, Structural)]
pub struct GlyphStyle {
    pub bold: bool,
    pub italic: bool,
    pub underline: bool,
    pub strike: bool,
    pub highlight: Option<u32>,
}

/// What happens to the style of a range.
#[derive(Clone, Copy, PartialEq, Eq, Debug, Structural)]
pub enum Restyle {
    Keep,
    Turn(Format, bool),
    Highlight(Option<u32>),
}

/// The style of text that nothing was done to.
pub open spec fn plain() -> RunStyle {
    RunStyle { bold: false, italic: false, underline: false, strike: false, highlight: None }
}

/// Whether a span covers byte `i`.
pub open spec fn covers(x: StyleSpan, i: int) -> bool {
    x.start <= i < x.end
}

/// The style of byte `i`, by the first span from `k` on that covers it.
pub open spec fn style_from(v: Seq<StyleSpan>, i: int, k: int) -> RunStyle
    decreases v.len() - k,
{
    if k < 0 || k >= v.len() {
        plain()
    } else if covers(v[k], i) {
        v[k].style
    } else {
        style_from(v, i, k + 1)
    }
}

/// The style of byte `i`.
pub open spec fn style_of(v: Seq<StyleSpan>, i: int) -> RunStyle {
    style_from(v, i, 0)
}

/// Whether spans are in order, apart, styled, and joined where they can be.
pub open spec fn is_tidy(v: Seq<StyleSpan>) -> bool {
    &&& forall|k: int|
        0 <= k < v.len() ==> (#[trigger] v[k]).start < v[k].end && v[k].style != plain()
    &&& forall|j: int, k: int|
        #![trigger v[j], v[k]]
        0 <= j < k < v.len() ==> v[j].end <= v[k].start && (v[j].end == v[k].start ==> v[j].style
            != v[k].style)
}

/// Whether a style has a format.
pub open spec fn bears(st: RunStyle, f: Format) -> bool {
    match f {
        Format::Bold => st.bold,
        Format::Italic => st.italic,
        Format::Underline => st.underline,
        Format::Strike => st.strike,
    }
}

/// A style with a format turned on or off.
pub open spec fn with(st: RunStyle, f: Format, on: bool) -> RunStyle {
    match f {
        Format::Bold => RunStyle { bold: on, ..st },
        Format::Italic => RunStyle { italic: on, ..st },
        Format::Underline => RunStyle { underline: on, ..st },
        Format::Strike => RunStyle { strike: on, ..st },
    }
}

/// A style after a change.
pub open spec fn restyled(st: RunStyle, c: Restyle) -> RunStyle {
    match c {
        Restyle::Keep => st,
        Restyle::Turn(f, on) => with(st, f, on),
        Restyle::Highlight(h) => RunStyle { highlight: h, ..st },
    }
}

/// Whether every byte from `s` to `e` has a format.
pub open spec fn all_have(v: Seq<StyleSpan>, s: int, e: int, f: Format) -> bool {
    forall|i: int| s <= i < e ==> bears(#[trigger] style_of(v, i), f)
}

/// Whether every byte from `s` to `e` has highlight `h`.
pub open spec fn all_lit(v: Seq<StyleSpan>, s: int, e: int, h: Option<u32>) -> bool {
    forall|i: int| s <= i < e ==> (#[trigger] style_of(v, i)).highlight == h
}

/// The style that the bytes from `s` to `e` share; for an empty range, that of
/// the byte on its left.
pub open spec fn shared_style(v: Seq<StyleSpan>, s: int, e: int) -> RunStyle {
    if s < e {
        RunStyle {
            bold: all_have(v, s, e, Format::Bold),
            italic: all_have(v, s, e, Format::Italic),
            underline: all_have(v, s, e, Format::Underline),
            strike: all_have(v, s, e, Format::Strike),
            highlight: if all_lit(v, s, e, style_of(v, s).highlight) {
                style_of(v, s).highlight
            } else {
                None
            },
        }
    } else {
        style_of(v, left_of(s))
    }
}

/// The byte on the left of `s`; the first one where there is none.
pub open spec fn left_of(s: int) -> int {
    if s > 0 {
        s - 1
    } else {
        s
    }
}

/// The style of byte `i` once the bytes from `s` to `e` changed.
pub open spec fn changed_at(v: Seq<StyleSpan>, s: int, e: int, c: Restyle, i: int) -> RunStyle {
    if s <= i < e {
        restyled(style_of(v, i), c)
    } else {
        style_of(v, i)
    }
}

/// Whether `r` is `v` with the bytes from `s` to `e` changed.
pub open spec fn is_changed(
    r: Seq<StyleSpan>,
    v: Seq<StyleSpan>,
    s: int,
    e: int,
    c: Restyle,
) -> bool {
    &&& is_tidy(r)
    &&& forall|i: int|
        0 <= i < usize::MAX ==> #[trigger] style_of(r, i) == changed_at(v, s, e, c, i)
}

/// The style of byte `i` once the bytes from `s` to `e` were replaced by `n`
/// bytes of style `st`.
pub open spec fn spliced_at(
    v: Seq<StyleSpan>,
    s: int,
    e: int,
    n: int,
    st: RunStyle,
    i: int,
) -> RunStyle {
    if i < s {
        style_of(v, i)
    } else if i < s + n {
        st
    } else {
        style_of(v, i - n - s + e)
    }
}

/// Whether `r` is `v` after such a replacement.
pub open spec fn is_spliced(
    r: Seq<StyleSpan>,
    v: Seq<StyleSpan>,
    s: int,
    e: int,
    n: int,
    st: RunStyle,
) -> bool {
    &&& is_tidy(r)
    &&& forall|i: int|
        0 <= i < usize::MAX ==> #[trigger] style_of(r, i) == spliced_at(v, s, e, n, st, i)
}

/// The spans of `v` with the bytes from `s` to `e` changed.
pub open spec fn changed(v: Seq<StyleSpan>, s: int, e: int, c: Restyle) -> Seq<StyleSpan> {
    choose|r: Seq<StyleSpan>| is_changed(r, v, s, e, c)
}

/// The spans of `v` with the bytes from `s` to `e` replaced by `n` bytes of
/// style `st`.
pub open spec fn spliced(v: Seq<StyleSpan>, s: int, e: int, n: int, st: RunStyle) -> Seq<StyleSpan> {
    choose|r: Seq<StyleSpan>| is_spliced(r, v, s, e, n, st)
}

/// The change that toggles a format.
pub open spec fn format_toggle(v: Seq<StyleSpan>, s: int, e: int, f: Format) -> Restyle {
    Restyle::Turn(f, !all_have(v, s, e, f))
}

/// The change that toggles a highlight.
pub open spec fn highlight_toggle(v: Seq<StyleSpan>, s: int, e: int, color: u32) -> Restyle {
    Restyle::Highlight(
        if all_lit(v, s, e, Some(color)) {
            None
        } else {
            Some(color)
        },
    )
}

/// There is one way to write a change down.
pub proof fn lemma_changed(r: Seq<StyleSpan>, v: Seq<StyleSpan>, s: int, e: int, c: Restyle)
    requires
        is_changed(r, v, s, e, c),
    ensures
        r == changed(v, s, e, c),
{
    let q = changed(v, s, e, c);
    assert(is_changed(q, v, s, e, c));
    assert forall|i: int| 0 <= i < usize::MAX implies #[trigger] style_of(r, i) == style_of(q, i) by {
        assert(style_of(r, i) == changed_at(v, s, e, c, i));
        assert(style_of(q, i) == changed_at(v, s, e, c, i));
    }
    law_one_way_to_write(r, q);
}

/// There is one way to write a replacement down.
pub proof fn lemma_spliced(r: Seq<StyleSpan>, v: Seq<StyleSpan>, s: int, e: int, n: int, st: RunStyle)
    requires
        is_spliced(r, v, s, e, n, st),
    ensures
        r == spliced(v, s, e, n, st),
{
    let q = spliced(v, s, e, n, st);
    assert(is_spliced(q, v, s, e, n, st));
    assert forall|i: int| 0 <= i < usize::MAX implies #[trigger] style_of(r, i) == style_of(q, i) by {
        assert(style_of(r, i) == spliced_at(v, s, e, n, st, i));
        assert(style_of(q, i) == spliced_at(v, s, e, n, st, i));
    }
    law_one_way_to_write(r, q);
}

impl Format {
    /// Whether `s` has this format.
    pub fn get(self, s: &RunStyle) -> (r: bool)
        ensures
            r == bears(*s, self),
    {
        match self {
            Format::Bold => s.bold,
            Format::Italic => s.italic,
            Format::Underline => s.underline,
            Format::Strike => s.strike,
        }
    }

    /// Turns this format of `s` on or off.
    pub fn set(self, s: &mut RunStyle, on: bool)
        ensures
            *final(s) == with(*old(s), self, on),
    {
        match self {
            Format::Bold => {
                s.bold = on;
            },
            Format::Italic => {
                s.italic = on;
            },
            Format::Underline => {
                s.underline = on;
            },
            Format::Strike => {
                s.strike = on;
            },
        }
    }
}

/// A style as the glyph painter takes it.
pub fn glyph_style(s: RunStyle) -> (r: GlyphStyle)
    ensures
        r.bold == s.bold,
        r.italic == s.italic,
        r.underline == s.underline,
        r.strike == s.strike,
        r.highlight == s.highlight,
{
    GlyphStyle {
        bold: s.bold,
        italic: s.italic,
        underline: s.underline,
        strike: s.strike,
        highlight: s.highlight,
    }
}

/// The style of byte `i`.
pub fn style_at(spans: &[StyleSpan], i: usize) -> (r: RunStyle)
    ensures
        r == style_of(spans@, i as int),
{
    let mut k: usize = 0;
    while k < spans.len()
        invariant
            k <= spans@.len(),
            style_of(spans@, i as int) == style_from(spans@, i as int, k as int),
        decreases spans.len() - k,
    {
        if spans[k].start <= i && i < spans[k].end {
            return spans[k].style;
        }
        k += 1;
    }
    RunStyle::default()
}

proof fn lemma_uncovered(v: Seq<StyleSpan>, i: int, j: int)
    requires
        0 <= j,
        forall|k: int| j <= k < v.len() ==> !covers(#[trigger] v[k], i),
    ensures
        style_from(v, i, j) == plain(),
    decreases v.len() - j,
{
    if j < v.len() {
        lemma_uncovered(v, i, j + 1);
    }
}

proof fn lemma_covered(v: Seq<StyleSpan>, i: int, j: int, k: int)
    requires
        is_tidy(v),
        0 <= j <= k < v.len(),
        covers(v[k], i),
    ensures
        style_from(v, i, j) == v[k].style,
    decreases k - j,
{
    if j < k {
        assert(v[j].end <= v[k].start);
        lemma_covered(v, i, j + 1, k);
    }
}

proof fn lemma_same_cover(v: Seq<StyleSpan>, i: int, p: int, j: int)
    requires
        0 <= j,
        forall|k: int| 0 <= k < v.len() ==> covers(#[trigger] v[k], i) == covers(v[k], p),
    ensures
        style_from(v, i, j) == style_from(v, p, j),
    decreases v.len() - j,
{
    if j < v.len() {
        lemma_same_cover(v, i, p, j + 1);
    }
}

/// What tidy spans that end by `start` look like with one more span.
proof fn lemma_one_more(v: Seq<StyleSpan>, x: StyleSpan)
    requires
        is_tidy(v),
        x.start < x.end,
        x.style != plain(),
        v.len() > 0 ==> v.last().end <= x.start,
        v.len() > 0 && v.last().end == x.start ==> v.last().style != x.style,
    ensures
        is_tidy(v.push(x)),
        forall|i: int|
            #[trigger] style_of(v.push(x), i) == if covers(x, i) {
                x.style
            } else {
                style_of(v, i)
            },
{
    let w = v.push(x);
    let n = v.len() as int;
    assert forall|j: int, k: int|
        #![trigger w[j], w[k]]
        0 <= j < k < w.len() implies w[j].end <= w[k].start && (w[j].end == w[k].start ==> w[j].style
        != w[k].style) by {
        if k == n && j < n - 1 {
            assert(v[j].end <= v[n - 1].start);
            assert(v[n - 1].start < v[n - 1].end);
        }
        if k < n {
            assert(w[j] == v[j] && w[k] == v[k]);
        }
    }
    assert forall|k: int| 0 <= k < w.len() implies (#[trigger] w[k]).start < w[k].end && w[k].style
        != plain() by {
        if k < n {
            assert(w[k] == v[k]);
        }
    }
    assert forall|i: int| #[trigger] style_of(w, i) == if covers(x, i) {
        x.style
    } else {
        style_of(v, i)
    } by {
        if covers(x, i) {
            assert(covers(w[n], i));
            lemma_covered(w, i, 0, n);
        } else if exists|k: int| 0 <= k < n && covers(#[trigger] v[k], i) {
            let k = choose|k: int| 0 <= k < n && covers(#[trigger] v[k], i);
            assert(w[k] == v[k]);
            lemma_covered(v, i, 0, k);
            lemma_covered(w, i, 0, k);
        } else {
            lemma_uncovered(v, i, 0);
            assert forall|k: int| 0 <= k < w.len() implies !covers(#[trigger] w[k], i) by {
                if k < n {
                    assert(w[k] == v[k]);
                }
            }
            lemma_uncovered(w, i, 0);
        }
    }
}

/// What tidy spans look like when the last one is longer.
proof fn lemma_longer(v: Seq<StyleSpan>, end: usize)
    requires
        is_tidy(v),
        v.len() > 0,
        v.last().end <= end,
    ensures
        ({
            let n = v.len() - 1;
            let w = v.update(n, StyleSpan { end, ..v[n] });
            &&& is_tidy(w)
            &&& forall|i: int|
                #[trigger] style_of(w, i) == if v[n].end <= i < end {
                    v[n].style
                } else {
                    style_of(v, i)
                }
        }),
{
    let n = v.len() - 1;
    let y = StyleSpan { end, ..v[n] };
    let w = v.update(n, y);
    let u = v.drop_last();
    assert forall|k: int| 0 <= k < u.len() implies (#[trigger] u[k]).start < u[k].end && u[k].style
        != plain() by {
        assert(u[k] == v[k]);
    }
    assert forall|j: int, k: int|
        #![trigger u[j], u[k]]
        0 <= j < k < u.len() implies u[j].end <= u[k].start && (u[j].end == u[k].start ==> u[j].style
        != u[k].style) by {
        assert(u[j] == v[j] && u[k] == v[k]);
    }
    assert(v[n].start < v[n].end);
    if n > 0 {
        assert(v[n - 1].end <= v[n].start);
        assert(u.last() == v[n - 1]);
    }
    assert(v =~= u.push(v[n]));
    assert(w =~= u.push(y));
    lemma_one_more(u, v[n]);
    lemma_one_more(u, y);
    assert forall|i: int| #[trigger] style_of(w, i) == if v[n].end <= i < end {
        v[n].style
    } else {
        style_of(v, i)
    } by {
        assert(style_of(u.push(y), i) == style_of(w, i));
        assert(style_of(u.push(v[n]), i) == style_of(v, i));
    }
}

/// Where the spans end.
pub open spec fn end_of(v: Seq<StyleSpan>) -> int {
    if v.len() == 0 {
        0
    } else {
        v.last().end as int
    }
}

fn push_run(out: &mut Vec<StyleSpan>, start: usize, end: usize, style: RunStyle)
    requires
        is_tidy(old(out)@),
        end_of(old(out)@) <= start <= end,
    ensures
        is_tidy(final(out)@),
        end_of(final(out)@) <= end,
        forall|i: int|
            0 <= i ==> #[trigger] style_of(final(out)@, i) == if start <= i < end {
                style
            } else {
                style_of(old(out)@, i)
            },
{
    let ghost v = out@;
    let none = RunStyle::default();
    proof {
        assert forall|i: int| start <= i implies #[trigger] style_of(v, i) == plain() by {
            assert forall|k: int| 0 <= k < v.len() implies !covers(#[trigger] v[k], i) by {
                let n = v.len() - 1;
                if k < n {
                    assert(v[k].end <= v[n].start);
                    assert(v[n].start < v[n].end);
                }
            }
            lemma_uncovered(v, i, 0);
        }
    }
    if start >= end || style == none {
        return;
    }
    let n: usize = out.len();
    if n > 0 && out[n - 1].end == start && out[n - 1].style == style {
        proof {
            lemma_longer(v, end);
        }
        let last = out[n - 1];
        out.set(n - 1, StyleSpan { start: last.start, end, style: last.style });
        return;
    }
    let x = StyleSpan { start, end, style };
    proof {
        lemma_one_more(v, x);
        assert forall|i: int| 0 <= i implies #[trigger] style_of(v.push(x), i) == if start <= i < end {
            style
        } else {
            style_of(v, i)
        } by {
            assert(covers(x, i) == (start <= i < end));
        }
    }
    out.push(x);
}

/// The next byte after `pos`, up to `limit`, where the style may change.
fn next_cut(spans: &[StyleSpan], pos: usize, limit: usize) -> (c: usize)
    requires
        pos < limit,
    ensures
        pos < c <= limit,
        forall|i: int| pos <= i < c ==> #[trigger] style_of(spans@, i) == style_of(spans@, pos as int),
{
    let mut c: usize = limit;
    let mut k: usize = 0;
    while k < spans.len()
        invariant
            k <= spans@.len(),
            pos < c <= limit,
            forall|j: int, i: int|
                #![trigger covers(spans@[j], i)]
                0 <= j < k && pos <= i < c ==> covers(spans@[j], i) == covers(spans@[j], pos as int),
        decreases spans.len() - k,
    {
        let a: usize = spans[k].start;
        let b: usize = spans[k].end;
        if pos < a && a < c {
            c = a;
        }
        if pos < b && b < c {
            c = b;
        }
        k += 1;
    }
    proof {
        assert forall|i: int| pos <= i < c implies #[trigger] style_of(spans@, i) == style_of(
            spans@,
            pos as int,
        ) by {
            lemma_same_cover(spans@, i, pos as int, 0);
        }
    }
    c
}

fn restyle(st: RunStyle, c: Restyle) -> (r: RunStyle)
    ensures
        r == restyled(st, c),
{
    let mut r = st;
    match c {
        Restyle::Keep => {},
        Restyle::Turn(f, on) => {
            f.set(&mut r, on);
        },
        Restyle::Highlight(h) => {
            r.highlight = h;
        },
    }
    r
}

/// Puts the styles of the bytes from `from` to `to`, changed, at `at`.
fn copy_runs(
    out: &mut Vec<StyleSpan>,
    spans: &[StyleSpan],
    from: usize,
    to: usize,
    at: usize,
    c: Restyle,
)
    requires
        is_tidy(old(out)@),
        end_of(old(out)@) <= at,
        from <= to,
        at + (to - from) <= usize::MAX,
    ensures
        is_tidy(final(out)@),
        end_of(final(out)@) <= at + (to - from),
        forall|i: int|
            0 <= i ==> #[trigger] style_of(final(out)@, i) == if at <= i < at + (to - from) {
                restyled(style_of(spans@, from + (i - at)), c)
            } else {
                style_of(old(out)@, i)
            },
{
    let ghost v = out@;
    let mut pos: usize = from;
    while pos < to
        invariant
            from <= pos <= to,
            at + (to - from) <= usize::MAX,
            is_tidy(out@),
            end_of(out@) <= at + (pos - from),
            v == old(out)@,
            forall|i: int|
                0 <= i ==> #[trigger] style_of(out@, i) == if at <= i < at + (pos - from) {
                    restyled(style_of(spans@, from + (i - at)), c)
                } else {
                    style_of(v, i)
                },
        decreases to - pos,
    {
        let cut: usize = next_cut(spans, pos, to);
        let st = restyle(style_at(spans, pos), c);
        let ghost before = out@;
        push_run(out, at + (pos - from), at + (cut - from), st);
        proof {
            assert forall|i: int| 0 <= i implies #[trigger] style_of(out@, i) == if at <= i < at + (cut
                - from) {
                restyled(style_of(spans@, from + (i - at)), c)
            } else {
                style_of(v, i)
            } by {
                if at + (pos - from) <= i < at + (cut - from) {
                    let j = from + (i - at);
                    assert(style_of(spans@, j) == style_of(spans@, pos as int));
                } else {
                    assert(style_of(out@, i) == style_of(before, i));
                }
            }
        }
        pos = cut;
    }
}

/// The last byte that a span ends at.
fn far_end(spans: &[StyleSpan]) -> (r: usize)
    ensures
        forall|i: int| i >= r ==> #[trigger] style_of(spans@, i) == plain(),
{
    let mut r: usize = 0;
    let mut k: usize = 0;
    while k < spans.len()
        invariant
            k <= spans@.len(),
            forall|j: int| 0 <= j < k ==> (#[trigger] spans@[j]).end <= r,
        decreases spans.len() - k,
    {
        if spans[k].end > r {
            r = spans[k].end;
        }
        k += 1;
    }
    proof {
        assert forall|i: int| i >= r implies #[trigger] style_of(spans@, i) == plain() by {
            lemma_uncovered(spans@, i, 0);
        }
    }
    r
}

proof fn lemma_nothing(i: int)
    ensures
        style_of(Seq::<StyleSpan>::empty(), i) == plain(),
{
}

fn apply(spans: &[StyleSpan], s: usize, to: usize, c: Restyle) -> (r: Vec<StyleSpan>)
    ensures
        is_changed(r@, spans@, s as int, to as int, c),
{
    let e: usize = if to < s {
        s
    } else {
        to
    };
    let far: usize = far_end(spans);
    let mut out: Vec<StyleSpan> = Vec::new();
    copy_runs(&mut out, spans, 0, s, 0, Restyle::Keep);
    let ghost a = out@;
    copy_runs(&mut out, spans, s, e, s, c);
    let ghost b = out@;
    if far > e {
        copy_runs(&mut out, spans, e, far, e, Restyle::Keep);
    }
    proof {
        assert forall|i: int| 0 <= i < usize::MAX implies #[trigger] style_of(out@, i) == changed_at(
            spans@,
            s as int,
            to as int,
            c,
            i,
        ) by {
            lemma_nothing(i);
            assert(style_of(a, i) == if i < s { style_of(spans@, i) } else { plain() });
            assert(style_of(b, i) == if s <= i < e {
                restyled(style_of(spans@, i), c)
            } else {
                style_of(a, i)
            });
            assert(far > e ==> style_of(out@, i) == if e <= i < far {
                style_of(spans@, i)
            } else {
                style_of(b, i)
            });
        }
    }
    out
}

/// Whether the bytes from `s` to `e` all have a format.
fn all_with(spans: &[StyleSpan], s: usize, e: usize, f: Format) -> (r: bool)
    ensures
        r == all_have(spans@, s as int, e as int, f),
{
    let mut pos: usize = s;
    while pos < e
        invariant
            s <= pos,
            pos <= e || pos == s,
            forall|i: int| s <= i < pos ==> bears(#[trigger] style_of(spans@, i), f),
        decreases e - pos,
    {
        let st = style_at(spans, pos);
        if !f.get(&st) {
            return false;
        }
        let cut: usize = next_cut(spans, pos, e);
        pos = cut;
    }
    true
}

/// Whether the bytes from `s` to `e` all have highlight `h`.
fn all_with_highlight(spans: &[StyleSpan], s: usize, e: usize, h: Option<u32>) -> (r: bool)
    ensures
        r == all_lit(spans@, s as int, e as int, h),
{
    let mut pos: usize = s;
    while pos < e
        invariant
            s <= pos,
            pos <= e || pos == s,
            forall|i: int| s <= i < pos ==> (#[trigger] style_of(spans@, i)).highlight == h,
        decreases e - pos,
    {
        let st = style_at(spans, pos);
        if st.highlight != h {
            return false;
        }
        let cut: usize = next_cut(spans, pos, e);
        pos = cut;
    }
    true
}

/// Turns a format of the bytes from `s` to `e` on, or off where all have it.
pub fn toggle_format(spans: &[StyleSpan], s: usize, e: usize, f: Format) -> (r: Vec<StyleSpan>)
    ensures
        is_changed(
            r@,
            spans@,
            s as int,
            e as int,
            format_toggle(spans@, s as int, e as int, f),
        ),
        r@ == changed(spans@, s as int, e as int, format_toggle(spans@, s as int, e as int, f)),
{
    let on = !all_with(spans, s, e, f);
    let r = apply(spans, s, e, Restyle::Turn(f, on));
    proof {
        lemma_changed(r@, spans@, s as int, e as int, Restyle::Turn(f, on));
    }
    r
}

/// Highlights the bytes from `s` to `e`, or clears them where all have that
/// colour.
pub fn toggle_highlight(
    spans: &[StyleSpan],
    s: usize,
    e: usize,
    color: u32,
) -> (r: Vec<StyleSpan>)
    ensures
        is_changed(
            r@,
            spans@,
            s as int,
            e as int,
            highlight_toggle(spans@, s as int, e as int, color),
        ),
        r@ == changed(spans@, s as int, e as int, highlight_toggle(spans@, s as int, e as int, color)),
{
    let h = if all_with_highlight(spans, s, e, Some(color)) {
        None
    } else {
        Some(color)
    };
    let r = apply(spans, s, e, Restyle::Highlight(h));
    proof {
        lemma_changed(r@, spans@, s as int, e as int, Restyle::Highlight(h));
    }
    r
}

/// The style that the bytes from `s` to `e` share; for an empty range, that of
/// the byte on its left.
pub fn active_style(spans: &[StyleSpan], s: usize, e: usize) -> (r: RunStyle)
    ensures
        r == shared_style(spans@, s as int, e as int),
{
    if s < e {
        let first = style_at(spans, s);
        let highlight = if all_with_highlight(spans, s, e, first.highlight) {
            first.highlight
        } else {
            None
        };
        RunStyle {
            bold: all_with(spans, s, e, Format::Bold),
            italic: all_with(spans, s, e, Format::Italic),
            underline: all_with(spans, s, e, Format::Underline),
            strike: all_with(spans, s, e, Format::Strike),
            highlight,
        }
    } else if s > 0 {
        style_at(spans, s - 1)
    } else {
        style_at(spans, s)
    }
}

/// The styles once the bytes from `s` to `e` were replaced by `inserted` bytes
/// of style `style`.
pub fn splice_styles(
    spans: &[StyleSpan],
    s: usize,
    e: usize,
    inserted: usize,
    style: RunStyle,
) -> (r: Vec<StyleSpan>)
    requires
        s <= e,
        s + inserted <= usize::MAX,
    ensures
        is_spliced(r@, spans@, s as int, e as int, inserted as int, style),
        r@ == spliced(spans@, s as int, e as int, inserted as int, style),
{
    let far: usize = far_end(spans);
    let mut out: Vec<StyleSpan> = Vec::new();
    copy_runs(&mut out, spans, 0, s, 0, Restyle::Keep);
    let ghost a = out@;
    let at: usize = s + inserted;
    push_run(&mut out, s, at, style);
    let ghost b = out@;
    let mut to: usize = far;
    if far > e && far - e > usize::MAX - at {
        to = e + (usize::MAX - at);
    }
    if to > e {
        copy_runs(&mut out, spans, e, to, at, Restyle::Keep);
    }
    proof {
        assert forall|i: int| 0 <= i < usize::MAX implies #[trigger] style_of(out@, i) == spliced_at(
            spans@,
            s as int,
            e as int,
            inserted as int,
            style,
            i,
        ) by {
            lemma_nothing(i);
            assert(style_of(a, i) == if i < s { style_of(spans@, i) } else { plain() });
            assert(style_of(b, i) == if s <= i < at { style } else { style_of(a, i) });
            assert(to > e ==> style_of(out@, i) == if at <= i < at + (to - e) {
                style_of(spans@, e + (i - at))
            } else {
                style_of(b, i)
            });
        }
    }
    proof {
        lemma_spliced(out@, spans@, s as int, e as int, inserted as int, style);
    }
    out
}

/// Tidy spans are determined by the styles that they give: there is one way to
/// write each styling down.
pub proof fn law_one_way_to_write(a: Seq<StyleSpan>, b: Seq<StyleSpan>)
    requires
        is_tidy(a),
        is_tidy(b),
        forall|i: int| 0 <= i < usize::MAX ==> #[trigger] style_of(a, i) == style_of(b, i),
    ensures
        a == b,
    decreases a.len() + b.len(),
{
    if a.len() == 0 {
        if b.len() > 0 {
            assert(b[0].start < b[0].end);
            lemma_covered(b, b[0].start as int, 0, 0);
            lemma_nothing(b[0].start as int);
            assert(a =~= Seq::<StyleSpan>::empty());
            assert(style_of(a, b[0].start as int) == style_of(b, b[0].start as int));
        }
        assert(a =~= b);
    } else if b.len() == 0 {
        assert(a[0].start < a[0].end);
        lemma_covered(a, a[0].start as int, 0, 0);
        assert(b =~= Seq::<StyleSpan>::empty());
        lemma_nothing(a[0].start as int);
        assert(style_of(a, a[0].start as int) == style_of(b, a[0].start as int));
    } else {
        lemma_first_ends_late(a, b);
        lemma_first_ends_late(b, a);
        lemma_without_first(a);
        lemma_without_first(b);
        let p = a.drop_first();
        let q = b.drop_first();
        assert forall|i: int| 0 <= i < usize::MAX implies #[trigger] style_of(p, i) == style_of(q, i) by {
            assert(style_of(a, i) == style_of(b, i));
        }
        law_one_way_to_write(p, q);
        assert(a =~= seq![a[0]] + p);
        assert(b =~= seq![b[0]] + q);
    }
}

proof fn lemma_before_first(v: Seq<StyleSpan>, i: int)
    requires
        is_tidy(v),
        v.len() > 0,
        i < v[0].start,
    ensures
        style_of(v, i) == plain(),
{
    assert forall|k: int| 0 <= k < v.len() implies !covers(#[trigger] v[k], i) by {
        if k > 0 {
            assert(v[0].end <= v[k].start);
            assert(v[0].start < v[0].end);
        }
    }
    lemma_uncovered(v, i, 0);
}

/// The first span of `b` begins no later than that of `a`, has its style, and
/// ends no earlier.
proof fn lemma_first_ends_late(a: Seq<StyleSpan>, b: Seq<StyleSpan>)
    requires
        is_tidy(a),
        is_tidy(b),
        a.len() > 0,
        b.len() > 0,
        forall|i: int| 0 <= i < usize::MAX ==> #[trigger] style_of(a, i) == style_of(b, i),
    ensures
        b[0].start <= a[0].start,
        a[0].start == b[0].start ==> a[0].style == b[0].style && a[0].end <= b[0].end,
{
    let s = a[0].start as int;
    assert(a[0].start < a[0].end);
    assert(b[0].start < b[0].end);
    lemma_covered(a, s, 0, 0);
    assert(style_of(a, s) == style_of(b, s));
    if s < b[0].start {
        lemma_before_first(b, s);
    }
    if a[0].start == b[0].start {
        lemma_covered(b, s, 0, 0);
        if b[0].end < a[0].end {
            let e = b[0].end as int;
            lemma_covered(a, e, 0, 0);
            assert(style_of(a, e) == style_of(b, e));
            if b.len() > 1 && b[1].start == e {
                assert(b[1].start < b[1].end);
                assert(b[0].style != b[1].style);
                lemma_covered(b, e, 0, 1);
            } else {
                assert forall|k: int| 0 <= k < b.len() implies !covers(#[trigger] b[k], e) by {
                    if k == 1 {
                        assert(b[0].end <= b[1].start);
                    } else if k > 1 {
                        assert(b[1].end <= b[k].start);
                        assert(b[0].end <= b[1].start);
                        assert(b[1].start < b[1].end);
                    }
                }
                lemma_uncovered(b, e, 0);
            }
        }
    }
}

proof fn lemma_without_first(v: Seq<StyleSpan>)
    requires
        is_tidy(v),
        v.len() > 0,
    ensures
        is_tidy(v.drop_first()),
        forall|i: int|
            #[trigger] style_of(v.drop_first(), i) == if covers(v[0], i) {
                plain()
            } else {
                style_of(v, i)
            },
{
    let w = v.drop_first();
    assert forall|k: int| 0 <= k < w.len() implies (#[trigger] w[k]).start < w[k].end && w[k].style
        != plain() by {
        assert(w[k] == v[k + 1]);
    }
    assert forall|j: int, k: int|
        #![trigger w[j], w[k]]
        0 <= j < k < w.len() implies w[j].end <= w[k].start && (w[j].end == w[k].start ==> w[j].style
        != w[k].style) by {
        assert(w[j] == v[j + 1] && w[k] == v[k + 1]);
    }
    assert forall|i: int| #[trigger] style_of(w, i) == if covers(v[0], i) {
        plain()
    } else {
        style_of(v, i)
    } by {
        lemma_shift(v, i, 1);
        assert(v.subrange(1, v.len() as int) =~= w);
        if covers(v[0], i) {
            assert forall|k: int| 0 <= k < w.len() implies !covers(#[trigger] w[k], i) by {
                assert(w[k] == v[k + 1]);
                assert(v[0].end <= v[k + 1].start);
            }
            lemma_uncovered(w, i, 0);
        }
    }
}

proof fn lemma_shift(v: Seq<StyleSpan>, i: int, j: int)
    requires
        v.len() > 0,
        1 <= j,
    ensures
        style_from(v, i, j) == style_from(v.drop_first(), i, j - 1),
    decreases v.len() - j,
{
    if j < v.len() {
        assert(v.drop_first()[j - 1] == v[j]);
        lemma_shift(v, i, j + 1);
    }
}

/// Toggling a format twice gives back a range that has it throughout or nowhere.
pub proof fn law_toggle_twice(
    v: Seq<StyleSpan>,
    s: int,
    e: int,
    f: Format,
    once: Seq<StyleSpan>,
    twice: Seq<StyleSpan>,
)
    requires
        is_tidy(v),
        0 <= s < e <= usize::MAX,
        all_have(v, s, e, f) || forall|i: int| s <= i < e ==> !bears(#[trigger] style_of(v, i), f),
        is_changed(once, v, s, e, Restyle::Turn(f, !all_have(v, s, e, f))),
        is_changed(twice, once, s, e, Restyle::Turn(f, !all_have(once, s, e, f))),
    ensures
        twice == v,
{
    let on = all_have(v, s, e, f);
    assert forall|i: int| s <= i < e implies bears(#[trigger] style_of(once, i), f) == !on by {
        assert(style_of(once, i) == changed_at(v, s, e, Restyle::Turn(f, !on), i));
    }
    assert(bears(style_of(once, s), f) == !on);
    assert(bears(style_of(v, s), f) == on);
    assert forall|i: int| 0 <= i < usize::MAX implies #[trigger] style_of(twice, i) == style_of(v, i) by {
        assert(style_of(once, i) == changed_at(v, s, e, Restyle::Turn(f, !on), i));
        assert(style_of(twice, i) == changed_at(
            once,
            s,
            e,
            Restyle::Turn(f, !all_have(once, s, e, f)),
            i,
        ));
        if s <= i < e {
            assert(bears(style_of(v, i), f) == on);
        }
    }
    law_one_way_to_write(twice, v);
}

/// Text typed in and taken out again leaves the styles as they were.
pub proof fn law_typing_undone(
    v: Seq<StyleSpan>,
    s: int,
    n: int,
    st: RunStyle,
    other: RunStyle,
    typed: Seq<StyleSpan>,
    back: Seq<StyleSpan>,
)
    requires
        is_tidy(v),
        0 <= s,
        0 <= n,
        end_of(v) + n < usize::MAX,
        s + n < usize::MAX,
        is_spliced(typed, v, s, s, n, st),
        is_spliced(back, typed, s, s + n, 0, other),
    ensures
        back == v,
{
    assert forall|i: int| 0 <= i < usize::MAX implies #[trigger] style_of(back, i) == style_of(v, i) by {
        assert(style_of(back, i) == spliced_at(typed, s, s + n, 0, other, i));
        if i < s {
            assert(style_of(typed, i) == spliced_at(v, s, s, n, st, i));
        } else if i + n < usize::MAX {
            assert(style_of(typed, i + n) == spliced_at(v, s, s, n, st, i + n));
        } else {
            lemma_past_end(v, i);
            lemma_plain_tail(typed, v, s, n, st, i + n);
        }
    }
    law_one_way_to_write(back, v);
}

proof fn lemma_past_end(v: Seq<StyleSpan>, i: int)
    requires
        is_tidy(v),
        i >= end_of(v),
    ensures
        style_of(v, i) == plain(),
{
    assert forall|k: int| 0 <= k < v.len() implies !covers(#[trigger] v[k], i) by {
        let n = v.len() - 1;
        if k < n {
            assert(v[k].end <= v[n].start);
            assert(v[n].start < v[n].end);
        }
    }
    lemma_uncovered(v, i, 0);
}

proof fn lemma_plain_tail(
    typed: Seq<StyleSpan>,
    v: Seq<StyleSpan>,
    s: int,
    n: int,
    st: RunStyle,
    i: int,
)
    requires
        is_tidy(v),
        0 <= s,
        0 <= n,
        end_of(v) + n < usize::MAX,
        s + n < usize::MAX,
        is_spliced(typed, v, s, s, n, st),
        i >= usize::MAX,
    ensures
        style_of(typed, i) == plain(),
{
    if typed.len() > 0 {
        let k = typed.len() - 1;
        assert(typed[k].start < typed[k].end);
        lemma_past_end(typed, i);
    } else {
        lemma_past_end(typed, i);
    }
}

} // verus!
