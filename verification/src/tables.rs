//! The marker comment above a table: its style and its column widths.
use crate::numbering;
use crate::numbering::decimal_string;
use crate::text;
use crate::text::{looks_at, part, push_char, same, space, to_string, trim_range, Text};
use vstd::prelude::*;

verus! {

/// Visual style of a table, chosen per table by a `<!-- table:STYLE -->`
/// comment on the line directly above it.
#[derive(Clone, Copy, PartialEq, Eq, Debug, Structural)]
pub enum TableStyle {
    /// Full outer box and all gridlines.
    Grid,
    /// Alternate body rows shaded; no gridlines; a rule under the header.
    Striped,
    /// Only the header row shaded; no gridlines.
    Header,
    /// No box or gridlines, just a rule under the header.
    Minimal,
}

impl Default for TableStyle {
    fn default() -> (r: Self)
        ensures
            r == TableStyle::Grid,
    {
        TableStyle::Grid
    }
}

/// The name of a style.
pub open spec fn style_name(style: TableStyle) -> Seq<char> {
    match style {
        TableStyle::Grid => "grid"@,
        TableStyle::Striped => "striped"@,
        TableStyle::Header => "header"@,
        TableStyle::Minimal => "minimal"@,
    }
}

/// The style of a name.
pub open spec fn style_named(name: Seq<char>) -> Option<TableStyle> {
    if name == "grid"@ {
        Some(TableStyle::Grid)
    } else if name == "striped"@ {
        Some(TableStyle::Striped)
    } else if name == "header"@ {
        Some(TableStyle::Header)
    } else if name == "minimal"@ {
        Some(TableStyle::Minimal)
    } else {
        None
    }
}

fn named(name: &[char]) -> (r: Option<TableStyle>)
    ensures
        r == style_named(name@),
{
    if same(name, "grid") {
        Some(TableStyle::Grid)
    } else if same(name, "striped") {
        Some(TableStyle::Striped)
    } else if same(name, "header") {
        Some(TableStyle::Header)
    } else if same(name, "minimal") {
        Some(TableStyle::Minimal)
    } else {
        None
    }
}

impl TableStyle {
    pub fn from_name(name: &str) -> (r: Option<Self>)
        ensures
            r == style_named(name@),
    {
        let t = Text::new(name);
        named(t.chars.as_slice())
    }
}

/// `s` without `p` at its start.
pub open spec fn without_prefix(s: Seq<char>, p: Seq<char>) -> Option<Seq<char>> {
    if text::begins(s, p) {
        Some(s.skip(p.len() as int))
    } else {
        None
    }
}

/// `s` without `p` at its end.
pub open spec fn without_suffix(s: Seq<char>, p: Seq<char>) -> Option<Seq<char>> {
    if text::ends(s, p) {
        Some(s.take(s.len() - p.len()))
    } else {
        None
    }
}

/// What a `<!-- table:… -->` comment holds behind `table:`.
pub open spec fn marker_body(s: Seq<char>) -> Option<Seq<char>> {
    match without_prefix(text::trim(s), "<!--"@) {
        Some(a) => match without_suffix(a, "-->"@) {
            Some(b) => match without_prefix(text::trim(b), "table:"@) {
                Some(c) => Some(text::trim(c)),
                None => None,
            },
            None => None,
        },
        None => None,
    }
}

fn trimmed(s: &[char]) -> (r: &[char])
    ensures
        r@ == text::trim(s@),
{
    let (a, b) = trim_range(s);
    part(s, a, b)
}

fn find_body(s: &[char]) -> (r: Option<&[char]>)
    ensures
        r is Some == marker_body(s@) is Some,
        r is Some ==> r->0@ == marker_body(s@)->0,
{
    proof {
        reveal_strlit("<!--");
        reveal_strlit("-->");
        reveal_strlit("table:");
    }
    let t = trimmed(s);
    let n: usize = t.len();
    if !looks_at(t, 0, "<!--") {
        return None;
    }
    let a = part(t, 4, n);
    assert(a@ =~= t@.skip(4));
    let m: usize = a.len();
    if m < 3 || !looks_at(a, m - 3, "-->") {
        return None;
    }
    let b = part(a, 0, m - 3);
    assert(b@ =~= a@.take(m - 3));
    let c = trimmed(b);
    let k: usize = c.len();
    if !looks_at(c, 0, "table:") {
        return None;
    }
    let d = part(c, 6, k);
    assert(d@ =~= c@.skip(6));
    Some(trimmed(d))
}

/// The first character at or after `i` that is whitespace.
pub open spec fn token_end(s: Seq<char>, i: int) -> int
    decreases s.len() - i,
{
    if 0 <= i < s.len() && !text::is_space(s[i]) {
        token_end(s, i + 1)
    } else {
        i
    }
}

/// The first word of `s`, or nothing.
pub open spec fn first_token(s: Seq<char>) -> Seq<char> {
    let i = text::space_end(s, 0);
    s.subrange(i, token_end(s, i))
}

fn skip_token(s: &[char], i: usize) -> (r: usize)
    requires
        i <= s@.len(),
    ensures
        r as int == token_end(s@, i as int),
        i <= r <= s@.len(),
{
    let mut j: usize = i;
    while j < s.len() && !space(s[j])
        invariant
            i <= j <= s@.len(),
            token_end(s@, i as int) == token_end(s@, j as int),
        decreases s.len() - j,
    {
        j += 1;
    }
    j
}

/// The style that a marker names with its first word.
pub open spec fn marker_style(s: Seq<char>) -> Option<TableStyle> {
    match marker_body(s) {
        Some(body) => style_named(first_token(body)),
        None => None,
    }
}

/// Parses a `<!-- table:STYLE -->` marker (a whole line or a comment's value)
/// into its [`TableStyle`]. `None` for anything unrecognised, so an unknown
/// marker stays a plain comment.
pub fn table_style_marker(text: &str) -> (r: Option<TableStyle>)
    ensures
        r == marker_style(text@),
{
    let t = Text::new(text);
    match find_body(t.chars.as_slice()) {
        Some(body) => {
            let i: usize = text::skip_space(body, 0);
            let j: usize = skip_token(body, i);
            named(part(body, i, j))
        },
        None => None,
    }
}

// --- Column widths ---

/// The first word at or after `i` that begins with `cols=`, without it.
pub open spec fn cols_from(s: Seq<char>, i: int) -> Option<Seq<char>>
    decreases s.len() - i,
{
    if i < 0 || i > s.len() {
        None
    } else {
        let a = text::space_end(s, i);
        let b = token_end(s, a);
        proof {
            text::lemma_space_end(s, i);
            lemma_token_end(s, a);
        }
        if a == s.len() {
            None
        } else if text::begins(s.subrange(a, b), "cols="@) {
            Some(s.subrange(a + 5, b))
        } else {
            cols_from(s, b)
        }
    }
}

/// A word ends inside the text, and takes at least one character where it
/// begins with no whitespace.
pub proof fn lemma_token_end(s: Seq<char>, i: int)
    requires
        0 <= i <= s.len(),
    ensures
        i <= token_end(s, i) <= s.len(),
        i < s.len() && !text::is_space(s[i]) ==> i < token_end(s, i),
    decreases s.len() - i,
{
    if i < s.len() && !text::is_space(s[i]) {
        lemma_token_end(s, i + 1);
    }
}

/// The parts of `s` between commas, each trimmed, from character `i` on.
pub open spec fn fields_from(s: Seq<char>, i: int) -> Seq<Seq<char>>
    decreases s.len() - i,
{
    if i < 0 || i > s.len() {
        seq![]
    } else {
        proof {
            text::lemma_index_of(s, ',', i);
        }
        match text::index_of(s, ',', i) {
            Some(e) => seq![text::trim(s.subrange(i, e))] + fields_from(s, e + 1),
            None => seq![text::trim(s.skip(i))],
        }
    }
}

/// The width fields of a table marker's `cols=` attribute.
pub open spec fn width_fields(s: Seq<char>) -> Option<Seq<Seq<char>>> {
    match marker_body(s) {
        Some(body) => match cols_from(body, 0) {
            Some(list) => Some(fields_from(list, 0)),
            None => None,
        },
        None => None,
    }
}

/// The fields of a table marker's `cols=` attribute, as written:
/// `<!-- table:grid cols=120,80,200 -->`. `None` when there is no such
/// attribute. Reading the fields as numbers is left to the caller.
pub fn table_col_widths(text: &str) -> (r: Option<Vec<String>>)
    ensures
        r is Some == width_fields(text@) is Some,
        r is Some ==> text::views(r->0@) == width_fields(text@)->0,
{
    let t = Text::new(text);
    let body = match find_body(t.chars.as_slice()) {
        Some(body) => body,
        None => {
            return None;
        },
    };
    proof {
        reveal_strlit("cols=");
    }
    let mut i: usize = 0;
    let n: usize = body.len();
    loop
        invariant
            i <= n == body@.len(),
            "cols="@.len() == 5,
            marker_body(text@) == Some(body@),
            cols_from(body@, 0) == cols_from(body@, i as int),
        decreases n - i,
    {
        let a: usize = text::skip_space(body, i);
        if a >= n {
            return None;
        }
        let b: usize = skip_token(body, a);
        proof {
            text::lemma_space_end(body@, i as int);
            lemma_token_end(body@, a as int);
        }
        let word = part(body, a, b);
        if looks_at(word, 0, "cols=") {
            let list = part(body, a + 5, b);
            return Some(split_fields(list));
        }
        i = b;
    }
}

fn split_fields(s: &[char]) -> (r: Vec<String>)
    ensures
        text::views(r@) == fields_from(s@, 0),
{
    let mut out: Vec<String> = Vec::new();
    let mut i: usize = 0;
    let n: usize = s.len();
    assert(text::views(out@) =~= seq![]);
    assert(seq![] + fields_from(s@, 0) =~= fields_from(s@, 0));
    loop
        invariant
            i <= n == s@.len(),
            text::views(out@) + fields_from(s@, i as int) == fields_from(s@, 0),
        decreases n - i,
    {
        let ghost acc = text::views(out@);
        match text::find_char(s, ',', i) {
            Some(e) => {
                let field = trimmed(part(s, i, e));
                out.push(to_string(field));
                assert(text::views(out@) =~= acc.push(field@));
                assert(acc + (seq![field@] + fields_from(s@, e + 1)) =~= acc.push(field@)
                    + fields_from(s@, e + 1));
                i = e + 1;
            },
            None => {
                let tail = part(s, i, n);
                assert(tail@ =~= s@.skip(i as int));
                let field = trimmed(tail);
                out.push(to_string(field));
                assert(text::views(out@) =~= acc + seq![field@]);
                return out;
            },
        }
    }
}

// --- Writing a marker ---

/// A whole number as it is written.
pub open spec fn integer(n: int) -> Seq<char> {
    if n < 0 {
        seq!['-'] + numbering::decimal((-n) as nat)
    } else {
        numbering::decimal(n as nat)
    }
}

/// Numbers with a comma between each two.
pub open spec fn number_list(w: Seq<i64>) -> Seq<char>
    decreases w.len(),
{
    if w.len() == 0 {
        seq![]
    } else if w.len() == 1 {
        integer(w[0] as int)
    } else {
        number_list(w.drop_last()) + seq![','] + integer(w.last() as int)
    }
}

/// The marker of a style with column widths. The default says nothing, so it
/// has no marker.
pub open spec fn marker_line(style: TableStyle, widths: Seq<i64>) -> Option<Seq<char>> {
    if widths.len() > 0 {
        Some("<!-- table:"@ + style_name(style) + " cols="@ + number_list(widths) + " -->"@)
    } else if style != TableStyle::Grid {
        Some("<!-- table:"@ + style_name(style) + " -->"@)
    } else {
        None
    }
}

fn push_integer(out: &mut String, n: i64)
    ensures
        final(out)@ == old(out)@ + integer(n as int),
{
    let ghost before = out@;
    if n < 0 {
        push_char(out, '-');
        let m: u64 = if n == i64::MIN {
            0x8000_0000_0000_0000
        } else {
            (-n) as u64
        };
        let digits = decimal_string(m);
        out.append(digits.as_str());
        assert(out@ =~= before + integer(n as int));
    } else {
        let digits = decimal_string(n as u64);
        out.append(digits.as_str());
    }
}

/// A table marker line for `style` with explicit column widths, if any: the
/// inverse of the parsers above. `None` when the marker would say nothing
/// (`Grid`, no widths).
pub fn table_marker_text(style: TableStyle, widths: &[i64]) -> (r: Option<String>)
    ensures
        r is Some == marker_line(style, widths@) is Some,
        r is Some ==> r->0@ == marker_line(style, widths@)->0,
{
    if widths.len() == 0 && style == TableStyle::Grid {
        return None;
    }
    let mut out = String::new();
    out.append("<!-- table:");
    match style {
        TableStyle::Grid => out.append("grid"),
        TableStyle::Striped => out.append("striped"),
        TableStyle::Header => out.append("header"),
        TableStyle::Minimal => out.append("minimal"),
    }
    assert(out@ =~= "<!-- table:"@ + style_name(style));
    if widths.len() > 0 {
        out.append(" cols=");
        let ghost head = out@;
        let mut i: usize = 0;
        assert(head + number_list(widths@.take(0)) =~= head);
        while i < widths.len()
            invariant
                i <= widths@.len(),
                out@ == head + number_list(widths@.take(i as int)),
            decreases widths.len() - i,
        {
            if i > 0 {
                push_char(&mut out, ',');
            }
            push_integer(&mut out, widths[i]);
            assert(widths@.take(i + 1).drop_last() =~= widths@.take(i as int));
            assert(out@ =~= head + number_list(widths@.take(i + 1)));
            i += 1;
        }
        assert(widths@.take(widths@.len() as int) =~= widths@);
    }
    out.append(" -->");
    Some(out)
}

// --- Laws ---

/// Every style has a name of its own.
pub proof fn law_style_names(style: TableStyle)
    ensures
        style_named(style_name(style)) == Some(style),
{
    reveal_strlit("grid");
    reveal_strlit("striped");
    reveal_strlit("header");
    reveal_strlit("minimal");
    assert("grid"@[0] == 'g');
    assert("striped"@[0] == 's');
    assert("header"@[0] == 'h');
    assert("minimal"@[0] == 'm');
}

proof fn lemma_token_at(s: Seq<char>, i: int, j: int)
    requires
        0 <= i <= j <= s.len(),
        forall|k: int| i <= k < j ==> !text::is_space(#[trigger] s[k]),
        j == s.len() || text::is_space(s[j]),
    ensures
        token_end(s, i) == j,
    decreases j - i,
{
    if i < j {
        lemma_token_at(s, i + 1, j);
    }
}

/// Whether `s` holds neither whitespace nor a comma.
spec fn plain(s: Seq<char>) -> bool {
    forall|k: int| 0 <= k < s.len() ==> !text::is_space(#[trigger] s[k]) && s[k] != ','
}

proof fn lemma_decimal_plain(n: nat)
    ensures
        plain(numbering::decimal(n)),
        numbering::decimal(n).len() > 0,
    decreases n,
{
    if n >= 10 {
        lemma_decimal_plain(n / 10);
        assert(numbering::digit_char(n % 10) as u32 == '0' as u32 + n % 10);
    } else {
        assert(numbering::digit_char(n) as u32 == '0' as u32 + n);
    }
}

proof fn lemma_integer_plain(n: int)
    ensures
        plain(integer(n)),
        integer(n).len() > 0,
{
    if n < 0 {
        lemma_decimal_plain((-n) as nat);
    } else {
        lemma_decimal_plain(n as nat);
    }
}

proof fn lemma_list_no_space(w: Seq<i64>)
    ensures
        forall|k: int|
            0 <= k < number_list(w).len() ==> !text::is_space(#[trigger] number_list(w)[k]),
        w.len() > 0 ==> number_list(w).len() > 0,
    decreases w.len(),
{
    if w.len() == 1 {
        lemma_integer_plain(w[0] as int);
    } else if w.len() > 1 {
        lemma_list_no_space(w.drop_last());
        lemma_integer_plain(w.last() as int);
    }
}

proof fn lemma_index_shift(s: Seq<char>, c: char, k: int, i: int)
    requires
        0 <= k <= s.len(),
        0 <= i,
    ensures
        text::index_of(s, c, k + i) == match text::index_of(s.skip(k), c, i) {
            Some(e) => Some(e + k),
            None => None,
        },
    decreases s.len() - k - i,
{
    if k + i < s.len() {
        assert(s.skip(k)[i] == s[k + i]);
        lemma_index_shift(s, c, k, i + 1);
    }
}

proof fn lemma_fields_shift(s: Seq<char>, k: int, i: int)
    requires
        0 <= k <= s.len(),
        0 <= i <= s.len() - k,
    ensures
        fields_from(s, k + i) == fields_from(s.skip(k), i),
    decreases s.len() - k - i,
{
    let t = s.skip(k);
    lemma_index_shift(s, ',', k, i);
    text::lemma_index_of(t, ',', i);
    match text::index_of(t, ',', i) {
        Some(e) => {
            lemma_fields_shift(s, k, e + 1);
            assert(s.subrange(k + i, e + k) =~= t.subrange(i, e));
        },
        None => {
            assert(s.skip(k + i) =~= t.skip(i));
        },
    }
}

proof fn lemma_index_before(a: Seq<char>, rest: Seq<char>, c: char, i: int)
    requires
        0 <= i <= a.len(),
        rest.len() > 0,
        rest[0] == c,
    ensures
        text::index_of(a + rest, c, i) == match text::index_of(a, c, i) {
            Some(e) => Some(e),
            None => Some(a.len() as int),
        },
    decreases a.len() - i,
{
    if i < a.len() {
        assert((a + rest)[i] == a[i]);
        lemma_index_before(a, rest, c, i + 1);
    } else {
        assert((a + rest)[i] == c);
    }
}

proof fn lemma_fields_concat(a: Seq<char>, b: Seq<char>, i: int)
    requires
        0 <= i <= a.len(),
    ensures
        fields_from(a + seq![','] + b, i) == fields_from(a, i) + fields_from(b, 0),
    decreases a.len() - i,
{
    let s = a + seq![','] + b;
    assert(s =~= a + (seq![','] + b));
    lemma_index_before(a, seq![','] + b, ',', i);
    text::lemma_index_of(a, ',', i);
    match text::index_of(a, ',', i) {
        Some(e) => {
            lemma_fields_concat(a, b, e + 1);
            assert(s.subrange(i, e) =~= a.subrange(i, e));
            assert(fields_from(s, i) =~= fields_from(a, i) + fields_from(b, 0));
        },
        None => {
            assert(s.subrange(i, a.len() as int) =~= a.skip(i));
            assert(s.skip(a.len() + 1int) =~= b);
            lemma_fields_shift(s, a.len() + 1int, 0);
        },
    }
}

proof fn lemma_fields_plain(s: Seq<char>)
    requires
        plain(s),
        s.len() > 0,
    ensures
        fields_from(s, 0) == seq![s],
{
    text::lemma_index_of(s, ',', 0);
    assert(s.skip(0) =~= s);
    text::lemma_trim_between(s, 0, s.len() as int);
    assert(s.subrange(0, s.len() as int) =~= s);
}

proof fn lemma_fields_of_list(w: Seq<i64>)
    requires
        w.len() > 0,
    ensures
        fields_from(number_list(w), 0) == w.map_values(|n: i64| integer(n as int)),
    decreases w.len(),
{
    let f = |n: i64| integer(n as int);
    lemma_integer_plain(w.last() as int);
    lemma_fields_plain(integer(w.last() as int));
    if w.len() == 1 {
        assert(w.map_values(f) =~= seq![integer(w[0] as int)]);
    } else {
        lemma_fields_of_list(w.drop_last());
        lemma_fields_concat(number_list(w.drop_last()), integer(w.last() as int), 0);
        assert(w.map_values(f) =~= w.drop_last().map_values(f) + seq![integer(w.last() as int)]);
    }
}

proof fn lemma_style_name(style: TableStyle)
    ensures
        style_name(style).len() > 0,
        style_name(style)[0] != 'c',
        forall|k: int|
            0 <= k < style_name(style).len() ==> !text::is_space(#[trigger] style_name(style)[k]),
{
    reveal_strlit("grid");
    reveal_strlit("striped");
    reveal_strlit("header");
    reveal_strlit("minimal");
    match style {
        TableStyle::Grid => {
            assert("grid"@ =~= seq!['g', 'r', 'i', 'd']);
        },
        TableStyle::Striped => {
            assert("striped"@ =~= seq!['s', 't', 'r', 'i', 'p', 'e', 'd']);
        },
        TableStyle::Header => {
            assert("header"@ =~= seq!['h', 'e', 'a', 'd', 'e', 'r']);
        },
        TableStyle::Minimal => {
            assert("minimal"@ =~= seq!['m', 'i', 'n', 'i', 'm', 'a', 'l']);
        },
    }
}

/// The body of a comment that was put together from one.
proof fn lemma_body_of(body: Seq<char>)
    requires
        body.len() > 0,
        !text::is_space(body[0]),
        !text::is_space(body.last()),
    ensures
        marker_body("<!-- table:"@ + body + " -->"@) == Some(body),
{
    reveal_strlit("<!-- table:");
    reveal_strlit(" -->");
    reveal_strlit("<!--");
    reveal_strlit("-->");
    reveal_strlit("table:");
    let head = "<!-- table:"@;
    let s = head + body + " -->"@;
    let n = s.len() as int;
    text::lemma_trim_between(s, 0, n);
    assert(s.subrange(0, n) =~= s);
    assert(s.subrange(0, 4) =~= "<!--"@);
    let a = s.skip(4);
    assert(a.subrange(a.len() - 3, a.len() as int) =~= "-->"@);
    let b = a.take(a.len() - 3);
    let m = b.len() as int;
    assert(b[0] == ' ' && b[m - 1] == ' ');
    assert(b[1] == 't');
    assert(b[m - 2] == body.last());
    text::lemma_trim_between(b, 1, m - 1);
    let c = b.subrange(1, m - 1);
    assert(c.subrange(0, 6) =~= "table:"@);
    let d = c.skip(6);
    assert(d =~= body);
    text::lemma_trim_between(d, 0, d.len() as int);
    assert(d.subrange(0, d.len() as int) =~= d);
}

/// What a marker line says is read back from it: the style, and the widths as
/// they were written.
pub proof fn law_marker_reads_back(style: TableStyle, widths: Seq<i64>)
    requires
        marker_line(style, widths) is Some,
    ensures
        marker_style(marker_line(style, widths)->0) == Some(style),
        width_fields(marker_line(style, widths)->0) == if widths.len() > 0 {
            Some(widths.map_values(|n: i64| integer(n as int)))
        } else {
            None
        },
{
    let name = style_name(style);
    law_style_names(style);
    lemma_style_name(style);
    let k = name.len() as int;
    reveal_strlit("cols=");
    reveal_strlit(" cols=");
    if widths.len() == 0 {
        assert("<!-- table:"@ + name + " -->"@ =~= marker_line(style, widths)->0);
        lemma_body_of(name);
        text::lemma_space_end_at(name, 0, 0);
        lemma_token_at(name, 0, k);
        assert(name.subrange(0, k) =~= name);
        assert(!text::begins(name, "cols="@)) by {
            if text::begins(name, "cols="@) {
                assert(name.subrange(0, 5)[0] == "cols="@[0]);
            }
        }
        text::lemma_space_end_at(name, k, k);
        assert(cols_from(name, k) is None);
        assert(cols_from(name, 0) is None);
    } else {
        let list = number_list(widths);
        lemma_list_no_space(widths);
        lemma_fields_of_list(widths);
        let body = name + " cols="@ + list;
        assert("<!-- table:"@ + body + " -->"@ =~= marker_line(style, widths)->0);
        let n = body.len() as int;
        assert(body[0] == name[0]);
        assert(body.last() == list.last());
        lemma_body_of(body);
        text::lemma_space_end_at(body, 0, 0);
        assert forall|j: int| 0 <= j < k implies !text::is_space(#[trigger] body[j]) by {
            assert(body[j] == name[j]);
        }
        assert(body[k] == ' ');
        lemma_token_at(body, 0, k);
        assert(body.subrange(0, k) =~= name);
        assert(!text::begins(name, "cols="@)) by {
            if text::begins(name, "cols="@) {
                assert(name.subrange(0, 5)[0] == "cols="@[0]);
            }
        }
        assert(body[k + 1] == 'c');
        text::lemma_space_end_at(body, k, k + 1);
        assert forall|j: int| k + 1 <= j < n implies !text::is_space(#[trigger] body[j]) by {
            if j < k + 6 {
                assert(body[j] == " cols="@[j - k]);
            } else {
                assert(body[j] == list[j - k - 6]);
            }
        }
        lemma_token_at(body, k + 1, n);
        let word = body.subrange(k + 1, n);
        assert(word.subrange(0, 5) =~= "cols="@);
        assert(body.subrange(k + 6, n) =~= list);
        assert(cols_from(body, k) == Some(list));
        assert(cols_from(body, 0) == Some(list));
    }
}

} // verus!
