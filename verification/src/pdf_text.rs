//! Text in PDF documents: reading text strings, and writing a literal into a
//! content stream.
use crate::pdf::{bytes_of, to_bytes};
use crate::text::{push_char, Text};
use vstd::prelude::*;
use vstd::utf8::{is_ascii_chars, is_ascii_chars_encode_utf8};

verus! {

/// Whether bytes begin with the mark of big-endian UTF-16.
pub open spec fn has_mark(b: Seq<u8>) -> bool {
    b.len() >= 2 && b[0] == 0xfe && b[1] == 0xff
}

/// The UTF-16 unit at `k` behind the mark.
pub open spec fn unit_at(b: Seq<u8>, k: int) -> int {
    b[2 + 2 * k] * 256 + b[3 + 2 * k]
}

/// How many whole units stand behind the mark.
pub open spec fn unit_count(b: Seq<u8>) -> int {
    (b.len() - 2) / 2
}

/// Whether a unit leads a surrogate pair.
pub open spec fn leads(u: int) -> bool {
    0xd800 <= u < 0xdc00
}

/// Whether a unit ends a surrogate pair.
pub open spec fn trails(u: int) -> bool {
    0xdc00 <= u < 0xe000
}

/// The character of a surrogate pair.
pub open spec fn paired(a: int, b: int) -> char {
    (0x10000 + (a - 0xd800) * 0x400 + (b - 0xdc00)) as char
}

/// The characters of the units from `k` on; a lone surrogate reads as U+FFFD.
pub open spec fn wide_from(b: Seq<u8>, k: int) -> Seq<char>
    decreases unit_count(b) - k,
{
    if k < 0 || k >= unit_count(b) {
        seq![]
    } else {
        let u = unit_at(b, k);
        if leads(u) && k + 1 < unit_count(b) && trails(unit_at(b, k + 1)) {
            seq![paired(u, unit_at(b, k + 1))] + wide_from(b, k + 2)
        } else if leads(u) || trails(u) {
            seq!['\u{fffd}'] + wide_from(b, k + 1)
        } else {
            seq![u as char] + wide_from(b, k + 1)
        }
    }
}

/// The text of a PDF text string: UTF-16 behind its mark, else one character
/// for each byte.
pub open spec fn decoded(b: Seq<u8>) -> Seq<char> {
    if has_mark(b) {
        wide_from(b, 0)
    } else {
        Seq::new(b.len(), |i: int| b[i] as char)
    }
}

/// The character of a number (`char::from_u32`).
#[verifier::external_body]
fn char_of(n: u32) -> (r: char)
    requires
        n < 0xd800 || 0xe000 <= n < 0x110000,
    ensures
        r as u32 == n,
{
    char::from_u32(n).unwrap()
}

/// Reads a PDF text string: UTF-16 with its mark, else Latin-1.
pub fn decode_pdf_string(bytes: &[u8]) -> (r: String)
    ensures
        r@ == decoded(bytes@),
{
    let n: usize = bytes.len();
    let mut out = String::new();
    if n >= 2 && bytes[0] == 0xfe && bytes[1] == 0xff {
        let count: usize = (n - 2) / 2;
        let mut k: usize = 0;
        assert(seq![] + wide_from(bytes@, 0) =~= wide_from(bytes@, 0));
        while k < count
            invariant
                n == bytes@.len(),
                n >= 2,
                count == unit_count(bytes@),
                k <= count,
                wide_from(bytes@, 0) == out@ + wide_from(bytes@, k as int),
            decreases count - k,
        {
            let ghost before = out@;
            let u: u32 = bytes[2 + 2 * k] as u32 * 256 + bytes[3 + 2 * k] as u32;
            assert(u == unit_at(bytes@, k as int));
            let mut step: usize = 1;
            let mut c: char = '\u{fffd}';
            if 0xd800 <= u && u < 0xe000 {
                if u < 0xdc00 && k + 1 < count {
                    let v: u32 = bytes[4 + 2 * k] as u32 * 256 + bytes[5 + 2 * k] as u32;
                    assert(v == unit_at(bytes@, k + 1));
                    if 0xdc00 <= v && v < 0xe000 {
                        c = char_of(0x10000 + (u - 0xd800) * 0x400 + (v - 0xdc00));
                        step = 2;
                    }
                }
            } else {
                c = char_of(u);
            }
            push_char(&mut out, c);
            assert(wide_from(bytes@, k as int) == seq![c] + wide_from(bytes@, k + step));
            assert(before + (seq![c] + wide_from(bytes@, k + step)) =~= out@ + wide_from(
                bytes@,
                k + step,
            ));
            k = k + step;
        }
        assert(out@ + Seq::<char>::empty() =~= out@);
        return out;
    }
    let mut i: usize = 0;
    while i < n
        invariant
            n == bytes@.len(),
            i <= n,
            out@ == Seq::new(i as nat, |j: int| bytes@[j] as char),
        decreases n - i,
    {
        let ghost before = out@;
        push_char(&mut out, bytes[i] as char);
        assert(out@ =~= Seq::new((i + 1) as nat, |j: int| bytes@[j] as char));
        i += 1;
    }
    out
}

// --- Writing text strings ---

/// The two bytes of a UTF-16 unit, the high one first.
pub open spec fn unit_bytes(u: int) -> Seq<u8> {
    seq![(u / 256) as u8, (u % 256) as u8]
}

/// A character in big-endian UTF-16.
pub open spec fn wide_char(c: char) -> Seq<u8> {
    let n = c as int;
    if n < 0x10000 {
        unit_bytes(n)
    } else {
        unit_bytes(0xd800 + (n - 0x10000) / 0x400) + unit_bytes(0xdc00 + (n - 0x10000) % 0x400)
    }
}

/// The characters of `s` from `i` on in big-endian UTF-16.
pub open spec fn wide_text(s: Seq<char>, i: int) -> Seq<u8>
    decreases s.len() - i,
{
    if i < 0 || i >= s.len() {
        seq![]
    } else {
        wide_char(s[i]) + wide_text(s, i + 1)
    }
}

/// A PDF text string: ASCII as it stands, anything else in UTF-16 behind its
/// mark.
pub open spec fn text_string(s: Seq<char>) -> Seq<u8> {
    if is_ascii_chars(s) {
        bytes_of(s)
    } else {
        seq![0xfeu8, 0xffu8] + wide_text(s, 0)
    }
}

proof fn lemma_char_range(c: char)
    ensures
        0 <= c as int <= 0x10ffff,
        c as int as char == c,
        c as u32 as int == c as int,
        c as u32 as int <= 0x7f <==> '\0' <= c <= '\u{7f}',
{
}

fn push_unit(out: &mut Vec<u8>, u: u32)
    requires
        u < 0x10000,
    ensures
        final(out)@ == old(out)@ + unit_bytes(u as int),
{
    let ghost before = out@;
    let hi: u32 = u / 256;
    let lo: u32 = u % 256;
    out.push(hi as u8);
    out.push(lo as u8);
    assert(out@ =~= before + unit_bytes(u as int));
}

fn all_ascii(s: &[char]) -> (r: bool)
    ensures
        r == is_ascii_chars(s@),
{
    let mut i: usize = 0;
    while i < s.len()
        invariant
            i <= s@.len(),
            forall|k: int| 0 <= k < i ==> '\0' <= #[trigger] s@[k] <= '\u{7f}',
        decreases s.len() - i,
    {
        let c: char = s[i];
        proof {
            lemma_char_range(c);
        }
        if c as u32 > 0x7f {
            assert(!('\0' <= s@[i as int] <= '\u{7f}'));
            return false;
        }
        i += 1;
    }
    true
}

/// Writes a PDF text string: ASCII as it stands, anything else in UTF-16 with
/// its mark, which every viewer reads.
pub fn encode_pdf_string(text: &str) -> (r: Vec<u8>)
    ensures
        r@ == text_string(text@),
{
    let t = Text::new(text);
    let s = t.chars.as_slice();
    if all_ascii(s) {
        return to_bytes(text);
    }
    let mut out: Vec<u8> = Vec::new();
    out.push(0xfe);
    out.push(0xff);
    assert(out@ =~= seq![0xfeu8, 0xffu8]);
    let mut i: usize = 0;
    while i < s.len()
        invariant
            s@ == text@,
            i <= s@.len(),
            seq![0xfeu8, 0xffu8] + wide_text(text@, 0) == out@ + wide_text(text@, i as int),
        decreases s.len() - i,
    {
        let ghost before = out@;
        let c: char = s[i];
        let n: u32 = c as u32;
        proof {
            lemma_char_range(c);
        }
        if n < 0x10000 {
            push_unit(&mut out, n);
        } else {
            push_unit(&mut out, 0xd800 + (n - 0x10000) / 0x400);
            push_unit(&mut out, 0xdc00 + (n - 0x10000) % 0x400);
        }
        assert(out@ =~= before + wide_char(text@[i as int]));
        assert(before + (wide_char(text@[i as int]) + wide_text(text@, i + 1)) =~= out@ + wide_text(
            text@,
            i + 1,
        ));
        i += 1;
    }
    assert(out@ + Seq::<u8>::empty() =~= out@);
    out
}

// --- Literals ---

/// The byte of a character in a literal: Latin-1, and `?` beyond it.
pub open spec fn narrow(c: char) -> u8 {
    if (c as u32) < 256 {
        c as u8
    } else {
        63
    }
}

/// The bytes of a character in a literal: backslash and brackets are escaped,
/// line breaks become spaces.
pub open spec fn escaped_char(c: char) -> Seq<u8> {
    let b = narrow(c);
    if b == 92 || b == 40 || b == 41 {
        seq![92u8, b]
    } else if b == 10 || b == 13 {
        seq![32u8]
    } else {
        seq![b]
    }
}

/// The bytes of the first `n` characters in a literal.
pub open spec fn escaped_upto(s: Seq<char>, n: int) -> Seq<u8>
    decreases n,
{
    if n <= 0 || n > s.len() {
        seq![]
    } else {
        escaped_upto(s, n - 1) + escaped_char(s[n - 1])
    }
}

/// Text as the inside of a `( … )` literal of a content stream.
pub fn escape_pdf_text(text: &str) -> (r: Vec<u8>)
    ensures
        r@ == escaped_upto(text@, text@.len() as int),
{
    let t = Text::new(text);
    let mut out: Vec<u8> = Vec::new();
    let mut i: usize = 0;
    while i < t.chars.len()
        invariant
            t.wf(),
            t@ == text@,
            i <= t.chars@.len(),
            out@ == escaped_upto(text@, i as int),
        decreases t.chars.len() - i,
    {
        let ghost before = out@;
        let c: char = t.chars[i];
        let b: u8 = if (c as u32) < 256 {
            c as u8
        } else {
            63
        };
        if b == 92 || b == 40 || b == 41 {
            out.push(92);
            out.push(b);
        } else if b == 10 || b == 13 {
            out.push(32);
        } else {
            out.push(b);
        }
        assert(out@ =~= before + escaped_char(text@[i as int]));
        i += 1;
    }
    out
}

// --- Laws ---

/// An ASCII text that is written as its bytes reads back.
pub proof fn law_ascii_reads_back(s: Seq<char>)
    requires
        is_ascii_chars(s),
    ensures
        decoded(bytes_of(s)) == s,
{
    is_ascii_chars_encode_utf8(s);
    let b = bytes_of(s);
    assert forall|i: int| 0 <= i < s.len() implies #[trigger] b[i] as char == s[i] && b[i] < 0x80 by {
        assert(s[i] as u8 == b[i]);
        assert('\0' <= s[i] <= '\u{7f}');
    }
    if b.len() >= 2 {
        assert(b[0] as char == s[0]);
    }
    assert(decoded(b) =~= s);
}

proof fn lemma_unit_reads_back(b: Seq<u8>, k: int, u: int)
    requires
        0 <= k,
        0 <= u < 0x10000,
        2 * k + 4 <= b.len(),
        b.subrange(2 * k + 2, 2 * k + 4) == unit_bytes(u),
    ensures
        unit_at(b, k) == u,
        k < unit_count(b),
{
    let p = b.subrange(2 * k + 2, 2 * k + 4);
    assert(p[0] == b[2 + 2 * k]);
    assert(p[1] == b[3 + 2 * k]);
    assert(u / 256 < 256);
}

proof fn lemma_wide_reads_back(s: Seq<char>, i: int, p: Seq<u8>, k: int)
    requires
        0 <= i <= s.len(),
        0 <= k,
        p.len() == 2 + 2 * k,
    ensures
        wide_from(p + wide_text(s, i), k) == s.skip(i),
    decreases s.len() - i,
{
    let b = p + wide_text(s, i);
    if i < s.len() {
        let c = s[i];
        let n = c as int;
        let w = wide_char(c);
        lemma_char_range(c);
        assert(b =~= p + w + wide_text(s, i + 1));
        if n < 0x10000 {
            assert(b.subrange(2 * k + 2, 2 * k + 4) =~= unit_bytes(n));
            lemma_unit_reads_back(b, k, n);
            lemma_wide_reads_back(s, i + 1, p + w, k + 1);
            assert(n as char == c);
            assert(wide_from(b, k) =~= seq![c] + s.skip(i + 1));
        } else {
            let hi = 0xd800 + (n - 0x10000) / 0x400;
            let lo = 0xdc00 + (n - 0x10000) % 0x400;
            assert(b.subrange(2 * k + 2, 2 * k + 4) =~= unit_bytes(hi));
            assert(b.subrange(2 * (k + 1) + 2, 2 * (k + 1) + 4) =~= unit_bytes(lo));
            lemma_unit_reads_back(b, k, hi);
            lemma_unit_reads_back(b, k + 1, lo);
            lemma_wide_reads_back(s, i + 1, p + w, k + 2);
            assert(paired(hi, lo) == c);
            assert(wide_from(b, k) =~= seq![c] + s.skip(i + 1));
        }
        assert(s.skip(i) =~= seq![c] + s.skip(i + 1));
    } else {
        assert(b.len() == 2 + 2 * k);
        assert(s.skip(i) =~= seq![]);
    }
}

/// Every text that is written as a text string reads back.
pub proof fn law_text_string_reads_back(s: Seq<char>)
    ensures
        decoded(text_string(s)) == s,
{
    if is_ascii_chars(s) {
        law_ascii_reads_back(s);
    } else {
        let mark = seq![0xfeu8, 0xffu8];
        lemma_wide_reads_back(s, 0, mark, 0);
        let b = text_string(s);
        assert(b[0] == 0xfe && b[1] == 0xff);
        assert(s.skip(0) =~= s);
    }
}

/// A literal holds no bare bracket, so it ends where it should: every bracket
/// and backslash that comes of the text stands behind a backslash.
pub proof fn law_literal_is_closed(c: char)
    ensures
        ({
            let e = escaped_char(c);
            ||| e.len() == 1 && e[0] != 40 && e[0] != 41 && e[0] != 92 && e[0] != 10 && e[0] != 13
            ||| e.len() == 2 && e[0] == 92 && (e[1] == 40 || e[1] == 41 || e[1] == 92)
        }),
{
}

} // verus!
