//! Numbers as they are shown: list markers and superscripts.
use crate::text::push_char;
use vstd::prelude::*;

verus! {

/// The decimal digits of `n`.
pub open spec fn decimal(n: nat) -> Seq<char>
    decreases n,
{
    if n < 10 {
        seq![digit_char(n)]
    } else {
        decimal(n / 10).push(digit_char(n % 10))
    }
}

/// The digit for `d` below ten.
pub open spec fn digit_char(d: nat) -> char {
    (('0' as u32 + d) as u32) as char
}

/// 1 is `a`, 26 is `z`, 27 is `aa` (bijective base 26); nothing for 0.
pub open spec fn letters_of(n: nat) -> Seq<char>
    decreases n,
{
    if n == 0 {
        seq![]
    } else {
        letters_of(((n - 1) / 26) as nat).push(letter_char(((n - 1) % 26) as nat))
    }
}

/// The letter for `d` below 26.
pub open spec fn letter_char(d: nat) -> char {
    (('a' as u32 + d) as u32) as char
}

/// `c` repeated.
pub open spec fn repeated(c: char, n: nat) -> Seq<char> {
    Seq::new(n, |i: int| c)
}

/// One decimal place in roman numerals, from the signs for one, five and ten.
pub open spec fn roman_place(d: nat, one: char, five: char, ten: char) -> Seq<char> {
    if d == 9 {
        seq![one, ten]
    } else if d >= 5 {
        seq![five] + repeated(one, (d - 5) as nat)
    } else if d == 4 {
        seq![one, five]
    } else {
        repeated(one, d)
    }
}

/// Lowercase roman numerals; nothing for 0.
pub open spec fn roman_of(n: nat) -> Seq<char> {
    repeated('m', n / 1000) + roman_place(n / 100 % 10, 'c', 'd', 'm') + roman_place(
        n / 10 % 10,
        'x',
        'l',
        'c',
    ) + roman_place(n % 10, 'i', 'v', 'x')
}

/// The marker of ordered item `n` at nesting `depth`: digits, letters, roman
/// numerals, and again from the start, each with a dot.
pub open spec fn marker_of(depth: nat, n: nat) -> Seq<char> {
    if depth % 3 == 0 {
        decimal(n).push('.')
    } else if depth % 3 == 1 {
        letters_of(n).push('.')
    } else {
        roman_of(n).push('.')
    }
}

/// The reverse of `v` as a string.
fn reversed(v: &Vec<char>) -> (r: String)
    ensures
        r@ == v@.reverse(),
{
    let mut out = String::new();
    let mut i: usize = v.len();
    while i > 0
        invariant
            i <= v@.len(),
            out@ == v@.reverse().take(v@.len() - i),
        decreases i,
    {
        i -= 1;
        push_char(&mut out, v[i]);
        assert(v@.reverse().take(v@.len() - i) =~= v@.reverse().take(v@.len() - i - 1).push(
            v@[i as int],
        ));
    }
    assert(v@.reverse().take(v@.len() as int) =~= v@.reverse());
    out
}

/// The decimal digits of `n`.
pub fn decimal_string(n: u64) -> (r: String)
    ensures
        r@ == decimal(n as nat),
{
    let mut back: Vec<char> = Vec::new();
    let mut m: u64 = n;
    while m >= 10
        invariant
            decimal(n as nat) == decimal(m as nat) + back@.reverse(),
        decreases m,
    {
        let d: u8 = (m % 10) as u8;
        let ghost before = back@;
        back.push((48u8 + d) as char);
        assert(back@.reverse() =~= seq![(48u8 + d) as char] + before.reverse());
        assert(decimal((m / 10) as nat).push(digit_char((m % 10) as nat)) + before.reverse()
            =~= decimal((m / 10) as nat) + back@.reverse());
        m = m / 10;
    }
    let d: u8 = m as u8;
    let ghost before = back@;
    back.push((48u8 + d) as char);
    assert(back@.reverse() =~= seq![(48u8 + d) as char] + before.reverse());
    reversed(&back)
}

/// 1 is `a`, 26 is `z`, 27 is `aa` (bijective base 26).
pub fn letters(n: u32) -> (r: String)
    ensures
        r@ == letters_of(n as nat),
{
    let mut back: Vec<char> = Vec::new();
    let mut m: u32 = n;
    assert(letters_of(n as nat) =~= letters_of(m as nat) + back@.reverse());
    while m > 0
        invariant
            letters_of(n as nat) == letters_of(m as nat) + back@.reverse(),
        decreases m,
    {
        m -= 1;
        let d: u8 = (m % 26) as u8;
        let ghost before = back@;
        back.push((97u8 + d) as char);
        assert(back@.reverse() =~= seq![(97u8 + d) as char] + before.reverse());
        assert(letters_of((m / 26) as nat).push(letter_char((m % 26) as nat)) + before.reverse()
            =~= letters_of((m / 26) as nat) + back@.reverse());
        m = m / 26;
    }
    assert(letters_of(0) + back@.reverse() =~= back@.reverse());
    reversed(&back)
}

fn push_many(out: &mut String, c: char, n: u32)
    ensures
        final(out)@ == old(out)@ + repeated(c, n as nat),
{
    let mut i: u32 = 0;
    let ghost before = out@;
    assert(before + repeated(c, 0) =~= before);
    while i < n
        invariant
            i <= n,
            out@ == before + repeated(c, i as nat),
        decreases n - i,
    {
        push_char(out, c);
        assert((before + repeated(c, i as nat)).push(c) =~= before + repeated(c, (i + 1) as nat));
        i += 1;
    }
}

fn push_place(out: &mut String, d: u32, one: char, five: char, ten: char)
    requires
        d < 10,
    ensures
        final(out)@ == old(out)@ + roman_place(d as nat, one, five, ten),
{
    let ghost before = out@;
    if d == 9 {
        push_char(out, one);
        push_char(out, ten);
    } else if d >= 5 {
        push_char(out, five);
        push_many(out, one, d - 5);
    } else if d == 4 {
        push_char(out, one);
        push_char(out, five);
    } else {
        push_many(out, one, d);
    }
    assert(out@ =~= before + roman_place(d as nat, one, five, ten));
}

/// Lowercase roman numerals (`0` has none; empty string).
pub fn roman(n: u32) -> (r: String)
    ensures
        r@ == roman_of(n as nat),
{
    let mut out = String::new();
    push_many(&mut out, 'm', n / 1000);
    push_place(&mut out, n / 100 % 10, 'c', 'd', 'm');
    push_place(&mut out, n / 10 % 10, 'x', 'l', 'c');
    push_place(&mut out, n % 10, 'i', 'v', 'x');
    assert(out@ =~= roman_of(n as nat));
    out
}

/// The marker for ordered item `n` (1-based) at nesting `depth`: `1.`, `a.`,
/// `i.`, cycling for deeper levels.
pub fn ordered_marker(depth: usize, n: u32) -> (r: String)
    ensures
        r@ == marker_of(depth as nat, n as nat),
{
    let mut out = if depth % 3 == 0 {
        decimal_string(n as u64)
    } else if depth % 3 == 1 {
        letters(n)
    } else {
        roman(n)
    };
    push_char(&mut out, '.');
    out
}

/// The superscript sign of a digit.
pub open spec fn superscript_char(c: char) -> char {
    if c == '0' {
        '⁰'
    } else if c == '1' {
        '¹'
    } else if c == '2' {
        '²'
    } else if c == '3' {
        '³'
    } else if c == '4' {
        '⁴'
    } else if c == '5' {
        '⁵'
    } else if c == '6' {
        '⁶'
    } else if c == '7' {
        '⁷'
    } else if c == '8' {
        '⁸'
    } else {
        '⁹'
    }
}

/// Superscript digits (`¹²…`) for a reference-count badge.
pub fn superscript(n: usize) -> (r: String)
    ensures
        r@ == decimal(n as nat).map_values(|c: char| superscript_char(c)),
{
    let plain = decimal_string(n as u64);
    let mut out = String::new();
    for c in it: plain.as_str().chars()
        invariant
            it.seq() == plain@,
            out@ == plain@.take(it.index()).map_values(|c: char| superscript_char(c)),
    {
        let up: char = match c {
            '0' => '⁰',
            '1' => '¹',
            '2' => '²',
            '3' => '³',
            '4' => '⁴',
            '5' => '⁵',
            '6' => '⁶',
            '7' => '⁷',
            '8' => '⁸',
            _ => '⁹',
        };
        let ghost k = it.index();
        push_char(&mut out, up);
        assert(plain@.take(k + 1).map_values(|c: char| superscript_char(c)) =~= plain@.take(
            k,
        ).map_values(|c: char| superscript_char(c)).push(superscript_char(c)));
    }
    assert(plain@.take(plain@.len() as int) =~= plain@);
    out
}

// --- Laws ---

/// The marker scheme repeats every three levels.
pub proof fn law_markers_cycle(depth: nat, n: nat)
    ensures
        marker_of(depth + 3, n) == marker_of(depth, n),
{
    assert((depth + 3) % 3 == depth % 3);
}

proof fn lemma_letters_len(n: nat)
    ensures
        n > 0 <==> letters_of(n).len() > 0,
{
}

/// Two items of one list never share a letter marker.
pub proof fn law_letters_tell_items_apart(a: nat, b: nat)
    requires
        letters_of(a) == letters_of(b),
    ensures
        a == b,
    decreases a,
{
    lemma_letters_len(a);
    lemma_letters_len(b);
    if a > 0 {
        let x = ((a - 1) / 26) as nat;
        let y = ((b - 1) / 26) as nat;
        assert(letters_of(a).drop_last() =~= letters_of(x));
        assert(letters_of(b).drop_last() =~= letters_of(y));
        law_letters_tell_items_apart(x, y);
        assert(letters_of(a).last() == letters_of(b).last());
        let c = ((a - 1) % 26) as nat;
        let d = ((b - 1) % 26) as nat;
        assert(letter_char(c) as u32 == 'a' as u32 + c);
        assert(letter_char(d) as u32 == 'a' as u32 + d);
        assert(letters_of(a).last() == letter_char(c));
        assert(letters_of(b).last() == letter_char(d));
        assert(a - 1 == 26 * x + c && b - 1 == 26 * y + d);
    }
}

} // verus!
