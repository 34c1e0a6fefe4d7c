//! List numbers read back: the value of what a marker writes is the number it
//! was made for.
use crate::lists::{lemma_decimal_reads_back, number_of};
use crate::numbering::{
    decimal, digit_char, letter_char, letters_of, marker_of, repeated, roman_of, roman_place,
    superscript_char,
};
use vstd::prelude::*;

verus! {

/// The number that letters write: `a` is 1, `z` is 26, `aa` is 27.
pub open spec fn letters_value(s: Seq<char>) -> nat
    decreases s.len(),
{
    if s.len() == 0 {
        0
    } else {
        letters_value(s.drop_last()) * 26 + (s.last() as u32 - 'a' as u32 + 1) as nat
    }
}

/// The value of a roman sign.
pub open spec fn sign_value(c: char) -> int {
    if c == 'i' {
        1
    } else if c == 'v' {
        5
    } else if c == 'x' {
        10
    } else if c == 'l' {
        50
    } else if c == 'c' {
        100
    } else if c == 'd' {
        500
    } else if c == 'm' {
        1000
    } else {
        0
    }
}

/// The number that roman signs write: a sign before a greater one counts
/// against it.
pub open spec fn roman_value(s: Seq<char>) -> int
    decreases s.len(),
{
    if s.len() == 0 {
        0
    } else if s.len() > 1 && sign_value(s[1]) > sign_value(s[0]) {
        roman_value(s.skip(1)) - sign_value(s[0])
    } else {
        roman_value(s.skip(1)) + sign_value(s[0])
    }
}

/// Letters are small, and read back as the number they were made for.
pub proof fn law_letters_read_back(n: nat)
    ensures
        letters_value(letters_of(n)) == n,
        forall|k: int|
            0 <= k < letters_of(n).len() ==> 'a' <= #[trigger] letters_of(n)[k] <= 'z',
    decreases n,
{
    if n > 0 {
        let x = ((n - 1) / 26) as nat;
        let d = ((n - 1) % 26) as nat;
        let s = letters_of(n);
        law_letters_read_back(x);
        assert(s.drop_last() =~= letters_of(x));
        assert(s.last() == letter_char(d));
        assert(letter_char(d) as u32 == 'a' as u32 + d);
        assert(n - 1 == 26 * x + d);
        assert forall|k: int| 0 <= k < s.len() implies 'a' <= #[trigger] s[k] <= 'z' by {
            if k < s.len() - 1 {
                assert(s[k] == letters_of(x)[k]);
            }
        }
    }
}

proof fn lemma_first(c: char, rest: Seq<char>)
    requires
        rest.len() == 0 || sign_value(rest[0]) <= sign_value(c),
    ensures
        roman_value(seq![c] + rest) == sign_value(c) + roman_value(rest),
{
    let s = seq![c] + rest;
    assert(s.skip(1) =~= rest);
    if rest.len() > 0 {
        assert(s[1] == rest[0]);
    }
}

proof fn lemma_before(c: char, d: char, rest: Seq<char>)
    requires
        sign_value(c) < sign_value(d),
        rest.len() == 0 || sign_value(rest[0]) <= sign_value(d),
    ensures
        roman_value(seq![c, d] + rest) == sign_value(d) - sign_value(c) + roman_value(rest),
{
    let s = seq![c, d] + rest;
    assert(s.skip(1) =~= seq![d] + rest);
    lemma_first(d, rest);
}

proof fn lemma_repeated(c: char, n: nat, rest: Seq<char>)
    requires
        rest.len() == 0 || sign_value(rest[0]) <= sign_value(c),
    ensures
        roman_value(repeated(c, n) + rest) == n * sign_value(c) + roman_value(rest),
        n > 0 ==> (repeated(c, n) + rest)[0] == c,
    decreases n,
{
    let v = sign_value(c);
    if n > 0 {
        let m = (n - 1) as nat;
        lemma_repeated(c, m, rest);
        let t = repeated(c, m) + rest;
        assert(repeated(c, n) + rest =~= seq![c] + t);
        if m == 0 {
            assert(t =~= rest);
        }
        lemma_first(c, t);
        assert(n * v == m * v + v) by (nonlinear_arith)
            requires
                n == m + 1,
        ;
    } else {
        assert(repeated(c, n) + rest =~= rest);
        assert(0 * v == 0);
    }
}

/// One place of a roman number.
proof fn lemma_place(d: nat, one: char, five: char, ten: char, v: int, rest: Seq<char>)
    requires
        d < 10,
        sign_value(one) == v,
        sign_value(five) == 5 * v,
        sign_value(ten) == 10 * v,
        v > 0,
        rest.len() == 0 || sign_value(rest[0]) < v,
    ensures
        ({
            let s = roman_place(d, one, five, ten) + rest;
            &&& roman_value(s) == d * v + roman_value(rest)
            &&& s.len() == 0 || sign_value(s[0]) <= 5 * v
        }),
{
    let s = roman_place(d, one, five, ten) + rest;
    if d == 9 {
        lemma_before(one, ten, rest);
        assert(9 * v == 10 * v - v);
    } else if d >= 5 {
        let m = (d - 5) as nat;
        lemma_repeated(one, m, rest);
        let t = repeated(one, m) + rest;
        assert(s =~= seq![five] + t);
        if m == 0 {
            assert(t =~= rest);
        }
        lemma_first(five, t);
        assert(d * v == 5 * v + m * v) by (nonlinear_arith)
            requires
                d == m + 5,
        ;
    } else if d == 4 {
        lemma_before(one, five, rest);
    } else {
        lemma_repeated(one, d, rest);
        if d == 0 {
            assert(s =~= rest);
        }
    }
}

proof fn lemma_places(m: nat, h: nat, t: nat, u: nat)
    requires
        h < 10,
        t < 10,
        u < 10,
    ensures
        roman_value(
            repeated('m', m) + roman_place(h, 'c', 'd', 'm') + roman_place(t, 'x', 'l', 'c')
                + roman_place(u, 'i', 'v', 'x'),
        ) == m * 1000 + h * 100 + t * 10 + u,
{
    let e = Seq::<char>::empty();
    let units = roman_place(u, 'i', 'v', 'x');
    let tens = roman_place(t, 'x', 'l', 'c');
    let hundreds = roman_place(h, 'c', 'd', 'm');
    lemma_place(u, 'i', 'v', 'x', 1, e);
    assert(units + e =~= units);
    lemma_place(t, 'x', 'l', 'c', 10, units);
    lemma_place(h, 'c', 'd', 'm', 100, tens + units);
    let low = hundreds + (tens + units);
    lemma_repeated('m', m, low);
    assert(repeated('m', m) + hundreds + tens + units =~= repeated('m', m) + low);
}

/// Roman numbers read back as the number they were made for.
pub proof fn law_roman_reads_back(n: nat)
    ensures
        roman_value(roman_of(n)) == n,
{
    lemma_places(n / 1000, n / 100 % 10, n / 10 % 10, n % 10);
    assert(n / 100 / 10 == n / 1000 && n / 10 / 10 == n / 100);
}

/// The marker of an ordered item reads back as the item's number: in digits at
/// the outermost depth, in letters one further in, in roman signs the next.
pub proof fn law_markers_read_back(depth: nat, n: nat)
    ensures
        ({
            let s = marker_of(depth, n);
            &&& s.len() > 0
            &&& s.last() == '.'
            &&& depth % 3 == 0 ==> number_of(s.drop_last()) == n
            &&& depth % 3 == 1 ==> letters_value(s.drop_last()) == n
            &&& depth % 3 == 2 ==> roman_value(s.drop_last()) == n
        }),
{
    let s = marker_of(depth, n);
    if depth % 3 == 0 {
        lemma_decimal_reads_back(n);
        assert(s.drop_last() =~= decimal(n));
    } else if depth % 3 == 1 {
        law_letters_read_back(n);
        assert(s.drop_last() =~= letters_of(n));
    } else {
        law_roman_reads_back(n);
        assert(s.drop_last() =~= roman_of(n));
    }
}

/// Decimal numbers are made of digits and read back as the number they were
/// made for.
pub proof fn law_decimal_reads_back(n: nat)
    ensures
        number_of(decimal(n)) == n,
        forall|k: int| 0 <= k < decimal(n).len() ==> '0' <= #[trigger] decimal(n)[k] <= '9',
{
    lemma_decimal_reads_back(n);
    assert forall|k: int| 0 <= k < decimal(n).len() implies '0' <= #[trigger] decimal(n)[k]
        <= '9' by {
        assert(crate::text::is_digit(decimal(n)[k]));
    }
}

/// A raised digit stands where its plain digit does in the block of raised
/// digits; 1, 2 and 3 stand in the older block.
pub proof fn law_raised_digits(d: nat)
    requires
        d < 10,
    ensures
        superscript_char(digit_char(d)) as u32 == if d == 1 {
            0xb9
        } else if d == 2 || d == 3 {
            0xb0 + d
        } else {
            0x2070 + d
        },
{
}

} // verus!
