//! Numbers as text: the decimal form of a whole number, and the line of one pixel.

use vstd::prelude::*;

verus! {

/// The byte of the numeral `0`; the other numerals follow it in order.
pub const ZERO: u8 = 48;

/// The byte of the minus sign.
pub const MINUS: u8 = 45;

/// The byte of the space that parts the numbers of a line.
pub const SPACE: u8 = 32;

/// The byte that ends a line.
pub const NEWLINE: u8 = 10;

/// The numerals of a natural number, the most significant first, with no zero in front of
/// them: zero itself is the one numeral `0`.
pub open spec fn digits(n: nat) -> Seq<u8>
    decreases n,
{
    if n < 10 {
        seq![(ZERO + n) as u8]
    } else {
        digits(n / 10).push((ZERO + n % 10) as u8)
    }
}

/// A whole number in decimal: its numerals, after a minus sign where it is negative.
pub open spec fn decimal(n: int) -> Seq<u8> {
    if n < 0 {
        seq![MINUS] + digits((-n) as nat)
    } else {
        digits(n as nat)
    }
}

/// The line of one pixel: its red, green and blue parts in decimal, a space between them and
/// a line end after them.
pub open spec fn pixel_line(r: int, g: int, b: int) -> Seq<u8> {
    decimal(r) + seq![SPACE] + decimal(g) + seq![SPACE] + decimal(b) + seq![NEWLINE]
}

/// Whether a byte is one of the ten numerals.
pub open spec fn is_numeral(byte: u8) -> bool {
    ZERO <= byte <= ZERO + 9
}

/// The natural number that a row of numerals stands for.
pub open spec fn numeral_value(s: Seq<u8>) -> nat
    decreases s.len(),
{
    if s.len() == 0 {
        0
    } else {
        (10 * numeral_value(s.drop_last()) + (s.last() - ZERO)) as nat
    }
}

/// The whole number that a text in decimal stands for.
pub open spec fn decimal_value(s: Seq<u8>) -> int {
    if s.len() > 0 && s[0] == MINUS {
        -(numeral_value(s.skip(1)) as int)
    } else {
        numeral_value(s) as int
    }
}

/// The numerals of a number are at least one, all of them numerals, the first of them `0`
/// only for zero itself, and they stand for that number.
pub proof fn lemma_digits_read_back(n: nat)
    ensures
        digits(n).len() >= 1,
        forall|i: int| 0 <= i < digits(n).len() ==> is_numeral(#[trigger] digits(n)[i]),
        n > 0 ==> digits(n)[0] != ZERO,
        numeral_value(digits(n)) == n,
    decreases n,
{
    if n >= 10 {
        lemma_digits_read_back(n / 10);
        let front = digits(n / 10);
        let last = (ZERO + n % 10) as u8;
        assert(digits(n) == front.push(last));
        assert(front.push(last).drop_last() =~= front);
        assert(digits(n)[0] == front[0]);
        assert(numeral_value(digits(n)) == 10 * numeral_value(front) + (last - ZERO));
    } else {
        assert(digits(n).drop_last() =~= Seq::<u8>::empty());
        assert(numeral_value(digits(n)) == 10 * numeral_value(Seq::<u8>::empty()) + n);
    }
}

/// A number in decimal holds numerals only, after the minus sign of a negative one, and
/// stands for that number.
pub proof fn lemma_decimal_reads_back(n: int)
    ensures
        decimal(n).len() >= 1,
        forall|i: int|
            0 <= i < decimal(n).len() ==> is_numeral(#[trigger] decimal(n)[i]) || (i == 0 && n < 0
                && decimal(n)[i] == MINUS),
        decimal_value(decimal(n)) == n,
{
    if n < 0 {
        let m = (-n) as nat;
        lemma_digits_read_back(m);
        assert(decimal(n).skip(1) =~= digits(m));
        assert forall|i: int| 0 <= i < decimal(n).len() implies is_numeral(
            #[trigger] decimal(n)[i],
        ) || (i == 0 && n < 0 && decimal(n)[i] == MINUS) by {
            if i > 0 {
                assert(decimal(n)[i] == digits(m)[i - 1]);
            }
        }
    } else {
        lemma_digits_read_back(n as nat);
    }
}

/// Two numbers with the same text in decimal are the same number.
pub proof fn lemma_decimal_is_injective(a: int, b: int)
    requires
        decimal(a) == decimal(b),
    ensures
        a == b,
{
    lemma_decimal_reads_back(a);
    lemma_decimal_reads_back(b);
}

/// A number in decimal can be read from the front of a text: where two numbers, each
/// followed by `mark` and then by more, give the same text, and `mark` is neither a numeral
/// nor the minus sign, the two numbers are the same, and so is what follows them.
pub proof fn lemma_same_first_number(
    a: int,
    b: int,
    mark: u8,
    rest_a: Seq<u8>,
    rest_b: Seq<u8>,
)
    requires
        !is_numeral(mark),
        mark != MINUS,
        decimal(a) + seq![mark] + rest_a == decimal(b) + seq![mark] + rest_b,
    ensures
        a == b,
        rest_a == rest_b,
{
    lemma_decimal_reads_back(a);
    lemma_decimal_reads_back(b);
    let text_a = decimal(a) + seq![mark] + rest_a;
    let text_b = decimal(b) + seq![mark] + rest_b;
    let len_a = decimal(a).len() as int;
    let len_b = decimal(b).len() as int;
    assert(text_a[len_a] == mark);
    assert(text_b[len_b] == mark);
    if len_a < len_b {
        assert(text_b[len_a] == decimal(b)[len_a]);
    }
    if len_b < len_a {
        assert(text_a[len_b] == decimal(a)[len_b]);
    }
    assert(len_a == len_b);
    assert(decimal(a) =~= text_a.subrange(0, len_a));
    assert(decimal(b) =~= text_b.subrange(0, len_b));
    lemma_decimal_is_injective(a, b);
    assert(rest_a =~= text_a.subrange(len_a + 1, text_a.len() as int));
    assert(rest_b =~= text_b.subrange(len_b + 1, text_b.len() as int));
}

/// The line of a pixel, followed by more, is the first number and a space, then the second
/// number and a space, then the third number and a line end, then what follows.
proof fn lemma_line_in_parts(r: int, g: int, b: int, rest: Seq<u8>)
    ensures
        pixel_line(r, g, b) + rest == decimal(r) + seq![SPACE] + (decimal(g) + seq![SPACE] + (
        decimal(b) + seq![NEWLINE] + rest)),
{
    let third = decimal(b) + seq![NEWLINE] + rest;
    let second = decimal(g) + seq![SPACE] + third;
    assert(decimal(b) + seq![NEWLINE] + rest =~= decimal(b) + (seq![NEWLINE] + rest));
    assert(second =~= decimal(g) + (seq![SPACE] + (decimal(b) + (seq![NEWLINE] + rest))));
    assert(decimal(r) + seq![SPACE] + second =~= decimal(r) + (seq![SPACE] + second));
    assert(pixel_line(r, g, b) + rest =~= decimal(r) + (seq![SPACE] + (decimal(g) + (seq![
        SPACE,
    ] + (decimal(b) + (seq![NEWLINE] + rest))))));
}

/// The line of a pixel can be read from the front of a text: where the lines of two pixels,
/// each followed by more, give the same text, the two pixels have the same three parts, and
/// what follows them is the same.
pub proof fn lemma_same_first_line(
    r1: int,
    g1: int,
    b1: int,
    rest1: Seq<u8>,
    r2: int,
    g2: int,
    b2: int,
    rest2: Seq<u8>,
)
    requires
        pixel_line(r1, g1, b1) + rest1 == pixel_line(r2, g2, b2) + rest2,
    ensures
        r1 == r2,
        g1 == g2,
        b1 == b2,
        rest1 == rest2,
{
    lemma_line_in_parts(r1, g1, b1, rest1);
    lemma_line_in_parts(r2, g2, b2, rest2);
    let third1 = decimal(b1) + seq![NEWLINE] + rest1;
    let third2 = decimal(b2) + seq![NEWLINE] + rest2;
    let second1 = decimal(g1) + seq![SPACE] + third1;
    let second2 = decimal(g2) + seq![SPACE] + third2;
    lemma_same_first_number(r1, r2, SPACE, second1, second2);
    lemma_same_first_number(g1, g2, SPACE, third1, third2);
    lemma_same_first_number(b1, b2, NEWLINE, rest1, rest2);
}

/// Two pixels with the same line have the same three parts: the line can be read back.
pub proof fn lemma_pixel_line_is_injective(r1: int, g1: int, b1: int, r2: int, g2: int, b2: int)
    requires
        pixel_line(r1, g1, b1) == pixel_line(r2, g2, b2),
    ensures
        r1 == r2,
        g1 == g2,
        b1 == b2,
{
    let nothing = Seq::<u8>::empty();
    assert(pixel_line(r1, g1, b1) + nothing =~= pixel_line(r1, g1, b1));
    assert(pixel_line(r2, g2, b2) + nothing =~= pixel_line(r2, g2, b2));
    lemma_same_first_line(r1, g1, b1, nothing, r2, g2, b2, nothing);
}

/// Appends the numerals of `m` to `out`: those of its tenth part first, then its last one.
fn push_digits(out: &mut Vec<u8>, m: u32)
    ensures
        final(out)@ == old(out)@ + digits(m as nat),
    decreases m,
{
    if m >= 10 {
        push_digits(out, m / 10);
    }
    out.push(ZERO + (m % 10) as u8);
    assert(out@ =~= old(out)@ + digits(m as nat));
}

/// Appends `n` in decimal to `out`.
pub fn write_decimal(out: &mut Vec<u8>, n: i32)
    ensures
        final(out)@ == old(out)@ + decimal(n as int),
{
    if n < 0 {
        out.push(MINUS);
        push_digits(out, (-(n as i64)) as u32);
        assert(out@ =~= old(out)@ + decimal(n as int));
    } else {
        push_digits(out, n as u32);
    }
}

/// Appends the line of one pixel to `out`: the three parts of its colour, each as it is, in
/// decimal.
pub fn write_color(out: &mut Vec<u8>, r: i32, g: i32, b: i32)
    ensures
        final(out)@ == old(out)@ + pixel_line(r as int, g as int, b as int),
{
    write_decimal(out, r);
    out.push(SPACE);
    write_decimal(out, g);
    out.push(SPACE);
    write_decimal(out, b);
    out.push(NEWLINE);
    assert(out@ =~= old(out)@ + pixel_line(r as int, g as int, b as int));
}

} // verus!
