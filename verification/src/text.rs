//! Numbers as text.

use vstd::arithmetic::power::{lemma_pow_positive, pow};
use vstd::prelude::*;
use vstd::string::StringExecFns;

verus! {

/// The character of a digit, up to `f`.
pub open spec fn digit_char(d: int) -> char {
    if d < 10 {
        (48 + d) as char
    } else {
        (87 + d) as char
    }
}

/// A number in decimal, without leading zeros.
pub open spec fn digits(n: nat) -> Seq<char>
    decreases n,
{
    if n < 10 {
        seq![digit_char(n as int)]
    } else {
        digits(n / 10).push(digit_char((n % 10) as int))
    }
}

/// Text filled up from the left to a width.
pub open spec fn filled(fill: char, text: Seq<char>, width: int) -> Seq<char> {
    if text.len() < width {
        Seq::new((width - text.len()) as nat, |i: int| fill) + text
    } else {
        text
    }
}

/// A number in decimal with leading zeros up to a width.
pub open spec fn zero_padded(n: nat, width: int) -> Seq<char> {
    filled('0', digits(n), width)
}

/// A number with its sign and at least two digits.
pub open spec fn signed(v: int) -> Seq<char> {
    if v < 0 {
        seq!['-'] + zero_padded((-v) as nat, 2)
    } else {
        seq!['+'] + zero_padded(v as nat, 2)
    }
}

/// A byte as two hexadecimal digits.
pub open spec fn hex(b: u8) -> Seq<char> {
    seq![digit_char(b as int / 16), digit_char(b as int % 16)]
}

fn digit_str(d: u8) -> (s: &'static str)
    requires
        d < 16,
    ensures
        s@ == seq![digit_char(d as int)],
{
    proof {
        reveal_strlit("0");
        reveal_strlit("1");
        reveal_strlit("2");
        reveal_strlit("3");
        reveal_strlit("4");
        reveal_strlit("5");
        reveal_strlit("6");
        reveal_strlit("7");
        reveal_strlit("8");
        reveal_strlit("9");
        reveal_strlit("a");
        reveal_strlit("b");
        reveal_strlit("c");
        reveal_strlit("d");
        reveal_strlit("e");
        reveal_strlit("f");
    }
    let s = match d {
        0 => "0",
        1 => "1",
        2 => "2",
        3 => "3",
        4 => "4",
        5 => "5",
        6 => "6",
        7 => "7",
        8 => "8",
        9 => "9",
        10 => "a",
        11 => "b",
        12 => "c",
        13 => "d",
        14 => "e",
        _ => "f",
    };
    assert(s@ =~= seq![digit_char(d as int)]);
    s
}

/// Appends a number in decimal.
pub fn push_number(out: &mut String, n: u32)
    ensures
        final(out)@ == old(out)@ + digits(n as nat),
    decreases n,
{
    let ghost was = out@;
    if n >= 10 {
        push_number(out, n / 10);
    }
    out.append(digit_str((n % 10) as u8));
    assert(out@ =~= was + digits(n as nat));
}

fn digit_count(n: u32) -> (c: usize)
    ensures
        c == digits(n as nat).len(),
        c <= n + 1,
    decreases n,
{
    if n < 10 {
        1
    } else {
        digit_count(n / 10) + 1
    }
}

fn push_fill(out: &mut String, fill: &str, count: usize)
    requires
        fill@.len() == 1,
    ensures
        final(out)@ == old(out)@ + Seq::new(count as nat, |i: int| fill@[0]),
{
    for k in 0..count
        invariant
            fill@.len() == 1,
            out@ == old(out)@ + Seq::new(k as nat, |i: int| fill@[0]),
    {
        out.append(fill);
        assert(out@ =~= old(out)@ + Seq::new((k + 1) as nat, |i: int| fill@[0]));
    }
}

/// Appends a number in decimal, filled up from the left to a width.
pub fn push_filled(out: &mut String, n: u32, fill: &str, width: usize)
    requires
        fill@.len() == 1,
    ensures
        final(out)@ == old(out)@ + filled(fill@[0], digits(n as nat), width as int),
{
    let ghost was = out@;
    let len = digit_count(n);
    if len < width {
        push_fill(out, fill, width - len);
    }
    push_number(out, n);
    assert(out@ =~= was + filled(fill@[0], digits(n as nat), width as int));
}

/// Appends a number in decimal with leading zeros up to a width.
pub fn push_zero_padded(out: &mut String, n: u32, width: usize)
    ensures
        final(out)@ == old(out)@ + zero_padded(n as nat, width as int),
{
    proof {
        reveal_strlit("0");
    }
    push_filled(out, n, "0", width);
}

/// Appends a number with its sign and at least two digits.
pub fn push_signed(out: &mut String, v: i8)
    ensures
        final(out)@ == old(out)@ + signed(v as int),
{
    proof {
        reveal_strlit("-");
        reveal_strlit("+");
    }
    let ghost was = out@;
    if v < 0 {
        out.append("-");
        push_zero_padded(out, (-(v as i32)) as u32, 2);
    } else {
        out.append("+");
        push_zero_padded(out, v as u32, 2);
    }
    assert(out@ =~= was + signed(v as int));
}

/// Appends a byte as two hexadecimal digits.
pub fn push_hex(out: &mut String, b: u8)
    ensures
        final(out)@ == old(out)@ + hex(b),
{
    let ghost was = out@;
    out.append(digit_str(b / 16));
    out.append(digit_str(b % 16));
    assert(out@ =~= was + hex(b));
}

/// Whether a character is a decimal digit.
pub open spec fn is_digit(c: char) -> bool {
    '0' <= c <= '9'
}

/// The number that decimal digits stand for.
pub open spec fn value(s: Seq<char>) -> nat
    decreases s.len(),
{
    if s.len() == 0 {
        0
    } else {
        (value(s.drop_last()) * 10 + (s.last() as int - '0' as int)) as nat
    }
}

/// Decimal text holds digits only, at least one, and stands for its number.
pub proof fn digits_read_back(n: nat)
    ensures
        digits(n).len() > 0,
        forall|i: int| 0 <= i < digits(n).len() ==> is_digit(#[trigger] digits(n)[i]),
        value(digits(n)) == n,
    decreases n,
{
    if n < 10 {
        let s = digits(n);
        assert(s.drop_last() =~= Seq::<char>::empty());
        assert(value(s.drop_last()) == 0);
    } else {
        digits_read_back(n / 10);
        let s = digits(n);
        assert(s.drop_last() =~= digits(n / 10));
    }
}

proof fn lemma_digit_count(n: nat, k: nat)
    requires
        n < pow(10, (k + 1) as nat),
    ensures
        digits(n).len() <= k + 1,
    decreases k,
{
    lemma_pow_positive(10, k);
    reveal(pow);
    if n >= 10 && k > 0 {
        assert(n / 10 < pow(10, k)) by {
            assert(pow(10, (k + 1) as nat) == 10 * pow(10, k));
        }
        lemma_digit_count(n / 10, (k - 1) as nat);
    } else if k == 0 {
        assert(pow(10, 1) == 10 * pow(10, 0));
    }
}

/// A 32-bit number has at most ten digits.
pub proof fn digits_are_few(n: u32)
    ensures
        1 <= digits(n as nat).len() <= 10,
{
    assert(pow(10, 10) == 10_000_000_000) by {
        reveal_with_fuel(pow, 11);
    }
    lemma_digit_count(n as nat, 9);
}

/// A small number with its sign has three or four characters.
pub proof fn signed_is_short(v: i8)
    ensures
        3 <= signed(v as int).len() <= 4,
{
    assert(pow(10, 3) == 1000) by {
        reveal_with_fuel(pow, 4);
    }
    let n: nat = (if v < 0 {
        -v
    } else {
        v as int
    }) as nat;
    lemma_digit_count(n, 2);
    digits_read_back(n);
}

/// The digit characters, decimal and hexadecimal, each with its own value.
pub proof fn digit_characters(d: int)
    requires
        0 <= d < 16,
    ensures
        d < 10 ==> digit_char(d) as u32 == 0x30 + d,
        d >= 10 ==> digit_char(d) as u32 == 0x61 + (d - 10),
{
}

/// A decimal number is read from left to right: one more digit makes it ten times as
/// large, and adds the digit.
pub proof fn value_reads_left_to_right(s: Seq<char>, c: char)
    requires
        0x30 <= c as u32 <= 0x39,
    ensures
        value(Seq::empty()) == 0,
        value(s.push(c)) == 10 * value(s) + (c as u32 - 0x30),
{
    assert(s.push(c).drop_last() =~= s);
}

/// A number is written without leading zeros: zero is a single one, and nothing else
/// starts with one. The last digit is the rest of the division by ten, and what is in
/// front of it is the number divided by ten.
pub proof fn digits_are_shortest(n: nat)
    ensures
        n == 0 ==> digits(n) == seq![0x30u8 as char],
        n > 0 ==> digits(n)[0] as u32 != 0x30,
        digits(n).last() as u32 == 0x30 + n % 10,
        n >= 10 ==> digits(n).drop_last() == digits(n / 10),
        n < 10 ==> digits(n).len() == 1,
    decreases n,
{
    if n >= 10 {
        digits_are_shortest(n / 10);
        digits_read_back(n / 10);
        assert(digits(n).drop_last() =~= digits(n / 10));
    } else {
        assert(digits(n) =~= seq![digit_char(n as int)]);
    }
}

/// Filling up adds only fill characters, only in front, and only up to the width.
pub proof fn filling_goes_in_front(fill: char, text: Seq<char>, width: int)
    ensures
        ({
            let t = filled(fill, text, width);
            let n = t.len() - text.len();
            &&& text.len() >= width ==> t == text
            &&& text.len() < width ==> t.len() == width
            &&& n >= 0
            &&& t.skip(n) == text
            &&& forall|i: int| 0 <= i < n ==> #[trigger] t[i] == fill
        }),
{
    let t = filled(fill, text, width);
    assert(t.skip(t.len() - text.len()) =~= text);
}

proof fn lemma_padded_value(n: nat, k: nat)
    ensures
        value(Seq::new(k, |i: int| '0') + digits(n)) == n,
    decreases n,
{
    let zeros = Seq::new(k, |i: int| '0');
    lemma_zeros(k);
    let s = zeros + digits(n);
    if n < 10 {
        assert(s.drop_last() =~= zeros);
    } else {
        lemma_padded_value(n / 10, k);
        assert(s.drop_last() =~= zeros + digits(n / 10));
    }
}

proof fn lemma_zeros(k: nat)
    ensures
        value(Seq::new(k, |i: int| '0')) == 0,
    decreases k,
{
    let s = Seq::new(k, |i: int| '0');
    if k > 0 {
        lemma_zeros((k - 1) as nat);
        assert(s.drop_last() =~= Seq::new((k - 1) as nat, |i: int| '0'));
    }
}

/// Leading zeros change nothing of a number, which reads back as it was; a signed one
/// starts with its sign, and the rest of it reads back as its size.
pub proof fn padded_numbers_read_back(n: nat, width: int, v: int)
    ensures
        value(zero_padded(n, width)) == n,
        zero_padded(n, width).len() >= width,
        signed(v).len() >= 3,
        v < 0 ==> signed(v)[0] == '-' && value(signed(v).skip(1)) == -v,
        v >= 0 ==> signed(v)[0] == '+' && value(signed(v).skip(1)) == v,
{
    let none = Seq::<char>::empty();
    let k = if digits(n).len() < width {
        (width - digits(n).len()) as nat
    } else {
        0
    };
    lemma_padded_value(n, k);
    digits_read_back(n);
    let m = (if v < 0 {
        -v
    } else {
        v
    }) as nat;
    digits_read_back(m);
    let j = if digits(m).len() < 2 {
        (2 - digits(m).len()) as nat
    } else {
        0
    };
    lemma_padded_value(m, j);
    assert(signed(v).skip(1) =~= zero_padded(m, 2));
}

/// The value of a hexadecimal digit character.
pub open spec fn nibble(c: char) -> int {
    if c as u32 <= 0x39 {
        c as u32 - 0x30
    } else {
        c as u32 - 0x61 + 10
    }
}

/// A byte is two hexadecimal digits, the higher one first.
pub proof fn hex_reads_back(b: u8)
    ensures
        hex(b).len() == 2,
        16 * nibble(hex(b)[0]) + nibble(hex(b)[1]) == b,
        0 <= nibble(hex(b)[0]) < 16,
        0 <= nibble(hex(b)[1]) < 16,
{
}

/// A byte has at most three digits.
pub proof fn byte_digits_are_few(n: u8)
    ensures
        1 <= digits(n as nat).len() <= 3,
{
    assert(pow(10, 3) == 1000) by {
        reveal_with_fuel(pow, 4);
    }
    lemma_digit_count(n as nat, 2);
    digits_read_back(n as nat);
}

} // verus!
