//! Numbers and bytes as text, for error messages and fuse values.

use vstd::prelude::*;

verus! {

/// The digit for `d`, in lower case.
pub open spec fn digit_char(d: int) -> char {
    "0123456789abcdef"@[d]
}

/// `n` in positional notation, without leading zeros.
pub open spec fn digits(n: nat, base: nat) -> Seq<char>
    decreases n,
{
    if base < 2 || n < base {
        seq![digit_char(n as int)]
    } else {
        proof {
            assert(n / base < n) by (nonlinear_arith)
                requires
                    base >= 2,
                    n >= base,
            ;
        }
        digits(n / base, base).push(digit_char((n % base) as int))
    }
}

/// `n` in decimal.
pub open spec fn decimal(n: nat) -> Seq<char> {
    digits(n, 10)
}

/// `n` in hexadecimal behind a `0x` prefix.
pub open spec fn hex(n: nat) -> Seq<char> {
    "0x"@ + digits(n, 16)
}

/// `n` in hexadecimal behind a `0x` prefix, with at least three digits.
pub open spec fn hex3(n: nat) -> Seq<char> {
    if n < 4096 {
        "0x"@ + seq![
            digit_char((n / 256) as int),
            digit_char((n / 16 % 16) as int),
            digit_char((n % 16) as int),
        ]
    } else {
        hex(n)
    }
}

/// The two hexadecimal digits of a byte.
pub open spec fn hex_byte(b: u8) -> Seq<char> {
    seq![digit_char((b / 16) as int), digit_char((b % 16) as int)]
}

fn digit_str(d: u8) -> (s: &'static str)
    requires
        d < 16,
    ensures
        s@ == seq![digit_char(d as int)],
{
    proof {
        reveal_strlit("0123456789abcdef");
        reveal_strlit("0");
        reveal_strlit("1");
        reveal_strlit("2");
        reveal_strlit("3");
        reveal_strlit("4");
        reveal_strlit("5");
        reveal_strlit("6");
        reveal_strlit("7");
        reveal_strlit("8");
        reveal_strlit("9");
        reveal_strlit("a");
        reveal_strlit("b");
        reveal_strlit("c");
        reveal_strlit("d");
        reveal_strlit("e");
        reveal_strlit("f");
    }
    match d {
        0 => "0",
        1 => "1",
        2 => "2",
        3 => "3",
        4 => "4",
        5 => "5",
        6 => "6",
        7 => "7",
        8 => "8",
        9 => "9",
        10 => "a",
        11 => "b",
        12 => "c",
        13 => "d",
        14 => "e",
        _ => "f",
    }
}

fn push_digit(out: &mut String, d: u8)
    requires
        d < 16,
    ensures
        final(out)@ == old(out)@.push(digit_char(d as int)),
{
    out.append(digit_str(d));
    assert(out@ =~= old(out)@.push(digit_char(d as int)));
}

fn push_digits(out: &mut String, n: u128, base: u128)
    requires
        2 <= base <= 16,
    ensures
        final(out)@ == old(out)@ + digits(n as nat, base as nat),
    decreases n,
{
    if n < base {
        push_digit(out, n as u8);
    } else {
        proof {
            assert(n / base < n) by (nonlinear_arith)
                requires
                    2 <= base,
                    n >= base,
            ;
        }
        push_digits(out, n / base, base);
        push_digit(out, (n % base) as u8);
    }
    assert(out@ =~= old(out)@ + digits(n as nat, base as nat));
}

/// Appends `n` in decimal.
pub fn push_decimal(out: &mut String, n: u128)
    ensures
        final(out)@ == old(out)@ + decimal(n as nat),
{
    push_digits(out, n, 10);
}

/// Appends `n` in hexadecimal, with its prefix.
pub fn push_hex(out: &mut String, n: u64)
    ensures
        final(out)@ == old(out)@ + hex(n as nat),
{
    out.append("0x");
    push_digits(out, n as u128, 16);
    assert(out@ =~= old(out)@ + hex(n as nat));
}

/// Appends `n` in hexadecimal, with its prefix and at least three digits.
pub fn push_hex3(out: &mut String, n: u16)
    ensures
        final(out)@ == old(out)@ + hex3(n as nat),
{
    if n < 4096 {
        out.append("0x");
        push_digit(out, (n / 256) as u8);
        push_digit(out, (n / 16 % 16) as u8);
        push_digit(out, (n % 16) as u8);
    } else {
        push_hex(out, n as u64);
    }
    assert(out@ =~= old(out)@ + hex3(n as nat));
}

/// Appends the two hexadecimal digits of `b`.
pub fn push_hex_byte(out: &mut String, b: u8)
    ensures
        final(out)@ == old(out)@ + hex_byte(b),
{
    push_digit(out, b / 16);
    push_digit(out, b % 16);
    assert(out@ =~= old(out)@ + hex_byte(b));
}

/// Law: a number has one spelling, and a spelling one number.
pub proof fn law_digits_are_injective(a: nat, b: nat, base: nat)
    requires
        2 <= base <= 16,
        digits(a, base) == digits(b, base),
    ensures
        a == b,
    decreases a,
{
    reveal_strlit("0123456789abcdef");
    let s = digits(a, base);
    let t = digits(b, base);
    lemma_digits_len(a, base);
    lemma_digits_len(b, base);
    if a < base {
        assert(s.last() == t.last());
    } else {
        assert(a / base < a && (a / base) * base + a % base == a && a % base < base) by (nonlinear_arith)
            requires
                base >= 2,
                a >= base,
        ;
        assert(b >= base);
        assert((b / base) * base + b % base == b && b % base < base) by (nonlinear_arith)
            requires
                base >= 2,
        ;
        assert(s.drop_last() =~= digits(a / base, base));
        assert(t.drop_last() =~= digits(b / base, base));
        law_digits_are_injective(a / base, b / base, base);
        assert(s.last() == digit_char((a % base) as int));
        assert(t.last() == digit_char((b % base) as int));
        assert(digit_char((a % base) as int) == digit_char((b % base) as int));
    }
}

proof fn lemma_digits_len(n: nat, base: nat)
    requires
        2 <= base,
    ensures
        digits(n, base).len() >= 1,
        n >= base <==> digits(n, base).len() >= 2,
{
    if n >= base {
        lemma_digits_not_empty(n / base, base);
    }
}

proof fn lemma_digits_not_empty(n: nat, base: nat)
    ensures
        digits(n, base).len() >= 1,
{
}

} // verus!
