//! Numbers as text.

use vstd::prelude::*;

verus! {

/// What a digit stands for: `0` to `9`, then `a` to `f`, in either case.
pub open spec fn digit(c: char) -> Option<nat> {
    if '0' <= c <= '9' {
        Some((c as int - '0' as int) as nat)
    } else if 'a' <= c <= 'f' {
        Some((c as int - 'a' as int + 10) as nat)
    } else if 'A' <= c <= 'F' {
        Some((c as int - 'A' as int + 10) as nat)
    } else {
        None
    }
}

/// Whether all of `s` are digits in `base`.
pub open spec fn all_digits(s: Seq<char>, base: nat) -> bool {
    forall|i: int| 0 <= i < s.len() ==> digit(#[trigger] s[i]) is Some && digit(s[i])->0 < base
}

/// Whether `s` holds no upper-case letter of the hexadecimal digits.
pub open spec fn lower_case(s: Seq<char>) -> bool {
    forall|i: int| 0 <= i < s.len() ==> !('A' <= #[trigger] s[i] <= 'F')
}

/// The number that digits write, most significant first.
pub open spec fn read(s: Seq<char>, base: nat) -> nat
    decreases s.len(),
{
    if s.len() == 0 {
        0
    } else {
        read(s.drop_last(), base) * base + digit(s.last())->0
    }
}

/// Law: digits write the number, in lower case and without leading zeros.
pub proof fn law_digits_read_back(n: nat, base: nat)
    requires
        2 <= base <= 16,
    ensures
        read(crate::text::digits(n, base), base) == n,
        all_digits(crate::text::digits(n, base), base),
        lower_case(crate::text::digits(n, base)),
        crate::text::digits(n, base).len() >= 1,
        crate::text::digits(n, base)[0] == '0' ==> n == 0 && crate::text::digits(n, base).len()
            == 1,
    decreases n,
{
    reveal_strlit("0123456789abcdef");
    let s = crate::text::digits(n, base);
    if n < base {
        assert(s.drop_last() =~= Seq::empty());
        assert(read(s.drop_last(), base) == 0);
        assert(0 * base == 0) by (nonlinear_arith);
        assert(s.last() == crate::text::digit_char(n as int));
        assert(digit(s[0]) == Some(n));
    } else {
        assert(n / base < n && (n / base) * base + n % base == n && n % base < base && n / base
            > 0) by (nonlinear_arith)
            requires
                base >= 2,
                n >= base,
        ;
        let front = crate::text::digits(n / base, base);
        law_digits_read_back(n / base, base);
        assert(s.drop_last() =~= front);
        assert(digit(s.last()) == Some(n % base));
        assert(s[0] == front[0]);
        assert forall|i: int| 0 <= i < s.len() implies digit(#[trigger] s[i]) is Some && digit(
            s[i],
        )->0 < base by {
            if i < front.len() {
                assert(s[i] == front[i]);
            }
        }
        assert forall|i: int| 0 <= i < s.len() implies !('A' <= #[trigger] s[i] <= 'F') by {
            if i < front.len() {
                assert(s[i] == front[i]);
            }
        }
    }
}

/// Law: decimal numbers are written in base ten; hexadecimal ones in base
/// sixteen behind `0x`.
pub proof fn law_number_texts(n: nat)
    ensures
        all_digits(crate::text::decimal(n), 10),
        read(crate::text::decimal(n), 10) == n,
        crate::text::hex(n).take(2) == seq!['0', 'x'],
        all_digits(crate::text::hex(n).skip(2), 16),
        lower_case(crate::text::hex(n).skip(2)),
        read(crate::text::hex(n).skip(2), 16) == n,
{
    reveal_strlit("0x");
    law_digits_read_back(n, 10);
    law_digits_read_back(n, 16);
    assert(crate::text::hex(n).take(2) =~= seq!['0', 'x']);
    assert(crate::text::hex(n).skip(2) =~= crate::text::digits(n, 16));
}

/// Law: CSR numbers, of twelve bits, are written with three digits.
pub proof fn law_csr_number_text(n: nat)
    requires
        n < 4096,
    ensures
        crate::text::hex3(n).len() == 5,
        crate::text::hex3(n).take(2) == seq!['0', 'x'],
        all_digits(crate::text::hex3(n).skip(2), 16),
        lower_case(crate::text::hex3(n).skip(2)),
        read(crate::text::hex3(n).skip(2), 16) == n,
{
    reveal_strlit("0x");
    reveal_strlit("0123456789abcdef");
    let t = crate::text::hex3(n);
    let s = t.skip(2);
    let a = crate::text::digit_char((n / 256) as int);
    let b = crate::text::digit_char((n / 16 % 16) as int);
    let c = crate::text::digit_char((n % 16) as int);
    assert(t.take(2) =~= seq!['0', 'x']);
    assert(s =~= seq![a, b, c]);
    assert(s.drop_last() =~= seq![a, b]);
    assert(s.drop_last().drop_last() =~= seq![a]);
    assert(s.drop_last().drop_last().drop_last() =~= Seq::empty());
    assert(read(Seq::empty(), 16) == 0);
    assert(read(seq![a], 16) == n / 256);
    assert(read(seq![a, b], 16) == n / 16);
    assert(digit(a) == Some((n / 256) as nat));
    assert(digit(b) == Some((n / 16 % 16) as nat));
    assert(digit(c) == Some((n % 16) as nat));
}

} // verus!
