//! Addresses as text.

use crate::manifest::NumberFault;
use vstd::prelude::*;

verus! {

/// Law: the white space that does not count is that of Unicode.
pub proof fn law_white_space(c: char)
    ensures
        crate::manifest::number::is_space(c) <==> {
            ||| c == '\u{9}' || c == '\u{a}' || c == '\u{b}' || c == '\u{c}' || c == '\u{d}'
            ||| c == '\u{20}' || c == '\u{85}' || c == '\u{a0}' || c == '\u{1680}'
            ||| c == '\u{2000}' || c == '\u{2001}' || c == '\u{2002}' || c == '\u{2003}'
            ||| c == '\u{2004}' || c == '\u{2005}' || c == '\u{2006}' || c == '\u{2007}'
            ||| c == '\u{2008}' || c == '\u{2009}' || c == '\u{200a}'
            ||| c == '\u{2028}' || c == '\u{2029}' || c == '\u{202f}' || c == '\u{205f}'
            ||| c == '\u{3000}'
        },
{
}

proof fn lemma_trim_start(s: Seq<char>) -> (from: int)
    ensures
        0 <= from <= s.len(),
        crate::manifest::number::trim_start(s) == s.skip(from),
        forall|i: int| 0 <= i < from ==> crate::manifest::number::is_space(#[trigger] s[i]),
        from < s.len() ==> !crate::manifest::number::is_space(s[from]),
    decreases s.len(),
{
    if s.len() > 0 && crate::manifest::number::is_space(s[0]) {
        let rest = s.skip(1);
        let from = lemma_trim_start(rest);
        assert(rest.skip(from) =~= s.skip(from + 1));
        assert forall|i: int| 0 <= i < from + 1 implies crate::manifest::number::is_space(
            #[trigger] s[i],
        ) by {
            if i > 0 {
                assert(rest[i - 1] == s[i]);
            }
        }
        if from < rest.len() {
            assert(rest[from] == s[from + 1]);
        }
        from + 1
    } else {
        assert(s.skip(0) =~= s);
        0
    }
}

proof fn lemma_trim_end(s: Seq<char>) -> (to: int)
    ensures
        0 <= to <= s.len(),
        crate::manifest::number::trim_end(s) == s.take(to),
        forall|i: int| to <= i < s.len() ==> crate::manifest::number::is_space(#[trigger] s[i]),
        to > 0 ==> !crate::manifest::number::is_space(s[to - 1]),
    decreases s.len(),
{
    if s.len() > 0 && crate::manifest::number::is_space(s.last()) {
        let front = s.drop_last();
        let to = lemma_trim_end(front);
        assert(front.take(to) =~= s.take(to));
        assert forall|i: int| to <= i < s.len() implies crate::manifest::number::is_space(
            #[trigger] s[i],
        ) by {
            if i < front.len() {
                assert(front[i] == s[i]);
            }
        }
        if to > 0 {
            assert(front[to - 1] == s[to - 1]);
        }
        to
    } else {
        assert(s.take(s.len() as int) =~= s);
        s.len() as int
    }
}

/// Law: trimming cuts the white space at both ends and nothing else.
pub proof fn law_trimming_cuts_white_space(s: Seq<char>) -> (cut: (int, int))
    ensures
        0 <= cut.0 <= cut.1 <= s.len(),
        crate::manifest::number::trimmed(s) == s.subrange(cut.0, cut.1),
        forall|i: int| 0 <= i < cut.0 ==> crate::manifest::number::is_space(#[trigger] s[i]),
        forall|i: int|
            cut.1 <= i < s.len() ==> crate::manifest::number::is_space(#[trigger] s[i]),
        cut.0 < cut.1 ==> !crate::manifest::number::is_space(s[cut.0])
            && !crate::manifest::number::is_space(s[cut.1 - 1]),
{
    let from = lemma_trim_start(s);
    let rest = s.skip(from);
    let to = lemma_trim_end(rest);
    assert(rest.take(to) =~= s.subrange(from, from + to));
    assert forall|i: int| from + to <= i < s.len() implies crate::manifest::number::is_space(
        #[trigger] s[i],
    ) by {
        assert(rest[i - from] == s[i]);
    }
    if to > 0 {
        assert(rest[to - 1] == s[from + to - 1]);
    }
    (from, from + to)
}

proof fn lemma_number(s: Seq<char>, base: nat)
    requires
        base == 10 || base == 16,
    ensures
        crate::manifest::number::number(s, base as int) is Ok <==> super::text::all_digits(s, base)
            && super::text::read(s, base) <= 0xFFFF_FFFF,
        crate::manifest::number::number(s, base as int) matches Ok(n) ==> n == super::text::read(
            s,
            base,
        ),
        super::text::all_digits(s, base) && super::text::read(s, base) > 0xFFFF_FFFF
            ==> crate::manifest::number::number(s, base as int) == Err::<int, NumberFault>(
            NumberFault::TooLarge,
        ),
    decreases s.len(),
{
    if s.len() > 0 {
        let front = s.drop_last();
        let c = s.last();
        lemma_number(front, base);
        assert(s[s.len() - 1] == c);
        let r = super::text::read(front, base);
        let ok = super::text::digit(c) is Some && super::text::digit(c)->0 < base;
        assert(ok <==> crate::manifest::number::digit_value(c, base as int) is Some);
        assert(ok ==> crate::manifest::number::digit_value(c, base as int) == Some(
            super::text::digit(c)->0 as int,
        ));
        assert(super::text::all_digits(s, base) <==> super::text::all_digits(front, base) && ok) by {
            if super::text::all_digits(s, base) {
                assert forall|i: int| 0 <= i < front.len() implies super::text::digit(
                    #[trigger] front[i],
                ) is Some && super::text::digit(front[i])->0 < base by {
                    assert(front[i] == s[i]);
                }
            }
            if super::text::all_digits(front, base) && ok {
                assert forall|i: int| 0 <= i < s.len() implies super::text::digit(
                    #[trigger] s[i],
                ) is Some && super::text::digit(s[i])->0 < base by {
                    if i < front.len() {
                        assert(front[i] == s[i]);
                    }
                }
            }
        }
        if ok {
            if base == 10 {
                assert(super::text::read(s, base) == r * 10 + super::text::digit(c)->0);
            } else {
                assert(super::text::read(s, base) == r * 16 + super::text::digit(c)->0);
            }
        }
    }
}

/// Law: what text writes. Without the white space around it, text is `0x` or `0X`
/// and hexadecimal digits, or decimal digits, and a plus sign may stand in front
/// of the digits; there is one at least, and the number they write fits 32 bits.
/// All other text is refused: what holds no digits or signs as empty, digits that
/// write too much as too large.
pub proof fn law_numbers_are_read(s: Seq<char>)
    ensures
        ({
            let t = crate::manifest::number::trimmed(s);
            let is_hex = t.len() >= 2 && t[0] == '0' && (t[1] == 'x' || t[1] == 'X');
            let base: nat = if is_hex {
                16
            } else {
                10
            };
            let body = if is_hex {
                t.skip(2)
            } else {
                t
            };
            let digits = if body.len() > 0 && body[0] == '+' {
                body.skip(1)
            } else {
                body
            };
            let fits = digits.len() > 0 && super::text::all_digits(digits, base)
                && super::text::read(digits, base) <= 0xFFFF_FFFF;
            let r = crate::manifest::number::parsed_u32(s);
            &&& fits ==> r == Ok::<int, NumberFault>(super::text::read(digits, base) as int)
            &&& body.len() == 0 ==> r == Err::<int, NumberFault>(NumberFault::Empty)
            &&& body.len() > 0 && digits.len() == 0 ==> r == Err::<int, NumberFault>(
                NumberFault::InvalidDigit,
            )
            &&& digits.len() > 0 && super::text::all_digits(digits, base) && !fits ==> r == Err::<
                int,
                NumberFault,
            >(NumberFault::TooLarge)
            &&& !fits ==> r is Err
        }),
{
    let t = crate::manifest::number::trimmed(s);
    let body = t.skip(2);
    if t.len() >= 2 && t[0] == '0' && (t[1] == 'x' || t[1] == 'X') {
        lemma_number(body, 16);
        if body.len() > 0 {
            lemma_number(body.skip(1), 16);
        }
    } else {
        lemma_number(t, 10);
        if t.len() > 0 {
            lemma_number(t.skip(1), 10);
        }
    }
}

/// Law: which digit is at fault. Behind digits that write a 32-bit number, a
/// character that is no digit is refused as such, and a digit that makes the
/// number too large for that.
pub proof fn law_first_bad_digit(digits: Seq<char>, base: nat, k: int)
    requires
        base == 10 || base == 16,
        0 <= k < digits.len(),
        super::text::all_digits(digits.take(k), base),
        super::text::read(digits.take(k), base) <= 0xFFFF_FFFF,
    ensures
        ({
            let c = digits[k];
            let r = crate::manifest::number::number(digits, base as int);
            let is_digit = super::text::digit(c) is Some && super::text::digit(c)->0 < base;
            &&& !is_digit ==> r == Err::<int, NumberFault>(NumberFault::InvalidDigit)
            &&& is_digit && super::text::read(digits.take(k + 1), base) > 0xFFFF_FFFF ==> r == Err::<
                int,
                NumberFault,
            >(NumberFault::TooLarge)
        }),
{
    let front = digits.take(k);
    let next = digits.take(k + 1);
    assert(next.drop_last() =~= front);
    assert(next.last() == digits[k]);
    lemma_number(front, base);
    lemma_number(next, base);
    crate::manifest::number::lemma_first_fault(digits, k + 1, base as int);
    let c = digits[k];
    if super::text::digit(c) is Some && super::text::digit(c)->0 < base {
        assert forall|i: int| 0 <= i < next.len() implies super::text::digit(#[trigger] next[i]) is Some
            && super::text::digit(next[i])->0 < base by {
            if i < k {
                assert(next[i] == front[i]);
            }
        }
    } else {
        assert(next[k] == c);
        assert(crate::manifest::number::digit_value(c, base as int) is None);
    }
}

} // verus!
