//! Addresses as text: `0x`-hex or decimal.

use vstd::prelude::*;

verus! {

/// Why text is no number.
#[derive(Debug, Clone, Copy, PartialEq, Eq, Structural)]
pub enum NumberFault {
    /// There are no characters.
    Empty,
    /// A character is no digit, or there are no digits.
    InvalidDigit,
    /// The number does not fit 32 bits.
    TooLarge,
}

impl NumberFault {
    /// The fault in words.
    pub open spec fn name(self) -> &'static str {
        match self {
            NumberFault::Empty => "cannot parse integer from empty string",
            NumberFault::InvalidDigit => "invalid digit found in string",
            NumberFault::TooLarge => "number too large to fit in target type",
        }
    }

    /// The fault in words.
    pub fn describe(self) -> (s: &'static str)
        ensures
            s == self.name(),
    {
        match self {
            NumberFault::Empty => "cannot parse integer from empty string",
            NumberFault::InvalidDigit => "invalid digit found in string",
            NumberFault::TooLarge => "number too large to fit in target type",
        }
    }
}

/// Text that is no 32-bit number.
#[derive(Debug, Clone)]
pub struct NumberError {
    /// The text, without surrounding white space.
    pub text: String,
    pub fault: NumberFault,
}

impl NumberError {
    /// The error as text; its fault says why.
    pub open spec fn summary(self) -> Seq<char> {
        "invalid u32 '"@ + self.text@ + "'"@
    }

    /// The error as text; its fault says why.
    pub fn message(&self) -> (m: String)
        ensures
            m@ == self.summary(),
    {
        let mut m: String = "invalid u32 '".to_string();
        m.append(self.text.as_str());
        m.append("'");
        m
    }

    /// The error and its fault in one line.
    pub fn full_message(&self) -> (m: String)
        ensures
            m@ == self.summary() + ": "@ + self.fault.name()@,
    {
        let mut m: String = self.message();
        m.append(": ");
        m.append(self.fault.describe());
        m
    }
}

/// Whether `c` is white space.
pub open spec fn is_space(c: char) -> bool {
    let n = c as u32;
    ||| 0x9 <= n <= 0xd
    ||| n == 0x20
    ||| n == 0x85
    ||| n == 0xa0
    ||| n == 0x1680
    ||| 0x2000 <= n <= 0x200a
    ||| n == 0x2028
    ||| n == 0x2029
    ||| n == 0x202f
    ||| n == 0x205f
    ||| n == 0x3000
}

/// `s` without leading white space.
pub open spec fn trim_start(s: Seq<char>) -> Seq<char>
    decreases s.len(),
{
    if s.len() > 0 && is_space(s[0]) {
        trim_start(s.skip(1))
    } else {
        s
    }
}

/// `s` without trailing white space.
pub open spec fn trim_end(s: Seq<char>) -> Seq<char>
    decreases s.len(),
{
    if s.len() > 0 && is_space(s.last()) {
        trim_end(s.drop_last())
    } else {
        s
    }
}

/// `s` without surrounding white space.
pub open spec fn trimmed(s: Seq<char>) -> Seq<char> {
    trim_end(trim_start(s))
}

/// The value of a digit, in either case.
pub open spec fn digit_value(c: char, radix: int) -> Option<int> {
    let n = c as int;
    let d = if 0x30 <= n <= 0x39 {
        n - 0x30
    } else if 0x61 <= n <= 0x66 {
        n - 0x61 + 10
    } else if 0x41 <= n <= 0x46 {
        n - 0x41 + 10
    } else {
        radix
    };
    if d < radix {
        Some(d)
    } else {
        None
    }
}

/// The number that digits write, or what is wrong with the first that fails.
pub open spec fn number(digits: Seq<char>, radix: int) -> Result<int, NumberFault>
    decreases digits.len(),
{
    if digits.len() == 0 {
        Ok(0)
    } else {
        match number(digits.drop_last(), radix) {
            Err(f) => Err(f),
            Ok(n) => match digit_value(digits.last(), radix) {
                None => Err(NumberFault::InvalidDigit),
                Some(d) => if n * radix + d > u32::MAX {
                    Err(NumberFault::TooLarge)
                } else {
                    Ok(n * radix + d)
                },
            },
        }
    }
}

/// The number that digits behind an optional plus sign write.
pub open spec fn signed_number(s: Seq<char>, radix: int) -> Result<int, NumberFault> {
    if s.len() == 0 {
        Err(NumberFault::Empty)
    } else if s[0] != '+' {
        number(s, radix)
    } else if s.len() == 1 {
        Err(NumberFault::InvalidDigit)
    } else {
        number(s.skip(1), radix)
    }
}

/// Whether `s` starts as hexadecimal numbers do.
pub open spec fn has_hex_prefix(s: Seq<char>) -> bool {
    s.len() >= 2 && s[0] == '0' && (s[1] == 'x' || s[1] == 'X')
}

/// The 32-bit number that text writes: hexadecimal behind `0x` or `0X`, else
/// decimal. Surrounding white space does not count.
pub open spec fn parsed_u32(s: Seq<char>) -> Result<int, NumberFault> {
    let t = trimmed(s);
    if has_hex_prefix(t) {
        signed_number(t.skip(2), 16)
    } else {
        signed_number(t, 10)
    }
}

fn is_white_space(c: char) -> (r: bool)
    ensures
        r == is_space(c),
{
    let n: u32 = c as u32;
    (0x9 <= n && n <= 0xd) || n == 0x20 || n == 0x85 || n == 0xa0 || n == 0x1680 || (0x2000 <= n
        && n <= 0x200a) || n == 0x2028 || n == 0x2029 || n == 0x202f || n == 0x205f || n == 0x3000
}

/// Cuts surrounding white space.
fn trim(s: &str) -> (t: &str)
    ensures
        t@ == trimmed(s@),
{
    let n: usize = s.unicode_len();
    let mut from: usize = 0;
    assert(s@.skip(0) =~= s@);
    while from < n && is_white_space(s.get_char(from))
        invariant
            from <= n,
            n == s@.len(),
            trim_start(s@) == trim_start(s@.skip(from as int)),
        decreases n - from,
    {
        assert(s@.skip(from as int).skip(1) =~= s@.skip(from + 1));
        from = from + 1;
    }
    assert(trim_start(s@) == s@.skip(from as int));
    let mut to: usize = n;
    assert(s@.subrange(from as int, n as int) =~= s@.skip(from as int));
    while from < to && is_white_space(s.get_char(to - 1))
        invariant
            from <= to <= n,
            n == s@.len(),
            trim_end(s@.skip(from as int)) == trim_end(s@.subrange(from as int, to as int)),
        decreases to - from,
    {
        assert(s@.subrange(from as int, to as int).drop_last() =~= s@.subrange(
            from as int,
            to - 1,
        ));
        to = to - 1;
    }
    s.substring_char(from, to)
}

fn read_digit(c: char, radix: u32) -> (r: Option<u32>)
    requires
        radix == 10 || radix == 16,
    ensures
        match digit_value(c, radix as int) {
            Some(d) => r == Some(d as u32) && 0 <= d < radix,
            None => r is None,
        },
{
    let n: u32 = c as u32;
    let d: u32 = if 0x30 <= n && n <= 0x39 {
        n - 0x30
    } else if 0x61 <= n && n <= 0x66 {
        n - 0x61 + 10
    } else if 0x41 <= n && n <= 0x46 {
        n - 0x41 + 10
    } else {
        radix
    };
    if d < radix {
        Some(d)
    } else {
        None
    }
}

pub(crate) proof fn lemma_first_fault(digits: Seq<char>, n: int, radix: int)
    requires
        0 <= n <= digits.len(),
    ensures
        number(digits.take(n), radix) is Err ==> number(digits, radix) == number(
            digits.take(n),
            radix,
        ),
    decreases digits.len(),
{
    if n == digits.len() {
        assert(digits.take(n) =~= digits);
    } else {
        lemma_first_fault(digits.drop_last(), n, radix);
        assert(digits.drop_last().take(n) =~= digits.take(n));
    }
}

/// Reads the digits from `from` on.
fn read_number(s: &str, from: usize, radix: u32) -> (r: Result<u32, NumberFault>)
    requires
        from <= s@.len(),
        radix == 10 || radix == 16,
    ensures
        match number(s@.skip(from as int), radix as int) {
            Ok(n) => r == Ok::<u32, NumberFault>(n as u32) && 0 <= n <= u32::MAX,
            Err(f) => r == Err::<u32, NumberFault>(f),
        },
{
    let len: usize = s.unicode_len();
    let ghost digits = s@.skip(from as int);
    let mut n: u32 = 0;
    let mut i: usize = from;
    assert(digits.take(0).len() == 0);
    while i < len
        invariant
            from <= i <= len,
            len == s@.len(),
            digits == s@.skip(from as int),
            radix == 10 || radix == 16,
            number(digits.take(i - from), radix as int) == Ok::<int, NumberFault>(n as int),
        decreases len - i,
    {
        proof {
            let k = i - from;
            assert(digits.take(k + 1).drop_last() =~= digits.take(k));
            assert(digits.take(k + 1).last() == s@[i as int]);
            lemma_first_fault(digits, k + 1, radix as int);
        }
        let d: u32 = match read_digit(s.get_char(i), radix) {
            Some(d) => d,
            None => return Err(NumberFault::InvalidDigit),
        };
        let next: u64 = if radix == 16 {
            n as u64 * 16 + d as u64
        } else {
            n as u64 * 10 + d as u64
        };
        if next > u32::MAX as u64 {
            return Err(NumberFault::TooLarge);
        }
        n = next as u32;
        i = i + 1;
    }
    proof {
        assert(digits.take(i - from) =~= digits);
    }
    Ok(n)
}

/// Reads the digits from `from` on, behind an optional plus sign.
fn read_signed_number(s: &str, from: usize, radix: u32) -> (r: Result<u32, NumberFault>)
    requires
        from <= s@.len(),
        radix == 10 || radix == 16,
    ensures
        match signed_number(s@.skip(from as int), radix as int) {
            Ok(n) => r == Ok::<u32, NumberFault>(n as u32) && 0 <= n <= u32::MAX,
            Err(f) => r == Err::<u32, NumberFault>(f),
        },
{
    let len: usize = s.unicode_len();
    if from == len {
        return Err(NumberFault::Empty);
    }
    if s.get_char(from) != '+' {
        return read_number(s, from, radix);
    }
    if from + 1 == len {
        return Err(NumberFault::InvalidDigit);
    }
    assert(s@.skip(from as int).skip(1) =~= s@.skip(from + 1));
    read_number(s, from + 1, radix)
}

/// Parses a `0x`-hex or decimal address string.
pub fn parse_u32(s: &str) -> (r: Result<u32, NumberError>)
    ensures
        match parsed_u32(s@) {
            Ok(n) => r == Ok::<u32, NumberError>(n as u32) && 0 <= n <= u32::MAX,
            Err(f) => r is Err && r->Err_0.fault == f && r->Err_0.text@ == trimmed(s@),
        },
{
    let t: &str = trim(s);
    let r: Result<u32, NumberFault> = if t.unicode_len() >= 2 && t.get_char(0) == '0' && (
    t.get_char(1) == 'x' || t.get_char(1) == 'X') {
        read_signed_number(t, 2, 16)
    } else {
        assert(t@.skip(0) =~= t@);
        read_signed_number(t, 0, 10)
    };
    match r {
        Ok(n) => Ok(n),
        Err(fault) => Err(NumberError { text: t.to_string(), fault }),
    }
}

proof fn lemma_digits_written(n: nat, base: nat)
    requires
        base == 10 || base == 16,
        n <= u32::MAX,
    ensures
        crate::text::digits(n, base).len() > 0,
        number(crate::text::digits(n, base), base as int) == Ok::<int, NumberFault>(n as int),
        forall|i: int|
            0 <= i < crate::text::digits(n, base).len() ==> digit_value(
                #[trigger] crate::text::digits(n, base)[i],
                base as int,
            ) is Some,
    decreases n,
{
    reveal_strlit("0123456789abcdef");
    let s = crate::text::digits(n, base);
    if n < base {
        assert(number(s.drop_last(), base as int) == Ok::<int, NumberFault>(0));
        assert(digit_value(s.last(), base as int) == Some(n as int));
        assert(0 * base == 0);
    } else {
        assert(n / base < n) by (nonlinear_arith)
            requires
                base >= 2,
                n >= base,
        ;
        lemma_digits_written(n / base, base);
        assert(s.drop_last() =~= crate::text::digits(n / base, base));
        assert(digit_value(s.last(), base as int) == Some((n % base) as int));
        let q = (n / base) as int;
        assert(number(s.drop_last(), base as int) == Ok::<int, NumberFault>(q));
        assert(q * (base as int) + n % base == n) by (nonlinear_arith)
            requires
                base > 0,
                q == n / base,
        ;
    }
}

proof fn lemma_no_space(s: Seq<char>)
    requires
        s.len() > 0,
        !is_space(s[0]),
        !is_space(s.last()),
    ensures
        trimmed(s) == s,
{
}

/// Law: a number that is written in decimal is read back.
pub proof fn law_reads_decimal(n: u32)
    ensures
        parsed_u32(crate::text::decimal(n as nat)) == Ok::<int, NumberFault>(n as int),
{
    let s = crate::text::decimal(n as nat);
    lemma_digits_written(n as nat, 10);
    assert(digit_value(s[0], 10) is Some);
    assert(digit_value(s[s.len() - 1], 10) is Some);
    lemma_no_space(s);
    if s.len() >= 2 {
        assert(digit_value(s[1], 10) is Some);
    }
}

/// A letter in lower case; any other character as it is.
pub open spec fn lower_case(c: char) -> char {
    if 'A' <= c <= 'Z' {
        (c as u32 + 32) as char
    } else {
        c
    }
}

/// Whether `s` spells `n` in hexadecimal behind its prefix, each letter in either
/// case.
pub open spec fn spells_hex(s: Seq<char>, n: nat) -> bool {
    &&& s.len() == crate::text::hex(n).len()
    &&& forall|i: int|
        0 <= i < s.len() ==> lower_case(#[trigger] s[i]) == crate::text::hex(n)[i]
}

proof fn lemma_same_values(a: Seq<char>, b: Seq<char>, radix: int)
    requires
        a.len() == b.len(),
        forall|i: int|
            0 <= i < a.len() ==> digit_value(#[trigger] a[i], radix) == digit_value(b[i], radix),
    ensures
        number(a, radix) == number(b, radix),
    decreases a.len(),
{
    if a.len() > 0 {
        let c = a.drop_last();
        let d = b.drop_last();
        assert forall|i: int| 0 <= i < c.len() implies digit_value(#[trigger] c[i], radix)
            == digit_value(d[i], radix) by {
            assert(c[i] == a[i] && d[i] == b[i]);
        }
        lemma_same_values(c, d, radix);
        assert(digit_value(a[a.len() - 1], radix) == digit_value(b[b.len() - 1], radix));
    }
}

/// Law: a number that is written in hexadecimal is read back, with `0x` or `0X`
/// in front and digits of either case.
pub proof fn law_reads_hex(n: u32, s: Seq<char>)
    requires
        spells_hex(s, n as nat),
    ensures
        parsed_u32(s) == Ok::<int, NumberFault>(n as int),
{
    let plain = crate::text::hex(n as nat);
    let digits = crate::text::digits(n as nat, 16);
    let given = s.skip(2);
    reveal_strlit("0x");
    lemma_digits_written(n as nat, 16);
    assert(plain.skip(2) =~= digits);
    assert(plain[0] == '0' && plain[1] == 'x');
    assert(lower_case(s[0]) == '0' && lower_case(s[1]) == 'x');
    assert forall|i: int| 0 <= i < given.len() implies digit_value(#[trigger] given[i], 16)
        == digit_value(digits[i], 16) && digit_value(given[i], 16) is Some by {
        assert(given[i] == s[i + 2]);
        assert(lower_case(s[i + 2]) == plain[i + 2]);
        assert(plain[i + 2] == digits[i]);
        assert(digit_value(digits[i], 16) is Some);
    }
    lemma_same_values(given, digits, 16);
    assert(digit_value(given[0], 16) is Some);
    assert(digit_value(given[given.len() - 1], 16) is Some);
    assert(s.last() == given.last());
    lemma_no_space(s);
}

/// Law: what is written as hexadecimal text is one of its spellings.
pub proof fn law_hex_text_spells_itself(n: u32)
    ensures
        spells_hex(crate::text::hex(n as nat), n as nat),
{
    let plain = crate::text::hex(n as nat);
    let digits = crate::text::digits(n as nat, 16);
    reveal_strlit("0x");
    lemma_lower_digits(n as nat);
    assert forall|i: int| 0 <= i < plain.len() implies lower_case(#[trigger] plain[i])
        == plain[i] by {
        if i >= 2 {
            assert(plain[i] == digits[i - 2]);
        }
    }
}

proof fn lemma_lower_digits(n: nat)
    ensures
        forall|i: int|
            0 <= i < crate::text::digits(n, 16).len() ==> lower_case(
                #[trigger] crate::text::digits(n, 16)[i],
            ) == crate::text::digits(n, 16)[i],
    decreases n,
{
    reveal_strlit("0123456789abcdef");
    let s = crate::text::digits(n, 16);
    if n >= 16 {
        lemma_lower_digits(n / 16);
        assert forall|i: int| 0 <= i < s.len() implies lower_case(#[trigger] s[i]) == s[i] by {
            if i < s.len() - 1 {
                assert(s[i] == crate::text::digits(n / 16, 16)[i]);
            }
        }
    }
}

proof fn lemma_leading_space(space: Seq<char>, s: Seq<char>)
    requires
        forall|i: int| 0 <= i < space.len() ==> is_space(#[trigger] space[i]),
    ensures
        trim_start(space + s) == trim_start(s),
    decreases space.len(),
{
    if space.len() == 0 {
        assert(space + s =~= s);
    } else {
        let rest = space.skip(1);
        assert forall|i: int| 0 <= i < rest.len() implies is_space(#[trigger] rest[i]) by {
            assert(rest[i] == space[i + 1]);
        }
        lemma_leading_space(rest, s);
        assert((space + s)[0] == space[0]);
        assert((space + s).skip(1) =~= rest + s);
    }
}

proof fn lemma_trim_start_push(s: Seq<char>, c: char)
    requires
        is_space(c),
    ensures
        trim_start(s.push(c)) == if trim_start(s).len() == 0 {
            Seq::empty()
        } else {
            trim_start(s).push(c)
        },
    decreases s.len(),
{
    let t = s.push(c);
    if s.len() == 0 {
        assert(t.skip(1) =~= Seq::empty());
        assert(trim_start(t.skip(1)) == Seq::<char>::empty());
    } else if is_space(s[0]) {
        lemma_trim_start_push(s.skip(1), c);
        assert(t.skip(1) =~= s.skip(1).push(c));
        assert(t[0] == s[0]);
    } else {
        assert(t[0] == s[0]);
    }
}

proof fn lemma_trailing_space(s: Seq<char>, space: Seq<char>)
    requires
        forall|i: int| 0 <= i < space.len() ==> is_space(#[trigger] space[i]),
    ensures
        trimmed(s + space) == trimmed(s),
    decreases space.len(),
{
    if space.len() == 0 {
        assert(s + space =~= s);
    } else {
        let front = space.drop_last();
        let c = space[space.len() - 1];
        assert forall|i: int| 0 <= i < front.len() implies is_space(#[trigger] front[i]) by {
            assert(front[i] == space[i]);
        }
        lemma_trailing_space(s, front);
        assert(s + space =~= (s + front).push(c));
        lemma_trim_start_push(s + front, c);
        let t = trim_start(s + front);
        if t.len() > 0 {
            assert(t.push(c).drop_last() =~= t);
        } else {
            assert(t =~= Seq::empty());
        }
    }
}

/// Law: surrounding white space does not count.
pub proof fn law_white_space_does_not_count(before: Seq<char>, s: Seq<char>, after: Seq<char>)
    requires
        forall|i: int| 0 <= i < before.len() ==> is_space(#[trigger] before[i]),
        forall|i: int| 0 <= i < after.len() ==> is_space(#[trigger] after[i]),
    ensures
        parsed_u32(before + s + after) == parsed_u32(s),
{
    lemma_trailing_space(before + s, after);
    lemma_leading_space(before, s);
}

} // verus!
