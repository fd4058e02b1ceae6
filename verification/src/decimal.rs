//! Port numbers in decimal.

use vstd::prelude::*;

use crate::text::chars_of;

verus! {

/// The digit for `d`.
pub open spec fn digit(d: nat) -> char
    recommends
        d < 10,
{
    (48 + d) as char
}

/// Whether `c` is a decimal digit.
pub open spec fn is_digit(c: char) -> bool {
    '0' <= c <= '9'
}

/// `n` in decimal, without leading zeros.
pub open spec fn decimal(n: nat) -> Seq<char>
    decreases n,
{
    if n < 10 {
        seq![digit(n)]
    } else {
        decimal(n / 10).push(digit(n % 10))
    }
}

/// The number that `digits` write.
pub open spec fn number(digits: Seq<char>) -> nat
    decreases digits.len(),
{
    if digits.len() == 0 {
        0
    } else {
        number(digits.drop_last()) * 10 + (digits.last() as nat - 48) as nat
    }
}

/// Whether `text` is at least one digit and nothing else.
pub open spec fn is_digits(text: Seq<char>) -> bool {
    text.len() > 0 && forall|i: int| 0 <= i < text.len() ==> is_digit(#[trigger] text[i])
}

/// `text` without the plus sign that it may begin with.
pub open spec fn unsigned(text: Seq<char>) -> Seq<char> {
    if text.len() > 0 && text[0] == '+' {
        text.skip(1)
    } else {
        text
    }
}

/// The port number that `text` writes: digits, with a plus sign before them or
/// without, for a number that fits.
pub open spec fn port_number(text: Seq<char>) -> Option<u16> {
    let digits = unsigned(text);
    if is_digits(digits) && number(digits) <= u16::MAX {
        Some(number(digits) as u16)
    } else {
        None
    }
}

proof fn lemma_number_of_prefix(digits: Seq<char>, n: int)
    requires
        0 <= n <= digits.len(),
        is_digits(digits),
    ensures
        number(digits.take(n)) <= number(digits),
    decreases digits.len() - n,
{
    if n == digits.len() {
        assert(digits.take(n) == digits);
    } else {
        lemma_number_of_prefix(digits, n + 1);
        assert(digits.take(n + 1).drop_last() == digits.take(n));
        assert(is_digit(digits[n]));
    }
}

/// Reads a port number.
pub fn parse_port(text: &str) -> (port: Option<u16>)
    ensures
        port == port_number(text@),
{
    let chars = chars_of(text);
    let start: usize = if chars.len() > 0 && chars[0] == '+' {
        1
    } else {
        0
    };
    let ghost digits = unsigned(text@);
    assert(text@.skip(0) == text@);
    assert(digits == chars@.skip(start as int));
    if start == chars.len() {
        return None;
    }
    let mut value: u32 = 0;
    let mut i: usize = start;
    assert(digits.take(0) == Seq::<char>::empty());
    while i < chars.len()
        invariant
            start <= i <= chars.len(),
            chars@ == text@,
            digits == unsigned(text@),
            digits == chars@.skip(start as int),
            digits.len() > 0,
            forall|j: int| 0 <= j < i - start ==> is_digit(#[trigger] digits[j]),
            value == number(digits.take(i - start)),
            value <= u16::MAX,
        decreases chars.len() - i,
    {
        let c = chars[i];
        assert(digits[i - start] == c);
        if c < '0' || c > '9' {
            assert(!is_digit(digits[i - start]));
            return None;
        }
        assert(digits.take(i - start + 1).drop_last() == digits.take(i - start));
        value = value * 10 + (c as u32 - 48);
        if value > 65535 {
            proof {
                if is_digits(digits) {
                    lemma_number_of_prefix(digits, i - start + 1);
                }
            }
            return None;
        }
        i = i + 1;
    }
    assert(digits.take(i - start) == digits);
    Some(value as u16)
}

/// Appends `n` in decimal to `out`.
pub fn push_decimal(out: &mut String, n: u16)
    ensures
        final(out)@ == old(out)@ + decimal(n as nat),
    decreases n,
{
    if n >= 10 {
        push_decimal(out, n / 10);
    }
    out.push((48u8 + (n % 10) as u8) as char);
}

/// A number in decimal is made of digits, which write that number.
pub proof fn lemma_decimal_is_digits(n: nat)
    ensures
        is_digits(decimal(n)),
        number(decimal(n)) == n,
    decreases n,
{
    if n < 10 {
        assert(decimal(n).drop_last() == Seq::<char>::empty());
        assert(number(decimal(n).drop_last()) == 0);
    } else {
        lemma_decimal_is_digits(n / 10);
        assert(decimal(n).drop_last() == decimal(n / 10));
    }
}

/// A port number that has been written out is read back as it was.
pub proof fn law_port_numbers_read_back(n: u16)
    ensures
        port_number(decimal(n as nat)) == Some(n),
{
    lemma_decimal_is_digits(n as nat);
    assert(is_digit(decimal(n as nat)[0]));
}

/// A number below ten is one digit; a longer one is the number without its last
/// digit, and then that digit.
pub proof fn law_decimal_digits(n: nat, last: nat)
    requires
        last < 10,
    ensures
        decimal(last) == seq![(48 + last) as char],
        n > 0 ==> decimal(10 * n + last) == decimal(n).push((48 + last) as char),
{
    if n > 0 {
        assert((10 * n + last) / 10 == n);
        assert((10 * n + last) % 10 == last);
    }
}

/// A port number is read digit by digit: each digit behind the others makes it
/// ten times as large and adds itself, as long as it fits. A plus sign may come
/// first. Anything else is no port number, and nothing behind it makes it one.
pub proof fn law_port_numbers_are_read_by_digits(text: Seq<char>, c: char)
    ensures
        port_number(seq![]) is None,
        port_number(seq!['+']) is None,
        '0' <= c <= '9' ==> {
            &&& port_number(seq![c]) == Some((c as u32 - 48) as u16)
            &&& port_number(seq!['+', c]) == Some((c as u32 - 48) as u16)
            &&& port_number(text) matches Some(n) ==> port_number(text.push(c)) == (if n * 10 + (
            c as u32 - 48) <= 65535 {
                Some((n * 10 + (c as u32 - 48)) as u16)
            } else {
                None
            })
            &&& port_number(text) is None && text.len() > 0 && text != seq!['+'] ==> port_number(
                text.push(c),
            ) is None
        },
        !('0' <= c <= '9') ==> port_number(text.push(c)) is None,
{
    assert(seq!['+'].skip(1) == Seq::<char>::empty());
    assert(seq!['+', c].skip(1) == seq![c]);
    assert(seq![c].drop_last() == Seq::<char>::empty());
    assert(number(seq![c].drop_last()) == 0);
    if '0' <= c <= '9' {
        assert(is_digits(seq![c]));
        assert(number(seq![c]) == c as nat - 48);
    }
    let digits = unsigned(text);
    let longer = text.push(c);
    if text.len() > 0 {
        if text[0] == '+' {
            assert(longer.skip(1) == digits.push(c));
        }
        assert(unsigned(longer) == digits.push(c));
        assert(digits.push(c).drop_last() == digits);
        assert(digits.push(c).last() == c);
        if is_digits(digits) && '0' <= c <= '9' {
            assert forall|i: int| 0 <= i < digits.push(c).len() implies is_digit(
                #[trigger] digits.push(c)[i],
            ) by {
                if i < digits.len() {
                    assert(digits.push(c)[i] == digits[i]);
                }
            }
            assert(number(digits.push(c)) == number(digits) * 10 + (c as nat - 48) as nat);
        }
        if is_digits(digits.push(c)) {
            assert(is_digit(digits.push(c)[digits.len() as int]));
            assert forall|i: int| 0 <= i < digits.len() implies is_digit(#[trigger] digits[i]) by {
                assert(digits.push(c)[i] == digits[i]);
            }
            if digits.len() == 0 {
                assert(text == seq!['+']);
            }
        }
    } else {
        assert(longer == seq![c]);
        if c == '+' {
            assert(longer.skip(1) == Seq::<char>::empty());
        } else if !('0' <= c <= '9') {
            assert(!is_digit(longer[0]));
        }
    }
}

} // verus!
