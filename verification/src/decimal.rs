//! Decimal numerals in ASCII, as the headers of the wire format write them.

use vstd::prelude::*;

verus! {

/// The byte `-`.
pub const MINUS: u8 = 45;

/// The byte `0`; the digit `d` is written as `ZERO + d`.
pub const ZERO: u8 = 48;

pub open spec fn is_digit(byte: u8) -> bool {
    48 <= byte <= 57
}

pub open spec fn all_digits(text: Seq<u8>) -> bool {
    forall|i: int| 0 <= i < text.len() ==> is_digit(#[trigger] text[i])
}

/// The shortest string of digits that writes `n`.
pub open spec fn digits(n: nat) -> Seq<u8>
    decreases n,
{
    if n < 10 {
        seq![(48 + n) as u8]
    } else {
        digits(n / 10).push((48 + n % 10) as u8)
    }
}

/// The canonical numeral of `n`: its digits, after a `-` when `n` is negative.
pub open spec fn decimal(n: int) -> Seq<u8> {
    if n < 0 {
        seq![45u8] + digits((-n) as nat)
    } else {
        digits(n as nat)
    }
}

/// The number that a string of digits writes, leading zeros allowed.
pub open spec fn digits_value(text: Seq<u8>) -> nat
    decreases text.len(),
{
    if text.len() == 0 {
        0
    } else {
        (digits_value(text.drop_last()) * 10 + (text.last() - 48)) as nat
    }
}

/// The integer that a numeral writes: an optional `-` and then one digit or
/// more. Anything else is no numeral.
pub open spec fn parse_decimal(text: Seq<u8>) -> Option<int> {
    if text.len() > 0 && text[0] == 45 {
        if text.len() > 1 && all_digits(text.skip(1)) {
            Some(-(digits_value(text.skip(1)) as int))
        } else {
            None
        }
    } else if text.len() > 0 && all_digits(text) {
        Some(digits_value(text) as int)
    } else {
        None
    }
}

/// The numeral's value where it is one and fits in 64 signed bits.
pub open spec fn parse_i64(text: Seq<u8>) -> Option<i64> {
    match parse_decimal(text) {
        Some(value) => if i64::MIN <= value <= i64::MAX {
            Some(value as i64)
        } else {
            None
        },
        None => None,
    }
}

/// The digits of a number are digits, and they write that number.
pub proof fn lemma_digits_value(n: nat)
    ensures
        digits(n).len() > 0,
        all_digits(digits(n)),
        digits_value(digits(n)) == n,
    decreases n,
{
    if n < 10 {
        assert(digits(n).drop_last() =~= Seq::<u8>::empty());
        assert(digits_value(digits(n).drop_last()) == 0);
    } else {
        lemma_digits_value(n / 10);
        assert(digits(n).drop_last() =~= digits(n / 10));
    }
}

/// Reading a canonical numeral gives back the number it was written from.
pub proof fn lemma_parse_decimal_of_decimal(n: int)
    ensures
        parse_decimal(decimal(n)) == Some(n),
{
    if n < 0 {
        lemma_digits_value((-n) as nat);
        assert(decimal(n).skip(1) =~= digits((-n) as nat));
    } else {
        lemma_digits_value(n as nat);
    }
}

/// A canonical numeral holds digits and `-` only.
pub proof fn lemma_decimal_bytes(n: int)
    ensures
        decimal(n).len() > 0,
        forall|i: int| 0 <= i < decimal(n).len() ==> is_digit(#[trigger] decimal(n)[i]) || decimal(n)[i] == 45,
{
    if n < 0 {
        lemma_digits_value((-n) as nat);
    } else {
        lemma_digits_value(n as nat);
    }
}

/// More digits never write a smaller number.
pub proof fn lemma_digits_value_prefix(text: Seq<u8>, k: int)
    requires
        0 <= k <= text.len(),
        all_digits(text),
    ensures
        digits_value(text.take(k)) <= digits_value(text),
    decreases text.len() - k,
{
    if k < text.len() {
        lemma_digits_value_prefix(text, k + 1);
        assert(text.take(k + 1).drop_last() =~= text.take(k));
        assert(is_digit(text[k]));
        assert(text.take(k + 1).last() == text[k]);
    } else {
        assert(text.take(k) =~= text);
    }
}

/// Appends the digits of `n` to `out`.
pub fn push_digits(out: &mut Vec<u8>, n: u64)
    ensures
        final(out)@ == old(out)@ + digits(n as nat),
    decreases n,
{
    if n >= 10 {
        push_digits(out, n / 10);
    }
    let digit: u8 = (n % 10) as u8;
    out.push(ZERO + digit);
    assert(out@ =~= old(out)@ + digits(n as nat));
}

/// Appends the canonical numeral of `n` to `out`.
pub fn push_decimal(out: &mut Vec<u8>, n: i64)
    ensures
        final(out)@ == old(out)@ + decimal(n as int),
{
    if n < 0 {
        out.push(MINUS);
        let magnitude: u64 = (-(n + 1)) as u64 + 1;
        push_digits(out, magnitude);
        assert(out@ =~= old(out)@ + decimal(n as int));
    } else {
        push_digits(out, n as u64);
    }
}

/// Appends the canonical numeral of a length to `out`.
pub fn push_length(out: &mut Vec<u8>, n: usize)
    ensures
        final(out)@ == old(out)@ + decimal(n as int),
{
    push_digits(out, n as u64);
}

/// Reads a numeral that fits in 64 signed bits; `None` for any other text.
pub fn read_i64(text: &[u8]) -> (number: Option<i64>)
    ensures
        number == parse_i64(text@),
{
    let n: usize = text.len();
    if n == 0 {
        return None;
    }
    let negative: bool = text[0] == MINUS;
    let start: usize = if negative { 1 } else { 0 };
    if start == n {
        return None;
    }
    let limit: u64 = if negative { 9223372036854775808 } else { 9223372036854775807 };
    let ghost body: Seq<u8> = text@.skip(start as int);
    let mut value: u64 = 0;
    let mut i: usize = start;
    assert(body.take(0) =~= Seq::<u8>::empty());
    while i < n
        invariant
            start <= i <= n,
            n == text.len(),
            body == text@.skip(start as int),
            all_digits(body.take(i - start)),
            value == digits_value(body.take(i - start)),
            value <= limit,
            limit == if negative { 9223372036854775808u64 } else { 9223372036854775807u64 },
            negative == (text@[0] == 45),
            start == if negative { 1usize } else { 0usize },
        decreases n - i,
    {
        let byte: u8 = text[i];
        if byte < 48 || byte > 57 {
            assert(!is_digit(body[i - start]));
            assert(!negative ==> body =~= text@);
            return None;
        }
        let digit: u64 = (byte - 48) as u64;
        proof {
            assert(body.take(i + 1 - start).drop_last() =~= body.take(i - start));
            assert(body.take(i + 1 - start).last() == byte);
            assert forall|j: int| 0 <= j < i + 1 - start implies is_digit(
                #[trigger] body.take(i + 1 - start)[j],
            ) by {
                if j < i - start {
                    assert(body.take(i - start)[j] == body.take(i + 1 - start)[j]);
                }
            }
        }
        if value > (limit - digit) / 10 {
            proof {
                assert(!negative ==> body =~= text@);
                if all_digits(body) {
                    lemma_digits_value_prefix(body, i + 1 - start);
                }
            }
            return None;
        }
        value = value * 10 + digit;
        i = i + 1;
    }
    assert(body.take(n - start) =~= body);
    if negative {
        if value == 9223372036854775808 {
            Some(i64::MIN)
        } else {
            Some(-(value as i64))
        }
    } else {
        assert(body =~= text@);
        Some(value as i64)
    }
}

} // verus!
