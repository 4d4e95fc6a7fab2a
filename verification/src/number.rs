//! Decimal integers: which texts denote one, and which one.

use vstd::prelude::*;

verus! {

/// Whether `c` is one of the ten decimal digits.
pub open spec fn is_digit(c: char) -> bool {
    '0' <= c <= '9'
}

/// The number that a decimal digit stands for.
pub open spec fn digit_value(c: char) -> int {
    c as int - '0' as int
}

/// Whether the text is a non-empty run of decimal digits.
pub open spec fn is_decimal(s: Seq<char>) -> bool {
    s.len() > 0 && forall|i: int| 0 <= i < s.len() ==> is_digit(#[trigger] s[i])
}

/// The number that a run of decimal digits denotes.
pub open spec fn decimal(digits: Seq<char>) -> int
    decreases digits.len(),
{
    if digits.len() == 0 {
        0
    } else {
        10 * decimal(digits.drop_last()) + digit_value(digits.last())
    }
}

/// The number that a text denotes: a non-empty run of decimal digits,
/// with one `-` in front of it or none. Any other text denotes no number;
/// a `+` in front is no sign.
pub open spec fn signed_decimal(s: Seq<char>) -> Option<int> {
    if s.len() > 0 && s[0] == '-' {
        if is_decimal(s.drop_first()) {
            Some(-decimal(s.drop_first()))
        } else {
            None
        }
    } else if is_decimal(s) {
        Some(decimal(s))
    } else {
        None
    }
}

/// The 64-bit signed integer that a text denotes, if it denotes a number
/// and that number fits.
pub open spec fn integer(s: Seq<char>) -> Option<i64> {
    match signed_decimal(s) {
        Some(n) => if i64::MIN <= n <= i64::MAX {
            Some(n as i64)
        } else {
            None
        },
        None => None,
    }
}

/// A run of digits denotes no less than any of its beginnings, and no
/// beginning denotes a negative number.
pub proof fn lemma_decimal_grows(digits: Seq<char>, k: int)
    requires
        0 <= k <= digits.len(),
        forall|i: int| 0 <= i < digits.len() ==> is_digit(#[trigger] digits[i]),
    ensures
        0 <= decimal(digits.take(k)) <= decimal(digits),
    decreases digits.len() - k,
{
    lemma_decimal_is_natural(digits.take(k));
    if k == digits.len() {
        assert(digits.take(k) =~= digits);
    } else {
        lemma_decimal_grows(digits, k + 1);
        assert(digits.take(k + 1).drop_last() =~= digits.take(k));
    }
}

/// A run of digits denotes no negative number.
pub proof fn lemma_decimal_is_natural(digits: Seq<char>)
    requires
        forall|i: int| 0 <= i < digits.len() ==> is_digit(#[trigger] digits[i]),
    ensures
        0 <= decimal(digits),
    decreases digits.len(),
{
    if digits.len() > 0 {
        lemma_decimal_is_natural(digits.drop_last());
    }
}

/// The number that `c` stands for, if it is a decimal digit.
pub fn digit_of(c: char) -> (digit: Option<u8>)
    ensures
        match digit {
            Some(d) => is_digit(c) && d == digit_value(c),
            None => !is_digit(c),
        },
{
    let code: u32 = c as u32;
    if 48 <= code && code <= 57 {
        Some((code - 48) as u8)
    } else {
        None
    }
}

/// The 64-bit signed integer that `chars` denotes, if any.
pub fn parse_integer(chars: &Vec<char>) -> (parsed: Option<i64>)
    ensures
        parsed == integer(chars@),
{
    let n = chars.len();
    let negative = n > 0 && chars[0] == '-';
    let start: usize = if negative {
        1
    } else {
        0
    };
    let ghost digits = chars@.skip(start as int);
    assert(start == 1 ==> digits =~= chars@.drop_first());
    assert(start == 0 ==> digits =~= chars@);
    if start == n {
        return None;
    }
    let mut value: i128 = 0;
    let mut i: usize = start;
    assert(digits.take(0) =~= Seq::<char>::empty());
    while i < n
        invariant
            start <= i <= n,
            n == chars.len(),
            digits == chars@.skip(start as int),
            signed_decimal(chars@) == if is_decimal(digits) {
                Some(
                    if negative {
                        -decimal(digits)
                    } else {
                        decimal(digits)
                    },
                )
            } else {
                None::<int>
            },
            forall|j: int| 0 <= j < i - start ==> is_digit(#[trigger] digits[j]),
            value == decimal(digits.take(i - start)),
            0 <= value <= 0x8000_0000_0000_0000,
        decreases n - i,
    {
        assert(digits[i - start] == chars[i as int]);
        let digit = match digit_of(chars[i]) {
            Some(digit) => digit,
            None => {
                return None;
            },
        };
        assert(digits.take(i - start + 1).drop_last() =~= digits.take(i - start));
        let next: i128 = 10 * value + digit as i128;
        if next > 0x8000_0000_0000_0000 {
            proof {
                if is_decimal(digits) {
                    lemma_decimal_grows(digits, i - start + 1);
                }
            }
            return None;
        }
        value = next;
        i = i + 1;
    }
    assert(digits.take(n - start) =~= digits);
    if negative {
        Some((-value) as i64)
    } else if value <= 0x7FFF_FFFF_FFFF_FFFF {
        Some(value as i64)
    } else {
        None
    }
}

} // verus!
