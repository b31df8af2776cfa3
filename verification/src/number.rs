//! Decimal numbers as the cursor stream holds them.

use vstd::prelude::*;
use crate::text::to_chars;

verus! {

/// `c` is one of the decimal digits `0` to `9`.
pub open spec fn is_digit(c: char) -> bool {
    '0' <= c <= '9'
}

/// The number that the decimal digits `digits` write.
pub open spec fn decimal_value(digits: Seq<char>) -> nat
    decreases digits.len(),
{
    if digits.len() == 0 {
        0
    } else {
        (decimal_value(digits.drop_last()) * 10 + (digits.last() as nat - '0' as nat)) as nat
    }
}

/// `digits` is not empty and holds decimal digits only.
pub open spec fn is_decimal(digits: Seq<char>) -> bool {
    &&& digits.len() > 0
    &&& forall|i: int| 0 <= i < digits.len() ==> is_digit(#[trigger] digits[i])
}

/// The number that a line of a cursor stream holds: decimal digits, with
/// one `+` before them at most, that write a number the machine can hold.
/// Anything else, white space included, is no number.
pub open spec fn parse_number(text: Seq<char>) -> Option<usize> {
    let digits = if text.len() > 0 && text[0] == '+' {
        text.drop_first()
    } else {
        text
    };
    if is_decimal(digits) && decimal_value(digits) <= usize::MAX {
        Some(decimal_value(digits) as usize)
    } else {
        None
    }
}

/// The decimal digits that write `n`, without leading zeros.
pub open spec fn decimal_digits(n: nat) -> Seq<char>
    decreases n,
{
    if n < 10 {
        seq![(n + '0' as nat) as char]
    } else {
        decimal_digits(n / 10).push((n % 10 + '0' as nat) as char)
    }
}

/// The value of a number's digits does not shrink as more digits follow.
proof fn lemma_decimal_value_grows(digits: Seq<char>, n: int)
    requires
        0 <= n <= digits.len(),
        forall|i: int| 0 <= i < digits.len() ==> is_digit(#[trigger] digits[i]),
    ensures
        decimal_value(digits.take(n)) <= decimal_value(digits),
    decreases digits.len() - n,
{
    if n < digits.len() {
        assert(digits.take(n + 1).drop_last() =~= digits.take(n));
        assert(is_digit(digits[n]));
        assert(digits.take(n + 1).last() == digits[n]);
        lemma_decimal_value_grows(digits, n + 1);
    } else {
        assert(digits.take(n) =~= digits);
    }
}

/// What `decimal_digits` writes is read back as the same number.
pub proof fn lemma_digits_round_trip(n: nat)
    ensures
        is_decimal(decimal_digits(n)),
        decimal_value(decimal_digits(n)) == n,
        n <= usize::MAX ==> parse_number(decimal_digits(n)) == Some(n as usize),
    decreases n,
{
    let digits = decimal_digits(n);
    if n < 10 {
        assert(digits.drop_last() =~= Seq::<char>::empty());
        assert(decimal_value(digits.drop_last()) == 0);
        assert(digits.last() == (n + '0' as nat) as char);
    } else {
        lemma_digits_round_trip(n / 10);
        assert(digits.drop_last() =~= decimal_digits(n / 10));
        assert(digits.last() == (n % 10 + '0' as nat) as char);
        assert forall|i: int| 0 <= i < digits.len() implies is_digit(#[trigger] digits[i]) by {
            if i < digits.len() - 1 {
                assert(digits[i] == decimal_digits(n / 10)[i]);
            }
        }
    }
    assert(digits[0] != '+') by {
        assert(is_digit(digits[0]));
    }
}

/// Reads the number that `text` holds.
pub fn read_number(text: &str) -> (r: Option<usize>)
    ensures
        r == parse_number(text@),
{
    let chars = to_chars(text);
    let start: usize = if chars.len() > 0 && chars[0] == '+' {
        1
    } else {
        0
    };
    let ghost digits = if text@.len() > 0 && text@[0] == '+' {
        text@.drop_first()
    } else {
        text@
    };
    proof {
        assert(digits =~= chars@.skip(start as int));
    }
    if start == chars.len() {
        return None;
    }
    let mut value: usize = 0;
    let mut i: usize = start;
    while i < chars.len()
        invariant
            start <= i <= chars@.len(),
            start < chars@.len(),
            chars@ == text@,
            digits == chars@.skip(start as int),
            digits == (if text@.len() > 0 && text@[0] == '+' {
                text@.drop_first()
            } else {
                text@
            }),
            forall|j: int| 0 <= j < i - start ==> is_digit(#[trigger] digits[j]),
            value == decimal_value(digits.take(i - start)),
        decreases chars@.len() - i,
    {
        let c = chars[i];
        proof {
            assert(digits[i - start] == c);
            assert(digits.take(i - start + 1).drop_last() =~= digits.take(i - start));
            assert(digits.take(i - start + 1).last() == c);
        }
        if !('0' <= c && c <= '9') {
            return None;
        }
        let digit: usize = (c as u8 - '0' as u8) as usize;
        let next = match value.checked_mul(10) {
            Some(tens) => tens.checked_add(digit),
            None => None,
        };
        match next {
            Some(n) => {
                value = n;
            },
            None => {
                proof {
                    if is_decimal(digits) {
                        lemma_decimal_value_grows(digits, i - start + 1);
                    }
                }
                return None;
            },
        }
        i += 1;
    }
    proof {
        assert(digits.take(digits.len() as int) =~= digits);
    }
    Some(value)
}

/// Writes `n` in decimal digits.
pub fn write_number(n: usize) -> (r: String)
    ensures
        r@ == decimal_digits(n as nat),
{
    let mut reversed: Vec<char> = Vec::new();
    let mut rest: usize = n;
    while rest >= 10
        invariant
            decimal_digits(n as nat) == decimal_digits(rest as nat) + reversed@.reverse(),
        decreases rest,
    {
        let digit: u8 = (rest % 10) as u8;
        let c: char = (digit + '0' as u8) as char;
        proof {
            let tail = reversed@.reverse();
            assert(reversed@.push(c).reverse() =~= seq![c] + tail);
            assert(decimal_digits(rest as nat) == decimal_digits((rest / 10) as nat).push(c));
            assert(decimal_digits((rest / 10) as nat).push(c) + tail =~= decimal_digits(
                (rest / 10) as nat,
            ) + (seq![c] + tail));
        }
        reversed.push(c);
        rest = rest / 10;
    }
    let first: char = (rest as u8 + '0' as u8) as char;
    let mut r = String::new();
    r.push(first);
    let mut i: usize = reversed.len();
    while i > 0
        invariant
            i <= reversed@.len(),
            r@ == seq![first] + reversed@.reverse().take(reversed@.len() - i),
        decreases i,
    {
        i -= 1;
        proof {
            let back = reversed@.reverse();
            let k = reversed@.len() - i - 1;
            assert(back[k] == reversed@[i as int]);
            assert(back.take(k + 1) =~= back.take(k).push(back[k]));
            assert((seq![first] + back.take(k)).push(back[k]) =~= seq![first] + back.take(k + 1));
        }
        r.push(reversed[i]);
    }
    proof {
        let back = reversed@.reverse();
        assert(back.take(back.len() as int) =~= back);
        assert(decimal_digits(rest as nat) =~= seq![first]);
    }
    r
}

} // verus!
