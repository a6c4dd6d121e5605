//! Whole numbers written in decimal.

use vstd::prelude::*;
use crate::text::chars_of;

verus! {

/// Whether `c` is one of the digits `0` to `9`.
pub open spec fn is_digit(c: char) -> bool {
    0x30 <= c as u32 <= 0x39
}

/// Whether `s` holds digits only.
pub open spec fn all_digits(s: Seq<char>) -> bool {
    forall|i: int| 0 <= i < s.len() ==> is_digit(#[trigger] s[i])
}

/// The number that the digits `s` write.
pub open spec fn digits_value(s: Seq<char>) -> int
    decreases s.len(),
{
    if s.len() == 0 {
        0
    } else {
        digits_value(s.drop_last()) * 10 + (s.last() as u32 - 0x30)
    }
}

/// The number that `s` writes: an optional sign, then one digit or more,
/// and nothing else; `None` where `s` is not of that form or the number
/// does not fit.
pub open spec fn decimal(s: Seq<char>) -> Option<i64> {
    let signed = s.len() > 0 && (s[0] == '-' || s[0] == '+');
    let digits = if signed {
        s.skip(1)
    } else {
        s
    };
    let value = if s.len() > 0 && s[0] == '-' {
        -digits_value(digits)
    } else {
        digits_value(digits)
    };
    if digits.len() > 0 && all_digits(digits) && i64::MIN <= value <= i64::MAX {
        Some(value as i64)
    } else {
        None
    }
}

proof fn lemma_value_not_negative(s: Seq<char>)
    requires
        all_digits(s),
    ensures
        digits_value(s) >= 0,
    decreases s.len(),
{
    if s.len() > 0 {
        assert(is_digit(s[s.len() - 1]));
        assert(all_digits(s.drop_last())) by {
            assert forall|i: int| 0 <= i < s.drop_last().len() implies is_digit(
                #[trigger] s.drop_last()[i],
            ) by {
                assert(is_digit(s[i]));
            }
        }
        lemma_value_not_negative(s.drop_last());
    }
}

proof fn lemma_value_grows(s: Seq<char>, k: int)
    requires
        all_digits(s),
        0 <= k <= s.len(),
    ensures
        digits_value(s.take(k)) <= digits_value(s),
    decreases s.len() - k,
{
    if k < s.len() {
        lemma_value_grows(s, k + 1);
        let longer = s.take(k + 1);
        assert(longer.drop_last() == s.take(k));
        assert(is_digit(s[k]));
        assert(all_digits(s.take(k))) by {
            assert forall|i: int| 0 <= i < s.take(k).len() implies is_digit(#[trigger] s.take(k)[i]) by {
                assert(is_digit(s[i]));
            }
        }
        lemma_value_not_negative(s.take(k));
    } else {
        assert(s.take(k) == s);
    }
}

/// Reads a whole number of minutes from `s`.
pub fn parse_minutes(s: &str) -> (result: Option<i64>)
    ensures
        result == decimal(s@),
{
    let v = chars_of(s);
    let n: usize = v.len();
    let mut negative = false;
    let mut first: usize = 0;
    if n > 0 && (v[0] == '-' || v[0] == '+') {
        negative = v[0] == '-';
        first = 1;
    }
    if first == n {
        return None;
    }
    let ghost digits = v@.skip(first as int);
    let mut i: usize = first;
    let mut acc: u128 = 0;
    while i < n
        invariant
            first <= i <= n,
            n == v.len(),
            v@ == s@,
            digits == v@.skip(first as int),
            digits == if s@.len() > 0 && (s@[0] == '-' || s@[0] == '+') {
                s@.skip(1)
            } else {
                s@
            },
            all_digits(digits.take(i - first)),
            acc == digits_value(digits.take(i - first)),
            acc <= 9_223_372_036_854_775_808,
        decreases n - i,
    {
        let c: char = v[i];
        let code: u32 = c as u32;
        assert(digits[i - first] == c);
        if code < 0x30 || code > 0x39 {
            assert(!is_digit(digits[i - first]));
            return None;
        }
        let d: u128 = (code - 0x30) as u128;
        let next: u128 = acc * 10 + d;
        let ghost longer = digits.take(i + 1 - first);
        assert(longer.drop_last() == digits.take(i - first));
        assert(longer.last() == c);
        assert(next == digits_value(longer));
        assert(all_digits(longer)) by {
            assert forall|j: int| 0 <= j < longer.len() implies is_digit(#[trigger] longer[j]) by {
                if j < i - first {
                    assert(is_digit(digits.take(i - first)[j]));
                }
            }
        }
        if next > 9_223_372_036_854_775_808 {
            proof {
                if all_digits(digits) {
                    lemma_value_grows(digits, i + 1 - first);
                }
            }
            return None;
        }
        acc = next;
        i += 1;
    }
    assert(digits.take(n - first) == digits);
    if negative {
        if acc == 9_223_372_036_854_775_808 {
            Some(i64::MIN)
        } else {
            Some(-(acc as i64))
        }
    } else if acc == 9_223_372_036_854_775_808 {
        None
    } else {
        Some(acc as i64)
    }
}

} // verus!
