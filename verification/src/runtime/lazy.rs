//! A memoised integer reading of a text.

use vstd::prelude::*;
use crate::text::chars_of;

verus! {

/// True for the ten ASCII decimal digits.
pub open spec fn is_decimal_digit(c: char) -> bool {
    '0' <= c && c <= '9'
}

/// The number a decimal digit stands for.
pub open spec fn digit_value(c: char) -> int {
    c as int - '0' as int
}

/// The number written by a run of decimal digits, most significant first.
pub open spec fn decimal_value(digits: Seq<char>) -> int
    decreases digits.len(),
{
    if digits.len() == 0 {
        0
    } else {
        decimal_value(digits.drop_last()) * 10 + digit_value(digits.last())
    }
}

/// Every character of `s` is a decimal digit.
pub open spec fn all_decimal_digits(s: Seq<char>) -> bool {
    forall|i: int| 0 <= i < s.len() ==> is_decimal_digit(#[trigger] s[i])
}

/// True when `s` starts with a `+` or `-` sign.
pub open spec fn has_sign(s: Seq<char>) -> bool {
    s.len() > 0 && (s[0] == '-' || s[0] == '+')
}

/// The integer that `s` denotes: an optional sign, then at least one decimal
/// digit and nothing else, with a value that fits in 64 bits.
pub open spec fn parse_i64_spec(s: Seq<char>) -> Option<i64> {
    let digits = if has_sign(s) { s.skip(1) } else { s };
    let magnitude = decimal_value(digits);
    let value = if has_sign(s) && s[0] == '-' { -magnitude } else { magnitude };
    if digits.len() > 0 && all_decimal_digits(digits) && i64::MIN <= value <= i64::MAX {
        Some(value as i64)
    } else {
        None
    }
}

/// The number written by the first digits of a numeral is at most the
/// number written by all of them.
proof fn lemma_decimal_prefix(digits: Seq<char>, k: int)
    requires
        0 <= k <= digits.len(),
        all_decimal_digits(digits),
    ensures
        0 <= decimal_value(digits.take(k)) <= decimal_value(digits),
    decreases digits.len() - k,
{
    if k == digits.len() {
        assert(digits.take(k) =~= digits);
        lemma_decimal_nonnegative(digits);
    } else {
        lemma_decimal_prefix(digits, k + 1);
        assert(digits.take(k + 1).drop_last() =~= digits.take(k));
        assert(digits.take(k + 1).last() == digits[k]);
        lemma_decimal_nonnegative(digits.take(k));
    }
}

/// A numeral writes no negative number.
proof fn lemma_decimal_nonnegative(digits: Seq<char>)
    requires
        all_decimal_digits(digits),
    ensures
        0 <= decimal_value(digits),
    decreases digits.len(),
{
    if digits.len() > 0 {
        assert(all_decimal_digits(digits.drop_last())) by {
            assert forall|i: int| 0 <= i < digits.drop_last().len() implies is_decimal_digit(
                #[trigger] digits.drop_last()[i],
            ) by {
                assert(digits.drop_last()[i] == digits[i]);
            }
        }
        lemma_decimal_nonnegative(digits.drop_last());
        assert(is_decimal_digit(digits[digits.len() - 1]));
    }
}

/// The integer that `raw` denotes: an optional sign, then decimal digits
/// only, within 64 bits.
#[verifier::loop_isolation(false)]
pub fn parse_i64(raw: &str) -> (res: Option<i64>)
    ensures
        res == parse_i64_spec(raw@),
{
    let chars = chars_of(raw);
    let n = chars.len();
    if n == 0 {
        return None;
    }
    let negative = chars[0] == '-';
    let signed = negative || chars[0] == '+';
    let start: usize = if signed {
        1
    } else {
        0
    };
    let ghost digits = if signed {
        chars@.skip(1)
    } else {
        chars@
    };
    if start >= n {
        return None;
    }
    let mut magnitude: u128 = 0;
    let mut i: usize = start;
    proof {
        assert(digits.take(0) =~= Seq::<char>::empty());
        assert(digits =~= chars@.skip(start as int));
    }
    while i < n
        invariant
            start <= i <= n,
            n == chars@.len(),
            digits == chars@.skip(start as int),
            all_decimal_digits(digits.take(i - start)),
            magnitude == decimal_value(digits.take(i - start)),
            magnitude <= 9223372036854775808,
        decreases n - i,
    {
        let c = chars[i];
        let ghost seen = digits.take(i - start);
        let ghost more = digits.take(i - start + 1);
        proof {
            assert(more.drop_last() =~= seen);
            assert(more.last() == c);
        }
        if !(c >= '0' && c <= '9') {
            proof {
                assert(digits[i - start] == c);
            }
            return None;
        }
        let digit: u128 = (c as u32 - '0' as u32) as u128;
        let next: u128 = magnitude * 10 + digit;
        proof {
            assert forall|k: int| 0 <= k < more.len() implies is_decimal_digit(#[trigger] more[k]) by {
                if k < seen.len() {
                    assert(more[k] == seen[k]);
                }
            }
            assert(next == decimal_value(more));
        }
        if next > 9223372036854775808 {
            proof {
                if all_decimal_digits(digits) {
                    lemma_decimal_prefix(digits, i - start + 1);
                }
            }
            return None;
        }
        magnitude = next;
        i = i + 1;
    }
    proof {
        assert(digits.take(n - start) =~= digits);
    }
    if negative {
        if magnitude == 9223372036854775808 {
            Some(i64::MIN)
        } else {
            Some(-(magnitude as i64))
        }
    } else if magnitude == 9223372036854775808 {
        None
    } else {
        Some(magnitude as i64)
    }
}

/// The unsigned integer that `s` denotes: an optional `+`, then at least
/// one decimal digit and nothing else, with a value that fits in 64 bits.
pub open spec fn parse_u64_spec(s: Seq<char>) -> Option<u64> {
    let plus = s.len() > 0 && s[0] == '+';
    let digits = if plus {
        s.skip(1)
    } else {
        s
    };
    let value = decimal_value(digits);
    if digits.len() > 0 && all_decimal_digits(digits) && value <= u64::MAX {
        Some(value as u64)
    } else {
        None
    }
}

/// The unsigned integer that `raw` denotes: an optional `+`, then decimal
/// digits only, within 64 bits.
#[verifier::loop_isolation(false)]
pub fn parse_u64(raw: &str) -> (res: Option<u64>)
    ensures
        res == parse_u64_spec(raw@),
{
    let chars = chars_of(raw);
    let n = chars.len();
    if n == 0 {
        return None;
    }
    let plus = chars[0] == '+';
    let start: usize = if plus {
        1
    } else {
        0
    };
    let ghost digits = if plus {
        chars@.skip(1)
    } else {
        chars@
    };
    if start >= n {
        return None;
    }
    let mut magnitude: u128 = 0;
    let mut i: usize = start;
    proof {
        assert(digits.take(0) =~= Seq::<char>::empty());
        assert(digits =~= chars@.skip(start as int));
    }
    while i < n
        invariant
            start <= i <= n,
            n == chars@.len(),
            digits == chars@.skip(start as int),
            all_decimal_digits(digits.take(i - start)),
            magnitude == decimal_value(digits.take(i - start)),
            magnitude <= u64::MAX,
        decreases n - i,
    {
        let c = chars[i];
        let ghost seen = digits.take(i - start);
        let ghost more = digits.take(i - start + 1);
        proof {
            assert(more.drop_last() =~= seen);
            assert(more.last() == c);
        }
        if !(c >= '0' && c <= '9') {
            proof {
                assert(digits[i - start] == c);
            }
            return None;
        }
        let digit: u128 = (c as u32 - '0' as u32) as u128;
        let next: u128 = magnitude * 10 + digit;
        proof {
            assert forall|k: int| 0 <= k < more.len() implies is_decimal_digit(#[trigger] more[k]) by {
                if k < seen.len() {
                    assert(more[k] == seen[k]);
                }
            }
            assert(next == decimal_value(more));
        }
        if next > 18446744073709551615 {
            proof {
                if all_decimal_digits(digits) {
                    lemma_decimal_prefix(digits, i - start + 1);
                }
            }
            return None;
        }
        magnitude = next;
        i = i + 1;
    }
    proof {
        assert(digits.take(n - start) =~= digits);
    }
    Some(magnitude as u64)
}

/// What a [`LazyParse`] remembers.
#[derive(Debug)]
pub enum LazyParseValue<T: Copy> {
    NotParsed,
    Parsed(T),
    Failed,
}

/// A cell that remembers the outcome of parsing a text, until discarded.
#[derive(Debug)]
pub struct LazyParse<T: Copy> {
    pub value: LazyParseValue<T>,
}

impl<T: Copy> Clone for LazyParseValue<T> {
    fn clone(&self) -> (res: Self)
        ensures
            res == *self,
    {
        match self {
            LazyParseValue::NotParsed => LazyParseValue::NotParsed,
            LazyParseValue::Parsed(value) => LazyParseValue::Parsed(*value),
            LazyParseValue::Failed => LazyParseValue::Failed,
        }
    }
}

impl<T: Copy> Copy for LazyParseValue<T> {

}

impl<T: Copy> Clone for LazyParse<T> {
    fn clone(&self) -> (res: Self)
        ensures
            res == *self,
    {
        LazyParse { value: self.value }
    }
}

impl<T: Copy> LazyParse<T> {
    /// An empty cell.
    pub fn new() -> (res: Self)
        ensures
            res.value is NotParsed,
    {
        Self { value: LazyParseValue::NotParsed }
    }

    /// Forgets the remembered outcome.
    pub fn discard(&mut self)
        ensures
            final(self).value is NotParsed,
    {
        self.value = LazyParseValue::NotParsed;
    }
}

impl LazyParse<i64> {
    /// The cell agrees with `text`: it is empty or holds the outcome of parsing `text`.
    pub open spec fn agrees_with(&self, text: Seq<char>) -> bool {
        match self.value {
            LazyParseValue::NotParsed => true,
            LazyParseValue::Parsed(v) => parse_i64_spec(text) == Some(v),
            LazyParseValue::Failed => parse_i64_spec(text) is None,
        }
    }

    /// What the cell holds after `try_parse` on `text`.
    pub open spec fn filled(&self, text: Seq<char>) -> LazyParseValue<i64> {
        match self.value {
            LazyParseValue::NotParsed => match parse_i64_spec(text) {
                Some(v) => LazyParseValue::Parsed(v),
                None => LazyParseValue::Failed,
            },
            other => other,
        }
    }

    /// What `try_parse` returns on `text`.
    pub open spec fn outcome(&self, text: Seq<char>) -> Option<i64> {
        match self.value {
            LazyParseValue::NotParsed => parse_i64_spec(text),
            LazyParseValue::Parsed(v) => Some(v),
            LazyParseValue::Failed => None,
        }
    }

    /// Returns the remembered outcome, parsing `raw` only when the cell is empty.
    pub fn try_parse(&mut self, raw: &str) -> (res: Option<i64>)
        ensures
            res == old(self).outcome(raw@),
            final(self).value == old(self).filled(raw@),
            old(self).agrees_with(raw@) ==> res == parse_i64_spec(raw@) && final(self).agrees_with(raw@),
    {
        match self.value {
            LazyParseValue::Parsed(v) => Some(v),
            LazyParseValue::Failed => None,
            LazyParseValue::NotParsed => {
                let res = parse_i64(raw);
                match res {
                    Some(v) => { self.value = LazyParseValue::Parsed(v); },
                    None => { self.value = LazyParseValue::Failed; },
                }
                res
            },
        }
    }
}

} // verus!
