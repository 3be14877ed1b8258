//! Decimal text as the quote provider writes prices and volumes.
use vstd::prelude::*;

verus! {

pub open spec fn is_digit(c: char) -> bool {
    '0' <= c && c <= '9'
}

pub open spec fn digit_value(c: char) -> nat {
    ((c as u32) - ('0' as u32)) as nat
}

/// The number spelled by the decimal digits of `s`, other characters skipped.
pub open spec fn digits_value(s: Seq<char>) -> nat
    decreases s.len(),
{
    if s.len() == 0 {
        0
    } else if is_digit(s.last()) {
        digits_value(s.drop_last()) * 10 + digit_value(s.last())
    } else {
        digits_value(s.drop_last())
    }
}

pub open spec fn digit_count(s: Seq<char>) -> nat
    decreases s.len(),
{
    if s.len() == 0 {
        0
    } else if is_digit(s.last()) {
        digit_count(s.drop_last()) + 1
    } else {
        digit_count(s.drop_last())
    }
}

pub open spec fn dot_count(s: Seq<char>) -> nat
    decreases s.len(),
{
    if s.len() == 0 {
        0
    } else if s.last() == '.' {
        dot_count(s.drop_last()) + 1
    } else {
        dot_count(s.drop_last())
    }
}

/// How many characters follow the decimal point (0 when there is none).
pub open spec fn frac_len(s: Seq<char>) -> nat
    decreases s.len(),
{
    if s.len() == 0 {
        0
    } else if dot_count(s.drop_last()) > 0 {
        frac_len(s.drop_last()) + 1
    } else {
        0
    }
}

/// Digits with at most one decimal point and at least one digit
/// (`"10"`, `"10.5000"`, `".5"`, `"7."`).
pub open spec fn is_decimal_text(s: Seq<char>) -> bool {
    &&& forall|i: int| 0 <= i < s.len() ==> is_digit(#[trigger] s[i]) || s[i] == '.'
    &&& dot_count(s) <= 1
    &&& digit_count(s) >= 1
}

/// A non-negative decimal number: `mantissa / 10^scale`, kept exactly as written.
#[derive(Clone, Copy, Debug, PartialEq, Eq, Structural)]
pub struct Price {
    pub mantissa: u64,
    pub scale: usize,
}

impl Price {
    pub open spec fn zero_spec() -> Price {
        Price { mantissa: 0, scale: 0 }
    }

    pub fn zero() -> (r: Price)
        ensures
            r == Price::zero_spec(),
    {
        Price { mantissa: 0, scale: 0 }
    }
}

/// The price that decimal text denotes; `None` when the text is not decimal
/// or its digits do not fit in a `u64`.
pub open spec fn price_of(s: Seq<char>) -> Option<Price> {
    if is_decimal_text(s) && digits_value(s) <= u64::MAX {
        Some(Price { mantissa: digits_value(s) as u64, scale: frac_len(s) as usize })
    } else {
        None
    }
}

/// The digits after an optional leading `+`.
pub open spec fn count_body(s: Seq<char>) -> Seq<char> {
    if s.len() > 0 && s[0] == '+' {
        s.skip(1)
    } else {
        s
    }
}

/// The unsigned count that text denotes: an optional `+`, then one or more
/// digits whose value fits in a `u64`.
pub open spec fn count_of(s: Seq<char>) -> Option<u64> {
    let body = count_body(s);
    if body.len() > 0 && (forall|i: int| 0 <= i < body.len() ==> is_digit(#[trigger] body[i]))
        && digits_value(body) <= u64::MAX {
        Some(digits_value(body) as u64)
    } else {
        None
    }
}

proof fn lemma_prefix_bounds(s: Seq<char>, i: int)
    requires
        0 <= i <= s.len(),
    ensures
        digits_value(s.take(i)) <= digits_value(s),
        dot_count(s.take(i)) <= dot_count(s),
    decreases s.len(),
{
    if i < s.len() {
        assert(s.drop_last().take(i) =~= s.take(i));
        lemma_prefix_bounds(s.drop_last(), i);
        assert(digits_value(s.drop_last()) <= digits_value(s)) by (nonlinear_arith)
            requires
                is_digit(s.last()) ==> digits_value(s) == digits_value(s.drop_last()) * 10
                    + digit_value(s.last()),
                !is_digit(s.last()) ==> digits_value(s) == digits_value(s.drop_last()),
        ;
    } else {
        assert(s.take(i) =~= s);
    }
}

/// Reads the digit at hand onto an accumulated value; `None` past `u64::MAX`.
fn push_digit(acc: u64, c: char) -> (r: Option<u64>)
    requires
        is_digit(c),
    ensures
        acc * 10 + digit_value(c) <= u64::MAX ==> r == Some((acc * 10 + digit_value(c)) as u64),
        acc * 10 + digit_value(c) > u64::MAX ==> r is None,
{
    let d = ((c as u32) - ('0' as u32)) as u64;
    match acc.checked_mul(10) {
        None => None,
        Some(m) => m.checked_add(d),
    }
}

/// Parses a price written as decimal text.
pub fn parse_price(s: &str) -> (r: Option<Price>)
    ensures
        r == price_of(s@),
{
    let n = s.unicode_len();
    let mut i: usize = 0;
    let mut mantissa: u64 = 0;
    let mut scale: usize = 0;
    let mut seen_dot = false;
    let mut seen_digit = false;
    while i < n
        invariant
            n == s@.len(),
            i <= n,
            scale <= i,
            forall|j: int| 0 <= j < i ==> is_digit(#[trigger] s@[j]) || s@[j] == '.',
            mantissa == digits_value(s@.take(i as int)),
            scale == frac_len(s@.take(i as int)),
            seen_dot == (dot_count(s@.take(i as int)) > 0),
            dot_count(s@.take(i as int)) <= 1,
            seen_digit == (digit_count(s@.take(i as int)) > 0),
        decreases n - i,
    {
        let c = s.get_char(i);
        let ghost p = s@.take(i as int);
        let ghost q = s@.take(i + 1);
        assert(q.drop_last() =~= p);
        assert(q.last() == c);
        if '0' <= c && c <= '9' {
            match push_digit(mantissa, c) {
                Some(m) => {
                    mantissa = m;
                },
                None => {
                    proof {
                        lemma_prefix_bounds(s@, i + 1);
                    }
                    return None;
                },
            }
            seen_digit = true;
        } else if c == '.' {
            if seen_dot {
                proof {
                    lemma_prefix_bounds(s@, i + 1);
                }
                return None;
            }
        } else {
            assert(!(is_digit(s@[i as int]) || s@[i as int] == '.'));
            return None;
        }
        if seen_dot {
            scale = scale + 1;
        }
        if c == '.' {
            seen_dot = true;
        }
        i = i + 1;
    }
    assert(s@.take(n as int) =~= s@);
    if !seen_digit {
        return None;
    }
    Some(Price { mantissa, scale })
}

/// Parses an unsigned count written in decimal, with an optional leading `+`.
pub fn parse_count(s: &str) -> (r: Option<u64>)
    ensures
        r == count_of(s@),
{
    let n = s.unicode_len();
    let start: usize = if n > 0 && s.get_char(0) == '+' {
        1
    } else {
        0
    };
    let ghost body = count_body(s@);
    assert(body =~= s@.subrange(start as int, n as int));
    if start == n {
        return None;
    }
    let mut i: usize = start;
    let mut value: u64 = 0;
    while i < n
        invariant
            n == s@.len(),
            start <= i <= n,
            body =~= s@.subrange(start as int, n as int),
            body == count_body(s@),
            forall|j: int| 0 <= j < i - start ==> is_digit(#[trigger] body[j]),
            value == digits_value(body.take(i - start)),
        decreases n - i,
    {
        let c = s.get_char(i);
        let ghost k = i - start;
        assert(body.take(k + 1).drop_last() =~= body.take(k));
        assert(body.take(k + 1).last() == c);
        if '0' <= c && c <= '9' {
            match push_digit(value, c) {
                Some(m) => {
                    value = m;
                },
                None => {
                    proof {
                        lemma_prefix_bounds(body, k + 1);
                    }
                    return None;
                },
            }
        } else {
            assert(!is_digit(body[k]));
            return None;
        }
        i = i + 1;
    }
    assert(body.take(n - start) =~= body);
    Some(value)
}

} // verus!
