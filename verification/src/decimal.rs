//! Decimal text of signed 64-bit integers, as the staking attributes hold it.

use vstd::prelude::*;

verus! {

/// The ASCII character of a decimal digit `d < 10`.
pub open spec fn digit_char(d: nat) -> char {
    (48 + d) as char
}

/// `c` is one of `'0'` ..= `'9'`.
pub open spec fn is_digit(c: char) -> bool {
    48 <= (c as int) <= 57
}

/// The numeric value of a digit character.
pub open spec fn digit_value(c: char) -> nat {
    ((c as int) - 48) as nat
}

/// Every character of `s` is a decimal digit.
pub open spec fn all_digits(s: Seq<char>) -> bool {
    forall|i: int| 0 <= i < s.len() ==> is_digit(#[trigger] s[i])
}

/// The value of a string of decimal digits, most significant first.
pub open spec fn digits_value(s: Seq<char>) -> nat
    decreases s.len(),
{
    if s.len() == 0 {
        0
    } else {
        digits_value(s.drop_last()) * 10 + digit_value(s.last())
    }
}

/// The shortest decimal digits of `n` (no leading zeros; `"0"` for zero).
pub open spec fn nat_digits(n: nat) -> Seq<char>
    decreases n,
{
    if n < 10 {
        seq![digit_char(n)]
    } else {
        nat_digits(n / 10).push(digit_char(n % 10))
    }
}

/// The decimal text of `x`: its digits, preceded by `-` when `x` is negative.
pub open spec fn i64_decimal(x: i64) -> Seq<char> {
    if x < 0 {
        seq!['-'] + nat_digits((-x) as nat)
    } else {
        nat_digits(x as nat)
    }
}

/// What reading `s` as an `i64` gives: an optional `+` or `-` sign followed
/// by one or more decimal digits and nothing else, whose value fits in `i64`.
pub open spec fn parse_i64_spec(s: Seq<char>) -> Option<i64> {
    let negative = s.len() > 0 && s[0] == '-';
    let signed = s.len() > 0 && (s[0] == '-' || s[0] == '+');
    let body = if signed { s.drop_first() } else { s };
    if body.len() == 0 || !all_digits(body) {
        None
    } else {
        let v: int = if negative { -(digits_value(body) as int) } else { digits_value(body) as int };
        if i64::MIN <= v <= i64::MAX {
            Some(v as i64)
        } else {
            None
        }
    }
}

/// Reads `s` as a decimal `i64` with `str::parse::<i64>`.
///
/// Trusted: std documents that an integer is read from an optional `+` or
/// `-` sign followed by digits only, and that an empty string, any other
/// character or a value out of range is an error; the contract states that.
#[verifier::external_body]
pub(crate) fn parse_i64(s: &str) -> (r: Option<i64>)
    ensures
        r == parse_i64_spec(s@),
{
    s.parse::<i64>().ok()
}

/// Writes `x` in decimal with `ToString::to_string`.
///
/// Trusted: the `Display` of an integer is its decimal digits without
/// leading zeros, preceded by `-` when it is negative.
#[verifier::external_body]
pub(crate) fn i64_to_decimal(x: i64) -> (r: String)
    ensures
        r@ == i64_decimal(x),
{
    x.to_string()
}

proof fn lemma_nat_digits(n: nat)
    ensures
        nat_digits(n).len() > 0,
        all_digits(nat_digits(n)),
        digits_value(nat_digits(n)) == n,
    decreases n,
{
    if n < 10 {
        let s = nat_digits(n);
        assert(s.drop_last() =~= Seq::<char>::empty());
        assert(digits_value(s.drop_last()) == 0);
        assert(digit_value(digit_char(n)) == n);
        assert(digits_value(s) == n);
    } else {
        lemma_nat_digits(n / 10);
        let s = nat_digits(n);
        assert(s.drop_last() =~= nat_digits(n / 10));
        assert(digit_value(digit_char(n % 10)) == n % 10);
        assert(digits_value(s) == digits_value(nat_digits(n / 10)) * 10 + n % 10);
        assert(all_digits(s)) by {
            assert forall|i: int| 0 <= i < s.len() implies is_digit(#[trigger] s[i]) by {
                if i < s.len() - 1 {
                    assert(s[i] == nat_digits(n / 10)[i]);
                }
            }
        }
    }
}

/// Reading back the decimal text of any `i64` gives that same integer: the
/// time stamp in the attribute list a claim computes (and discards) is read
/// exactly by a claim on that list.
pub proof fn lemma_decimal_round_trip(x: i64)
    ensures
        parse_i64_spec(i64_decimal(x)) == Some(x),
{
    if x < 0 {
        let m = (-x) as nat;
        lemma_nat_digits(m);
        let s = i64_decimal(x);
        assert(s[0] == '-');
        assert(s.drop_first() =~= nat_digits(m));
    } else {
        let m = x as nat;
        lemma_nat_digits(m);
        let s = nat_digits(m);
        assert(is_digit(s[0]));
    }
}

} // verus!
