//! Positional numerals of bases 2 to 36, as `num-bigint` reads them.
use crate::bigint::int_of;
use crate::error::ShareError;
use num_bigint::BigInt;
use vstd::prelude::*;

verus! {

/// The value of a digit character: `0`-`9`, then `a`-`z` or `A`-`Z` for
/// 10 to 35; 36 for any other character, which no base admits.
pub open spec fn digit_value(c: char) -> int {
    let v = c as u32;
    if 48 <= v <= 57 {
        v - 48
    } else if 97 <= v <= 122 {
        v - 97 + 10
    } else if 65 <= v <= 90 {
        v - 65 + 10
    } else {
        36
    }
}

/// A run of digits of `base`: not empty, not led by `_`, each character a
/// digit below `base` or a `_` separator.
pub open spec fn digits_ok(s: Seq<char>, base: int) -> bool {
    &&& s.len() > 0
    &&& s[0] != '_'
    &&& forall|i: int| 0 <= i < s.len() ==> s[i] == '_' || digit_value(#[trigger] s[i]) < base
}

/// The value of a run of digits, most significant first, `_` skipped.
pub open spec fn digits_value(s: Seq<char>, base: int) -> int
    decreases s.len(),
{
    if s.len() == 0 {
        0
    } else {
        let p = digits_value(s.drop_last(), base);
        if s.last() == '_' {
            p
        } else {
            p * base + digit_value(s.last())
        }
    }
}

/// A leading `-` marks a negative numeral, unless a `+` follows it.
pub open spec fn is_negative(s: Seq<char>) -> bool {
    s.len() > 0 && s[0] == '-' && !(s.len() > 1 && s[1] == '+')
}

/// Drops one leading `+`, unless a second `+` follows it.
pub open spec fn without_plus(s: Seq<char>) -> Seq<char> {
    if s.len() > 0 && s[0] == '+' && !(s.len() > 1 && s[1] == '+') {
        s.drop_first()
    } else {
        s
    }
}

/// The digits of a numeral, its sign taken off.
pub open spec fn magnitude_text(s: Seq<char>) -> Seq<char> {
    if is_negative(s) {
        without_plus(s.drop_first())
    } else {
        without_plus(s)
    }
}

/// `s` is a numeral of `base`.
pub open spec fn numeral_ok(s: Seq<char>, base: int) -> bool {
    digits_ok(magnitude_text(s), base)
}

/// The signed value of a numeral of `base`.
pub open spec fn numeral_value(s: Seq<char>, base: int) -> int {
    if is_negative(s) {
        -digits_value(magnitude_text(s), base)
    } else {
        digits_value(magnitude_text(s), base)
    }
}

/// A share value: an optional sign, then one or more digits of `base`, with
/// no `_` separator anywhere.
pub open spec fn share_numeral_ok(s: Seq<char>, base: int) -> bool {
    !s.contains('_') && numeral_ok(s, base)
}

/// Relies on `str::contains` with a `char` pattern: whether the character
/// occurs in the text.
#[verifier::external_body]
fn contains_char(s: &str, c: char) -> (r: bool)
    ensures
        r == s@.contains(c),
{
    s.contains(c)
}

/// Relies on `BigInt::parse_bytes`: the value of the numeral, or `None` where
/// the text is no numeral of the base. It panics on a base outside 2 to 36,
/// which `requires` rules out.
#[verifier::external_body]
fn parse_numeral(value: &str, base: u32) -> (r: Option<BigInt>)
    requires
        2 <= base <= 36,
    ensures
        r is Some <==> numeral_ok(value@, base as int),
        r is Some ==> int_of(r->Some_0) == numeral_value(value@, base as int),
{
    BigInt::parse_bytes(value.as_bytes(), base)
}

/// Decodes a share's value written in `base`. Only a sign and digits are
/// accepted: the `_` separators that `num-bigint` would skip are refused.
pub fn decode_in_base(value: &str, base: u32) -> (r: Result<BigInt, ShareError>)
    ensures
        r is Ok <==> (2 <= base <= 36 && share_numeral_ok(value@, base as int)),
        r is Ok ==> int_of(r->Ok_0) == numeral_value(value@, base as int),
        r is Err ==> r->Err_0 == ShareError::Decode,
{
    if base < 2 || base > 36 || contains_char(value, '_') {
        return Err(ShareError::Decode);
    }
    match parse_numeral(value, base) {
        Some(v) => Ok(v),
        None => Err(ShareError::Decode),
    }
}

} // verus!
