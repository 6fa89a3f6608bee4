use vstd::prelude::*;

verus! {

/// `s` is one or more ASCII decimal digits.
pub open spec fn is_digits(s: Seq<char>) -> bool {
    s.len() > 0 && forall|i: int| 0 <= i < s.len() ==> '0' <= #[trigger] s[i] <= '9'
}

/// The number that the decimal digits `s` write.
pub open spec fn digits_value(s: Seq<char>) -> nat
    decreases s.len(),
{
    if s.len() == 0 {
        0
    } else {
        digits_value(s.drop_last()) * 10 + ((s.last() as u32) - 48) as nat
    }
}

/// The `u64` that `s` writes as an optional `+` followed by decimal digits,
/// if it writes one in range.
pub open spec fn u64_text_value(s: Seq<char>) -> Option<u64> {
    let body = if s.len() > 0 && s[0] == '+' {
        s.drop_first()
    } else {
        s
    };
    if is_digits(body) && digits_value(body) <= u64::MAX {
        Some(digits_value(body) as u64)
    } else {
        None
    }
}

/// The `i64` that `s` writes as an optional `+` or `-` followed by decimal
/// digits, if it writes one in range.
pub open spec fn i64_text_value(s: Seq<char>) -> Option<i64> {
    if s.len() > 0 && s[0] == '-' {
        let body = s.drop_first();
        if is_digits(body) && digits_value(body) <= 0x8000_0000_0000_0000 {
            Some((-digits_value(body)) as i64)
        } else {
            None
        }
    } else {
        let body = if s.len() > 0 && s[0] == '+' {
            s.drop_first()
        } else {
            s
        };
        if is_digits(body) && digits_value(body) <= i64::MAX {
            Some(digits_value(body) as i64)
        } else {
            None
        }
    }
}

/// The message of the error that parsing `s` as a `u64` gives.
pub uninterp spec fn u64_parse_error_text(s: Seq<char>) -> Seq<char>;

/// The message of the error that parsing `s` as an `i64` gives.
pub uninterp spec fn i64_parse_error_text(s: Seq<char>) -> Seq<char>;

/// Parses a `u64` with `str::parse` (`<u64 as FromStr>::from_str`). Its
/// documentation accepts an optional `+` followed by decimal digits whose
/// value fits; anything else is an error, whose message is named here and
/// not stated.
#[verifier::external_body]
pub(crate) fn parse_u64_text(raw: &str) -> (r: Result<u64, String>)
    ensures
        match r {
            Ok(v) => u64_text_value(raw@) == Some(v),
            Err(m) => u64_text_value(raw@) is None && m@ == u64_parse_error_text(raw@),
        },
{
    match raw.parse::<u64>() {
        Ok(v) => Ok(v),
        Err(e) => Err(format!("{e}")),
    }
}

/// Parses an `i64` with `str::parse` (`<i64 as FromStr>::from_str`). Its
/// documentation accepts an optional `+` or `-` followed by decimal digits
/// whose value fits; anything else is an error, whose message is named here
/// and not stated.
#[verifier::external_body]
pub(crate) fn parse_i64_text(raw: &str) -> (r: Result<i64, String>)
    ensures
        match r {
            Ok(v) => i64_text_value(raw@) == Some(v),
            Err(m) => i64_text_value(raw@) is None && m@ == i64_parse_error_text(raw@),
        },
{
    match raw.parse::<i64>() {
        Ok(v) => Ok(v),
        Err(e) => Err(format!("{e}")),
    }
}

} // verus!
