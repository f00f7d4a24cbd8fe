//! Timestamps as the user writes them.

use vstd::prelude::*;
use vstd::string::*;

use crate::error::Error;
use crate::text::{
    all_digits, decimal, digits_u64, digits_value, holds_digits, is_digit, law_decimal_reads_back,
};

verus! {

/// The Unix milliseconds of an RFC 3339 text, if it is one.
pub uninterp spec fn rfc3339_millis(text: Seq<char>) -> Option<i64>;

/// Reads a text with chrono's `DateTime::parse_from_rfc3339` and counts the milliseconds since the
/// Unix epoch with `DateTime::timestamp_millis`. What they make of a text is named, not stated.
#[verifier::external_body]
fn read_rfc3339(text: &str) -> (r: Option<i64>)
    ensures
        r == rfc3339_millis(text@),
{
    chrono::DateTime::parse_from_rfc3339(text).ok().map(|time| time.timestamp_millis())
}

/// The error text for a text that is no timestamp.
pub open spec fn bad_timestamp(text: Seq<char>) -> Seq<char> {
    "Invalid timestamp \""@ + text + "\""@
}

/// The timestamp that a text writes: Unix milliseconds in decimal digits, or RFC 3339.
pub open spec fn timestamp_ms(text: Seq<char>, rfc3339: Option<i64>) -> Result<int, Seq<char>> {
    if !all_digits(text) {
        match rfc3339 {
            Some(millis) => Ok(millis as int),
            None => Err(bad_timestamp(text)),
        }
    } else if text.len() == 0 {
        Err(bad_timestamp(text) + ": "@ + "cannot parse integer from empty string"@)
    } else if digits_value(text) > i64::MAX {
        Err(bad_timestamp(text) + ": "@ + "number too large to fit in target type"@)
    } else {
        Ok(digits_value(text) as int)
    }
}

fn bad_timestamp_text(text: &str) -> (r: String)
    ensures
        r@ == bad_timestamp(text@),
{
    let mut message = "Invalid timestamp \"".to_owned();
    message.append(text);
    message.append("\"");
    message
}

/// The timestamp that a text writes, given what RFC 3339 makes of it; that counts only where the
/// text holds anything but digits.
pub fn timestamp_from(text: &str, rfc3339: Option<i64>) -> (r: Result<i64, Error>)
    ensures
        match r {
            Ok(millis) => timestamp_ms(text@, rfc3339) == Ok::<int, Seq<char>>(millis as int),
            Err(e) => timestamp_ms(text@, rfc3339) == Err::<int, Seq<char>>(e@),
        },
{
    if !holds_digits(text) {
        return match rfc3339 {
            Some(millis) => Ok(millis),
            None => Err(Error::new(bad_timestamp_text(text))),
        };
    }
    let detail = if text.is_empty() {
        "cannot parse integer from empty string"
    } else {
        match digits_u64(text) {
            Some(millis) => {
                if millis <= i64::MAX as u64 {
                    return Ok(millis as i64);
                }
                "number too large to fit in target type"
            },
            None => "number too large to fit in target type",
        }
    };
    let mut message = bad_timestamp_text(text);
    message.append(": ");
    message.append(detail);
    Err(Error::new(message))
}

/// Reads a timestamp: Unix milliseconds in decimal digits, or RFC 3339.
pub fn parse_timestamp_ms(text: &str) -> (r: Result<i64, Error>)
    ensures
        match r {
            Ok(millis) => timestamp_ms(text@, rfc3339_millis(text@)) == Ok::<int, Seq<char>>(
                millis as int,
            ),
            Err(e) => timestamp_ms(text@, rfc3339_millis(text@)) == Err::<int, Seq<char>>(e@),
        },
{
    timestamp_from(text, read_rfc3339(text))
}

/// The decimal text of Unix milliseconds is read as those milliseconds.
pub proof fn law_decimal_timestamp(millis: i64)
    requires
        millis >= 0,
    ensures
        timestamp_ms(decimal(millis as int), rfc3339_millis(decimal(millis as int))) == Ok::<
            int,
            Seq<char>,
        >(millis as int),
{
    law_decimal_reads_back(millis as nat);
}

/// A text of digits is the Unix milliseconds that the digits write, as far as they fit; a text
/// with any other character is the milliseconds of the RFC 3339 time that it writes; a text that
/// writes neither is refused.
pub proof fn law_timestamp_is_the_time_written(text: Seq<char>)
    ensures
        (exists|i: int| 0 <= i < text.len() && !('0' <= #[trigger] text[i] <= '9')) ==> match rfc3339_millis(
            text,
        ) {
            Some(millis) => timestamp_ms(text, rfc3339_millis(text)) == Ok::<int, Seq<char>>(
                millis as int,
            ),
            None => timestamp_ms(text, rfc3339_millis(text)) is Err,
        },
        text.len() > 0 && (forall|i: int|
            0 <= i < text.len() ==> '0' <= #[trigger] text[i] <= '9') ==> if digits_value(text)
            <= i64::MAX {
            timestamp_ms(text, rfc3339_millis(text)) == Ok::<int, Seq<char>>(
                digits_value(text) as int,
            )
        } else {
            timestamp_ms(text, rfc3339_millis(text)) is Err
        },
        text.len() == 0 ==> timestamp_ms(text, rfc3339_millis(text)) is Err,
{
    if exists|i: int| 0 <= i < text.len() && !('0' <= #[trigger] text[i] <= '9') {
        let i = choose|i: int| 0 <= i < text.len() && !('0' <= #[trigger] text[i] <= '9');
        assert(!is_digit(text[i]));
    }
}

} // verus!
