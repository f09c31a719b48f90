//! The wall clock, read through the `time` crate.

use vstd::prelude::*;

verus! {

/// Whether a character is an ASCII decimal digit.
pub open spec fn is_digit(c: char) -> bool {
    '0' <= c && c <= '9'
}

/// Whether `t` from `start` on holds `n` decimal digits.
pub open spec fn digits_at(t: Seq<char>, start: int, n: int) -> bool {
    &&& 0 <= start
    &&& start + n <= t.len()
    &&& forall|i: int| start <= i < start + n ==> #[trigger] is_digit(t[i])
}

/// Whether `t`, from `start` to its end, is `-MM-DD hh:mm:ss` with two
/// digits each.
pub open spec fn is_date_time_tail(t: Seq<char>, start: int) -> bool {
    &&& t.len() == start + 15
    &&& t[start] == '-'
    &&& digits_at(t, start + 1, 2)
    &&& t[start + 3] == '-'
    &&& digits_at(t, start + 4, 2)
    &&& t[start + 6] == ' '
    &&& digits_at(t, start + 7, 2)
    &&& t[start + 9] == ':'
    &&& digits_at(t, start + 10, 2)
    &&& t[start + 12] == ':'
    &&& digits_at(t, start + 13, 2)
}

/// Whether `t` reads as a timestamp `YYYY-MM-DD hh:mm:ss`: a year of four
/// to six digits, with a sign before it where the year needs one, then
/// month, day, hour, minute and second of two digits each.
pub open spec fn is_timestamp(t: Seq<char>) -> bool {
    exists|sign: int, year: int|
        #![trigger digits_at(t, sign, year)]
        {
            &&& (sign == 0 || (sign == 1 && (t[0] == '-' || t[0] == '+')))
            &&& 4 <= year <= 6
            &&& digits_at(t, sign, year)
            &&& is_date_time_tail(t, sign + year)
        }
}

/// The current UTC date and time as text: calls `time::OffsetDateTime::now_utc`
/// and formats the result with `format`, a `time` format description,
/// falling back to the date-time's own `Display` text if the description
/// does not parse or formatting fails. The time itself is not stated, as it
/// depends on the clock; for the description
/// `[year]-[month]-[day] [hour]:[minute]:[second]` the text has the shape of
/// a timestamp: that description parses, its components are zero-padded by
/// default, the year is written with four digits (five or six, with a sign,
/// only outside the years -9999 to 9999) and a `-` before a negative year,
/// and formatting a date-time with it into memory does not fail.
#[verifier::external_body]
fn current_timestamp_text(format: &str) -> (r: String)
    ensures
        format@ == "[year]-[month]-[day] [hour]:[minute]:[second]"@ ==> is_timestamp(r@),
{
    let now = time::OffsetDateTime::now_utc();
    match time::format_description::parse(format) {
        Ok(format) => match now.format(&format) {
            Ok(text) => text,
            Err(_) => now.to_string(),
        },
        Err(_) => now.to_string(),
    }
}

/// The current UTC date and time as `YYYY-MM-DD hh:mm:ss`, the text that
/// `now()` and `current_timestamp()` give.
pub(crate) fn now_text() -> (r: String)
    ensures
        is_timestamp(r@),
{
    current_timestamp_text("[year]-[month]-[day] [hour]:[minute]:[second]")
}

} // verus!
