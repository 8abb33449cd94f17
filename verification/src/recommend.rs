//! Helpers of the recommendation pipeline that consumes the notifications.
//!
//! The pipeline groups what it hears into six-hour buckets and reads a
//! movie's year out of its release date; both computations are plain
//! functions of their inputs and are verified here.

use vstd::prelude::*;

use crate::emit::TimeParts;
use crate::emit::digit_char;
use crate::emit::pad2;
use crate::emit::spec_pad2;
use crate::emit::spec_year_str;
use crate::emit::year_str;

verus! {

/// Whether `c` is a decimal digit.
pub open spec fn is_ascii_digit(c: char) -> bool {
    '0' as int <= c as int <= '9' as int
}

/// The value of the digit `c` (meaningful only when `is_ascii_digit`).
pub open spec fn digit_value(c: char) -> int {
    c as int - '0' as int
}

/// The year encoded in the first four characters of a release date such as
/// `YYYY-MM-DD`: the four digits read as a number, or nothing when the
/// string is shorter than four characters or one of them is not a digit.
pub open spec fn spec_release_year(s: Seq<char>) -> Option<u16> {
    if s.len() >= 4 && is_ascii_digit(s[0]) && is_ascii_digit(s[1]) && is_ascii_digit(s[2])
        && is_ascii_digit(s[3]) {
        Some(
            (digit_value(s[0]) * 1000 + digit_value(s[1]) * 100 + digit_value(s[2]) * 10
                + digit_value(s[3])) as u16,
        )
    } else {
        None
    }
}

/// Pulls the year out of an optional release date: the leading four digits,
/// if they are there.
pub fn year_from_release_date(d: &Option<String>) -> (r: Option<u16>)
    ensures
        r == (match d {
            Some(s) => spec_release_year(s@),
            None => None::<u16>,
        }),
{
    match d {
        Some(s) => {
            let str = s.as_str();
            let n = str.unicode_len();
            if n < 4 {
                return None;
            }
            let d0 = digit_of(str.get_char(0));
            let d1 = digit_of(str.get_char(1));
            let d2 = digit_of(str.get_char(2));
            let d3 = digit_of(str.get_char(3));
            match (d0, d1, d2, d3) {
                (Some(a), Some(b), Some(c), Some(e)) => Some(
                    a * 1000 + b * 100 + c * 10 + e,
                ),
                _ => None,
            }
        },
        None => None,
    }
}

/// The value of a digit character, or nothing for any other character.
fn digit_of(c: char) -> (r: Option<u16>)
    ensures
        r is Some <==> is_ascii_digit(c),
        r is Some ==> r->0 == digit_value(c) && r->0 <= 9,
{
    let v = c as u32;
    if 48 <= v && v <= 57 {
        Some((v - 48) as u16)
    } else {
        None
    }
}

/// The tag of the six-hour bucket a calendar time falls in:
/// `YYYY-MM-DDTHHZ` with the hour rounded down to 0, 6, 12 or 18.
pub open spec fn spec_bucket_tag(t: TimeParts) -> Seq<char> {
    spec_year_str(t.year as int) + seq!['-'] + spec_pad2(t.month as int) + seq!['-'] + spec_pad2(
        t.day as int,
    ) + seq!['T'] + spec_pad2((t.hour as int / 6) * 6) + seq!['Z']
}

/// Prints the six-hour bucket tag of a calendar time.
pub fn six_hour_bucket_tag(t: &TimeParts) -> (r: String)
    requires
        t.wf(),
    ensures
        r@ == spec_bucket_tag(*t),
{
    proof {
        reveal_strlit("-");
        reveal_strlit("T");
        reveal_strlit("Z");
    }
    let bucket = (t.hour / 6) * 6;
    let r = year_str(t.year).concat("-").concat(pad2(t.month as u64).as_str()).concat(
        "-",
    ).concat(pad2(t.day as u64).as_str()).concat("T").concat(pad2(bucket as u64).as_str()).concat(
        "Z",
    );
    proof {
        assert(r@ =~= spec_bucket_tag(*t));
    }
    r
}

} // verus!
