//! The notification emitter.
//!
//! A promoted path becomes a `(name, timestamp)` notification: `name` is the
//! last path segment, `timestamp` the current wall-clock local time printed
//! in the fixed-width form `YYYY-MM-DD HH:MM:SS`. Only the clock reading
//! itself is trusted; the formatting and the name derivation are verified.

use vstd::prelude::*;

use chrono::Datelike;
use chrono::Timelike;

use crate::debounce::DebounceEngine;
use crate::debounce::RawInput;
use crate::debounce::spec_step;

verus! {

/// A wall-clock instant broken into calendar and time-of-day fields.
pub struct TimeParts {
    /// Proleptic Gregorian year; may be negative.
    pub year: i32,
    /// Month, `1 ..= 12`.
    pub month: u32,
    /// Day of month, `1 ..= 31`.
    pub day: u32,
    /// Hour, `0 ..= 23`.
    pub hour: u32,
    /// Minute, `0 ..= 59`.
    pub minute: u32,
    /// Second, `0 ..= 59`.
    pub second: u32,
}

impl TimeParts {
    /// Field ranges of a calendar time.
    pub open spec fn wf(self) -> bool {
        &&& 1 <= self.month <= 12
        &&& 1 <= self.day <= 31
        &&& self.hour < 24
        &&& self.minute < 60
        &&& self.second < 60
    }
}

/// Relies on `chrono::Local::now` and its `Datelike` / `Timelike`
/// accessors: chrono documents month in `1 ..= 12`, day in `1 ..= 31`,
/// hour in `0 ..= 23`, minute and second in `0 ..= 59`.
#[verifier::external_body]
fn local_now_parts() -> (r: TimeParts)
    ensures
        r.wf(),
{
    let t = chrono::Local::now();
    TimeParts {
        year: t.year(),
        month: t.month(),
        day: t.day(),
        hour: t.hour(),
        minute: t.minute(),
        second: t.second(),
    }
}

/// The decimal digit character for `d` (meaningful for `0 <= d < 10`).
pub open spec fn digit_char(d: int) -> char {
    if d == 0 {
        '0'
    } else if d == 1 {
        '1'
    } else if d == 2 {
        '2'
    } else if d == 3 {
        '3'
    } else if d == 4 {
        '4'
    } else if d == 5 {
        '5'
    } else if d == 6 {
        '6'
    } else if d == 7 {
        '7'
    } else if d == 8 {
        '8'
    } else {
        '9'
    }
}

/// One decimal digit as a string slice.
fn digit_str(d: u64) -> (r: &'static str)
    requires
        d < 10,
    ensures
        r@ == seq![digit_char(d as int)],
{
    proof {
        reveal_strlit("0");
        reveal_strlit("1");
        reveal_strlit("2");
        reveal_strlit("3");
        reveal_strlit("4");
        reveal_strlit("5");
        reveal_strlit("6");
        reveal_strlit("7");
        reveal_strlit("8");
        reveal_strlit("9");
    }
    let r = match d {
        0 => "0",
        1 => "1",
        2 => "2",
        3 => "3",
        4 => "4",
        5 => "5",
        6 => "6",
        7 => "7",
        8 => "8",
        _ => "9",
    };
    proof {
        assert(r@ =~= seq![digit_char(d as int)]);
    }
    r
}

/// The decimal digits of `n`, most significant first, no leading zero
/// (a single `'0'` for zero).
pub open spec fn spec_dec_digits(n: nat) -> Seq<char>
    decreases n,
{
    if n < 10 {
        seq![digit_char(n as int)]
    } else {
        spec_dec_digits(n / 10).push(digit_char((n % 10) as int))
    }
}

/// The decimal form of `n`.
pub fn dec_digits(n: u64) -> (r: String)
    ensures
        r@ == spec_dec_digits(n as nat),
    decreases n,
{
    if n < 10 {
        String::from_str(digit_str(n))
    } else {
        let rest = dec_digits(n / 10);
        let r = rest.concat(digit_str(n % 10));
        proof {
            assert(r@ =~= spec_dec_digits((n / 10) as nat).push(digit_char((n % 10) as int)));
        }
        r
    }
}

/// The decimal form of `n`, zero-padded on the left to at least 4 digits.
pub open spec fn spec_pad4(n: nat) -> Seq<char> {
    if n < 10 {
        seq!['0', '0', '0'] + spec_dec_digits(n)
    } else if n < 100 {
        seq!['0', '0'] + spec_dec_digits(n)
    } else if n < 1000 {
        seq!['0'] + spec_dec_digits(n)
    } else {
        spec_dec_digits(n)
    }
}

/// `n` zero-padded to at least 4 decimal digits.
pub fn pad4(n: u64) -> (r: String)
    ensures
        r@ == spec_pad4(n as nat),
{
    proof {
        reveal_strlit("000");
        reveal_strlit("00");
        reveal_strlit("0");
        reveal_strlit("");
    }
    let digits = dec_digits(n);
    let prefix = if n < 10 {
        "000"
    } else if n < 100 {
        "00"
    } else if n < 1000 {
        "0"
    } else {
        ""
    };
    let r = String::from_str(prefix).concat(digits.as_str());
    proof {
        assert(r@ =~= spec_pad4(n as nat));
    }
    r
}

/// The two decimal digits of `n` (meaningful for `n < 100`).
pub open spec fn spec_pad2(n: int) -> Seq<char> {
    seq![digit_char(n / 10), digit_char(n % 10)]
}

/// `n` as exactly two decimal digits.
pub fn pad2(n: u64) -> (r: String)
    requires
        n < 100,
    ensures
        r@ == spec_pad2(n as int),
{
    let r = String::from_str(digit_str(n / 10)).concat(digit_str(n % 10));
    proof {
        assert(r@ =~= spec_pad2(n as int));
    }
    r
}

/// The year field of a timestamp: the absolute value zero-padded to 4
/// digits, with a leading minus sign for negative years.
pub open spec fn spec_year_str(y: int) -> Seq<char> {
    if y < 0 {
        seq!['-'] + spec_pad4((-y) as nat)
    } else {
        spec_pad4(y as nat)
    }
}

/// The year as it appears in a timestamp.
pub fn year_str(y: i32) -> (r: String)
    ensures
        r@ == spec_year_str(y as int),
{
    proof {
        reveal_strlit("-");
    }
    if y < 0 {
        let magnitude: u64 = (-(y as i64)) as u64;
        let r = String::from_str("-").concat(pad4(magnitude).as_str());
        proof {
            assert(r@ =~= spec_year_str(y as int));
        }
        r
    } else {
        pad4(y as u64)
    }
}

/// A calendar time in the fixed-width local form `YYYY-MM-DD HH:MM:SS`.
pub open spec fn spec_format_timestamp(t: TimeParts) -> Seq<char> {
    spec_year_str(t.year as int) + seq!['-'] + spec_pad2(t.month as int) + seq!['-'] + spec_pad2(
        t.day as int,
    ) + seq![' '] + spec_pad2(t.hour as int) + seq![':'] + spec_pad2(t.minute as int) + seq![':']
        + spec_pad2(t.second as int)
}

/// Prints a calendar time as `YYYY-MM-DD HH:MM:SS`.
pub fn format_timestamp(t: &TimeParts) -> (r: String)
    requires
        t.wf(),
    ensures
        r@ == spec_format_timestamp(*t),
{
    proof {
        reveal_strlit("-");
        reveal_strlit(" ");
        reveal_strlit(":");
    }
    let r = year_str(t.year).concat("-").concat(pad2(t.month as u64).as_str()).concat(
        "-",
    ).concat(pad2(t.day as u64).as_str()).concat(" ").concat(pad2(t.hour as u64).as_str()).concat(
        ":",
    ).concat(pad2(t.minute as u64).as_str()).concat(":").concat(pad2(t.second as u64).as_str());
    proof {
        assert(r@ =~= spec_format_timestamp(*t));
    }
    r
}

/// Whether `s` holds a `'/'` anywhere.
pub open spec fn has_slash(s: Seq<char>) -> bool {
    exists|i: int| 0 <= i < s.len() && s[i] == '/'
}

/// The position of the last `'/'` in `s` (meaningful only when `has_slash`).
pub open spec fn last_slash(s: Seq<char>) -> int {
    choose|i: int|
        0 <= i < s.len() && s[i] == '/' && forall|j: int| i < j < s.len() ==> s[j] != '/'
}

/// The last path segment: everything after the final `'/'`, or the whole
/// path when it holds none.
pub open spec fn spec_base_name(s: Seq<char>) -> Seq<char> {
    if has_slash(s) {
        s.subrange(last_slash(s) + 1, s.len() as int)
    } else {
        s
    }
}

/// The name a notification reports for a path: its last segment, or a fixed
/// placeholder when that segment is empty (a path ending in `'/'`).
pub open spec fn spec_name_of(s: Seq<char>) -> Seq<char> {
    if spec_base_name(s).len() == 0 {
        "(unknown)"@
    } else {
        spec_base_name(s)
    }
}

/// Derives the last path segment of `path`.
pub fn base_name(path: &String) -> (r: String)
    ensures
        r@ == spec_base_name(path@),
{
    let s = path.as_str();
    let n = s.unicode_len();
    let mut i: usize = 0;
    let mut found = false;
    let mut pos: usize = 0;
    while i < n
        invariant
            n == s@.len(),
            0 <= i <= n,
            found ==> pos < i && s@[pos as int] == '/' && forall|j: int|
                pos < j < i ==> s@[j] != '/',
            !found ==> forall|j: int| 0 <= j < i ==> s@[j] != '/',
        decreases n - i,
    {
        if s.get_char(i) == '/' {
            found = true;
            pos = i;
        }
        i = i + 1;
    }
    if found {
        proof {
            assert(has_slash(s@));
            let w = last_slash(s@);
            assert(s@[pos as int] == '/' && forall|j: int| pos < j < s@.len() ==> s@[j] != '/');
            assert(w == pos) by {
                assert(0 <= w < s@.len() && s@[w] == '/' && forall|j: int|
                    w < j < s@.len() ==> s@[j] != '/');
                if w < pos {
                    assert(s@[pos as int] == '/');
                } else if pos < w {
                    assert(s@[w] == '/');
                }
            }
        }
        let tail = s.substring_char(pos + 1, n);
        let r = tail.to_owned();
        proof {
            assert(r@ =~= spec_base_name(path@));
        }
        r
    } else {
        proof {
            assert(!has_slash(s@));
        }
        let r = path.clone();
        r
    }
}

/// One stable-new-entry notification: the entry's name and the local time
/// at which it was promoted, as a fixed-width string.
pub struct Notification {
    /// Base file name of the promoted path.
    pub name: String,
    /// Local wall-clock time, `YYYY-MM-DD HH:MM:SS`.
    pub timestamp: String,
}

/// Builds the notification for a promoted path at the calendar time `t`.
pub fn notification_for(path: &String, t: &TimeParts) -> (n: Notification)
    requires
        t.wf(),
    ensures
        n.name@ == spec_name_of(path@),
        n.timestamp@ == spec_format_timestamp(*t),
{
    let base = base_name(path);
    let name = if base.as_str().unicode_len() == 0 {
        String::from_str("(unknown)")
    } else {
        base
    };
    Notification { name, timestamp: format_timestamp(t) }
}

/// Whether a notification's timestamp is the fixed-width rendering of some
/// in-range calendar time.
pub open spec fn timestamp_rendered(n: Notification) -> bool {
    exists|t: TimeParts| #[trigger] t.wf() && n.timestamp@ == spec_format_timestamp(t)
}

/// Builds the notification for a promoted path at the current local time.
/// The clock reading is trusted; whatever instant comes back, the timestamp
/// is its fixed-width rendering.
pub fn emit_now(path: &String) -> (n: Notification)
    ensures
        n.name@ == spec_name_of(path@),
        timestamp_rendered(n),
{
    let t = local_now_parts();
    notification_for(path, &t)
}

/// One iteration of the watch loop, wired to the emitter: feed the input to
/// the debounce engine and turn every path it promotes into a notification
/// stamped with the current local time. Names come out in promotion order.
pub fn step_and_notify(engine: &mut DebounceEngine, input: RawInput, now: u64) -> (r: (
    Vec<Notification>,
    bool,
))
    requires
        old(engine).wf(),
        old(engine).spec_clock() <= now as int,
    ensures
        final(engine).wf(),
        final(engine).spec_clock() == now as int,
        ({
            let res = spec_step(old(engine).gmodel(), input.gmodel(), now as int);
            &&& final(engine).gmodel() == res.state
            &&& r.0@.len() == res.ready.len()
            &&& forall|j: int|
                0 <= j < res.ready.len() ==> (#[trigger] r.0@[j]).name@ == spec_name_of(
                    res.ready[j],
                )
            &&& forall|j: int|
                0 <= j < res.ready.len() ==> timestamp_rendered(#[trigger] r.0@[j])
            &&& r.1 == res.stop
        }),
{
    let (ready, stop) = engine.step(input, now);
    let ghost res = spec_step(old(engine).gmodel(), input.gmodel(), now as int);
    let mut out: Vec<Notification> = Vec::new();
    let mut i: usize = 0;
    let n = ready.len();
    while i < n
        invariant
            n == ready@.len(),
            0 <= i <= n,
            crate::event::views_of_strings(ready@) == res.ready,
            out@.len() == i,
            forall|j: int|
                0 <= j < i ==> (#[trigger] out@[j]).name@ == spec_name_of(res.ready[j]),
            forall|j: int| 0 <= j < i ==> timestamp_rendered(#[trigger] out@[j]),
        decreases n - i,
    {
        proof {
            assert(crate::event::views_of_strings(ready@)[i as int] == ready@[i as int]@);
        }
        let notification = emit_now(&ready[i]);
        out.push(notification);
        i = i + 1;
    }
    (out, stop)
}

} // verus!
