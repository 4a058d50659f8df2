//! UTC timestamps with second precision, and their fixed-width rendering
//! `YYYY-MM-DDTHH:MM:SSZ`. The current time comes from the system clock
//! through one trusted call; everything downstream of it is verified for
//! every calendar value that call can hand back.

use chrono::Datelike;
use chrono::Timelike;
use vstd::prelude::*;

verus! {

/// A UTC calendar time, second precision, year pinned to four digits so
/// that the rendered form has one fixed width.
#[derive(Clone, Copy, PartialEq, Eq, Structural, Debug)]
pub struct Timestamp {
    pub year: u16,
    pub month: u8,
    pub day: u8,
    pub hour: u8,
    pub minute: u8,
    pub second: u8,
}

impl Timestamp {
    /// The ranges every `Timestamp` keeps: a renderable four-digit year and
    /// calendar-shaped fields.
    pub open spec fn wf(&self) -> bool {
        &&& self.year <= 9999
        &&& 1 <= self.month <= 12
        &&& 1 <= self.day <= 31
        &&& self.hour <= 23
        &&& self.minute <= 59
        &&& self.second <= 59
    }

    /// Builds a timestamp from calendar parts, pinning the year into the
    /// four-digit range that the rendered form carries: earlier years
    /// saturate to 0, later ones to 9999.
    pub fn from_parts(year: i64, month: u8, day: u8, hour: u8, minute: u8, second: u8) -> (r:
        Timestamp)
        requires
            1 <= month <= 12,
            1 <= day <= 31,
            hour <= 23,
            minute <= 59,
            second <= 59,
        ensures
            r.wf(),
            0 <= year <= 9999 ==> r.year == year,
            year < 0 ==> r.year == 0,
            year > 9999 ==> r.year == 9999,
            r.month == month,
            r.day == day,
            r.hour == hour,
            r.minute == minute,
            r.second == second,
    {
        let y: u16 = if year < 0 {
            0
        } else if year > 9999 {
            9999
        } else {
            year as u16
        };
        Timestamp { year: y, month, day, hour, minute, second }
    }
}

/// The ASCII digit for `n`, meaningful for `0 <= n <= 9`.
pub open spec fn digit(n: int) -> u8 {
    (48 + n) as u8
}

/// `n` written as two ASCII digits, zero padded.
pub open spec fn two_digits(n: int) -> Seq<u8> {
    seq![digit(n / 10), digit(n % 10)]
}

/// `n` written as four ASCII digits, zero padded.
pub open spec fn four_digits(n: int) -> Seq<u8> {
    seq![digit(n / 1000), digit((n / 100) % 10), digit((n / 10) % 10), digit(n % 10)]
}

/// The rendered form of a timestamp: `YYYY-MM-DDTHH:MM:SSZ`, twenty bytes.
pub open spec fn rfc3339_spec(ts: Timestamp) -> Seq<u8> {
    four_digits(ts.year as int) + seq![45u8] + two_digits(ts.month as int) + seq![45u8]
        + two_digits(ts.day as int) + seq![84u8] + two_digits(ts.hour as int) + seq![58u8]
        + two_digits(ts.minute as int) + seq![58u8] + two_digits(ts.second as int) + seq![90u8]
}

/// Every byte of a rendered timestamp is an ASCII digit or one of `-`,
/// `T`, `:`, `Z`; in particular none is the line delimiter and none is
/// `]`, so a rendered timestamp never ends a log line or its bracket.
pub proof fn lemma_rfc3339_bytes(ts: Timestamp)
    requires
        ts.wf(),
    ensures
        rfc3339_spec(ts).len() == 20,
        forall|i: int|
            0 <= i < rfc3339_spec(ts).len() ==> (48 <= #[trigger] rfc3339_spec(ts)[i] <= 57
                || rfc3339_spec(ts)[i] == 45 || rfc3339_spec(ts)[i] == 84 || rfc3339_spec(ts)[i]
                == 58 || rfc3339_spec(ts)[i] == 90),
{
    let s = rfc3339_spec(ts);
    assert(0 <= ts.year as int / 1000 <= 9);
    assert(0 <= (ts.year as int / 100) % 10 <= 9);
    assert(0 <= (ts.year as int / 10) % 10 <= 9);
    assert(0 <= ts.year as int % 10 <= 9);
    assert(0 <= ts.month as int / 10 <= 9);
    assert(0 <= ts.month as int % 10 <= 9);
    assert(0 <= ts.day as int / 10 <= 9);
    assert(0 <= ts.day as int % 10 <= 9);
    assert(0 <= ts.hour as int / 10 <= 9);
    assert(0 <= ts.hour as int % 10 <= 9);
    assert(0 <= ts.minute as int / 10 <= 9);
    assert(0 <= ts.minute as int % 10 <= 9);
    assert(0 <= ts.second as int / 10 <= 9);
    assert(0 <= ts.second as int % 10 <= 9);
    assert(s.len() == 20);
    assert forall|i: int| 0 <= i < s.len() implies (48 <= #[trigger] s[i] <= 57 || s[i] == 45
        || s[i] == 84 || s[i] == 58 || s[i] == 90) by {
        assert(s[i] == s[i]);
    }
}

/// Appends `n` as two zero-padded ASCII digits.
fn push_two_digits(out: &mut Vec<u8>, n: u8)
    requires
        n < 100,
    ensures
        final(out)@ == old(out)@ + two_digits(n as int),
{
    out.push(48 + n / 10);
    out.push(48 + n % 10);
    proof {
        assert(out@ =~= old(out)@ + two_digits(n as int));
    }
}

/// Appends `n` as four zero-padded ASCII digits.
fn push_four_digits(out: &mut Vec<u8>, n: u16)
    requires
        n <= 9999,
    ensures
        final(out)@ == old(out)@ + four_digits(n as int),
{
    out.push((n / 1000) as u8 + 48);
    out.push(((n / 100) % 10) as u8 + 48);
    out.push(((n / 10) % 10) as u8 + 48);
    out.push((n % 10) as u8 + 48);
    proof {
        assert(out@ =~= old(out)@ + four_digits(n as int));
    }
}

/// Renders a timestamp as the twenty-byte form `YYYY-MM-DDTHH:MM:SSZ`.
pub fn render_rfc3339(ts: &Timestamp) -> (r: Vec<u8>)
    requires
        ts.wf(),
    ensures
        r@ == rfc3339_spec(*ts),
        r@.len() == 20,
{
    let mut out: Vec<u8> = Vec::new();
    push_four_digits(&mut out, ts.year);
    out.push(45);
    push_two_digits(&mut out, ts.month);
    out.push(45);
    push_two_digits(&mut out, ts.day);
    out.push(84);
    push_two_digits(&mut out, ts.hour);
    out.push(58);
    push_two_digits(&mut out, ts.minute);
    out.push(58);
    push_two_digits(&mut out, ts.second);
    out.push(90);
    proof {
        assert(out@ =~= rfc3339_spec(*ts));
    }
    out
}

/// Relies on `chrono::Utc::now` and the `Datelike` / `Timelike` accessors
/// of the returned instant: month ranges over 1..=12, day over 1..=31,
/// hour over 0..=23, minute and second over 0..=59, as their documentation
/// states. Nothing is assumed of the year or of which instant comes back.
#[verifier::external_body]
fn now_parts() -> (r: (i64, u8, u8, u8, u8, u8))
    ensures
        1 <= r.1 <= 12,
        1 <= r.2 <= 31,
        r.3 <= 23,
        r.4 <= 59,
        r.5 <= 59,
{
    let t = chrono::Utc::now();
    (
        t.year() as i64,
        t.month() as u8,
        t.day() as u8,
        t.hour() as u8,
        t.minute() as u8,
        t.second() as u8,
    )
}

/// The current UTC time as a well-formed timestamp; which instant comes
/// back depends on the clock, so nothing more is promised of the value.
pub fn now() -> (r: Timestamp)
    ensures
        r.wf(),
{
    let (year, month, day, hour, minute, second) = now_parts();
    Timestamp::from_parts(year, month, day, hour, minute, second)
}

} // verus!
