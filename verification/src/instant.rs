//! Points in time as the library reads them from RFC 3339 timestamps.
use vstd::prelude::*;

verus! {

/// An instant in UTC: whole seconds since the Unix epoch and the nanoseconds
/// into that second (at or above one billion only inside a leap second).
#[derive(Debug, Clone, Copy, PartialEq, Eq, Structural)]
pub struct UtcInstant {
    pub secs: i64,
    pub nanos: u32,
}

/// Why a timestamp could not be used.
#[derive(Debug, Clone, Copy, PartialEq, Eq, Structural)]
pub enum TimestampError {
    /// The text is not an RFC 3339 timestamp.
    Unparsable,
}

/// The instant an RFC 3339 timestamp denotes, or `None` when it is not one
/// (a name for what `chrono::DateTime::parse_from_rfc3339` returns).
pub uninterp spec fn rfc3339_spec(s: Seq<char>) -> Option<UtcInstant>;

/// `chrono::DateTime::parse_from_rfc3339`, read as UTC seconds and
/// nanoseconds. The contract claims that the result depends on the text
/// alone and that the nanoseconds stay below two billion.
#[verifier::external_body]
pub(crate) fn parse_rfc3339(s: &str) -> (r: Option<UtcInstant>)
    ensures
        r == rfc3339_spec(s@),
        r matches Some(i) ==> i.nanos < 2_000_000_000,
{
    chrono::DateTime::parse_from_rfc3339(s).ok().map(|d| UtcInstant { secs: d.timestamp(), nanos: d.timestamp_subsec_nanos() })
}

/// The whole days from `earlier` to `later`, truncated toward zero, as
/// chrono computes them with `signed_duration_since` and then `num_days`:
/// the whole seconds between the instants, where a leap second (nanoseconds
/// at or above one billion) is counted when the other instant lies in a
/// different second of the day, the nanoseconds borrowed or carried, the
/// seconds of a negative span with a fraction rounded toward zero, and the
/// result divided by 86 400 toward zero.
pub open spec fn whole_days(later: UtcInstant, earlier: UtcInstant) -> int {
    let ta = later.secs % 86_400;
    let tb = earlier.secs % 86_400;
    let adj: int = if ta > tb && earlier.nanos >= 1_000_000_000 {
        1
    } else if ta < tb && later.nanos >= 1_000_000_000 {
        -1
    } else {
        0
    };
    let frac = later.nanos - earlier.nanos;
    let secs = later.secs - earlier.secs + adj + frac / 1_000_000_000;
    let nanos = frac % 1_000_000_000;
    let whole = if secs < 0 && nanos > 0 { secs + 1 } else { secs };
    if whole >= 0 {
        whole / 86_400
    } else {
        -((-whole) / 86_400)
    }
}

/// Euclidean remainder of `s` by 86 400.
fn secs_of_day(s: i64) -> (r: i128)
    ensures
        r == s % 86_400,
        0 <= r < 86_400,
{
    let shift: i128 = 86_400 * 0x8000_0000_0000;
    let shifted: u128 = (s as i128 + shift) as u128;
    let r: i128 = (shifted % 86_400) as i128;
    proof {
        assert(r == s % 86_400) by (nonlinear_arith)
            requires
                shifted == s + 86_400 * 0x8000_0000_0000int,
                r == shifted % 86_400;
    }
    r
}

/// The whole days from `earlier` to `later` (see `whole_days`).
pub fn whole_days_between(later: UtcInstant, earlier: UtcInstant) -> (r: i64)
    ensures
        r == whole_days(later, earlier),
{
    let ta = secs_of_day(later.secs);
    let tb = secs_of_day(earlier.secs);
    let adj: i128 = if ta > tb && earlier.nanos >= 1_000_000_000 {
        1
    } else if ta < tb && later.nanos >= 1_000_000_000 {
        -1
    } else {
        0
    };
    let frac: i128 = later.nanos as i128 - earlier.nanos as i128;
    // Euclidean quotient and remainder of `frac` by one billion, taken of a
    // non-negative number.
    let lifted: u128 = (frac + 5_000_000_000) as u128;
    let q: i128 = (lifted / 1_000_000_000) as i128 - 5;
    let nanos: i128 = (lifted % 1_000_000_000) as i128;
    proof {
        assert(q == frac / 1_000_000_000 && nanos == frac % 1_000_000_000) by (nonlinear_arith)
            requires
                lifted == frac + 5_000_000_000,
                q == lifted / 1_000_000_000 - 5,
                nanos == lifted % 1_000_000_000;
    }
    let secs: i128 = later.secs as i128 - earlier.secs as i128 + adj + q;
    let whole: i128 = if secs < 0 && nanos > 0 { secs + 1 } else { secs };
    let days: i128 = if whole >= 0 {
        (whole as u128 / 86_400) as i128
    } else {
        -(((-whole) as u128 / 86_400) as i128)
    };
    proof {
        assert(-0x3_0000_0000_0000_0000int <= whole <= 0x3_0000_0000_0000_0000int);
        if whole >= 0 {
            assert(whole / 86_400 <= whole) by (nonlinear_arith) requires whole >= 0;
        } else {
            assert((-whole) / 86_400 <= 0x3_0000_0000_0000_0000int / 86_400) by (nonlinear_arith)
                requires 0 < -whole <= 0x3_0000_0000_0000_0000int;
        }
    }
    days as i64
}

/// The whole days from the instant of `earlier` to that of `later`.
pub open spec fn days_between_text(later: Seq<char>, earlier: Seq<char>) -> Result<i64, TimestampError> {
    match (rfc3339_spec(earlier), rfc3339_spec(later)) {
        (Some(e), Some(l)) => Ok(whole_days(l, e) as i64),
        _ => Err(TimestampError::Unparsable),
    }
}

/// The whole days elapsed from `earlier` to `later`, both RFC 3339.
pub fn days_between(later: &str, earlier: &str) -> (r: Result<i64, TimestampError>)
    ensures
        r == days_between_text(later@, earlier@),
{
    let e = match parse_rfc3339(earlier) {
        Some(e) => e,
        None => return Err(TimestampError::Unparsable),
    };
    let l = match parse_rfc3339(later) {
        Some(l) => l,
        None => return Err(TimestampError::Unparsable),
    };
    Ok(whole_days_between(l, e))
}

/// Seconds in a day.
pub const SECS_PER_DAY: i64 = 86_400;

/// The next 02:00 UTC strictly after `now`: 02:00 of the same UTC day when
/// that is still ahead, else 02:00 of the next day.
pub open spec fn next_run_spec(now: UtcInstant) -> UtcInstant {
    let day_start = (now.secs as int / 86_400) * 86_400;
    let at_two = day_start + 7_200;
    if at_two > now.secs {
        UtcInstant { secs: at_two as i64, nanos: 0 }
    } else {
        UtcInstant { secs: (at_two + 86_400) as i64, nanos: 0 }
    }
}

/// When the nightly decay runs next after `now`.
pub fn next_run_time(now: UtcInstant) -> (r: UtcInstant)
    requires
        i64::MIN + SECS_PER_DAY <= now.secs <= i64::MAX - 2 * SECS_PER_DAY,
    ensures
        r == next_run_spec(now),
        r.secs > now.secs,
        r.secs - now.secs <= SECS_PER_DAY,
        r.secs % SECS_PER_DAY == 7_200,
{
    // Shift by a whole number of days so that the remainder is taken of a
    // non-negative number.
    let shift: i128 = 86_400 * 0x8000_0000_0000;
    let shifted: u128 = (now.secs as i128 + shift) as u128;
    let rem: i64 = (shifted % 86_400) as i64;
    let day_start: i64 = now.secs - rem;
    proof {
        assert(day_start == (now.secs as int / 86_400) * 86_400 && day_start % 86_400 == 0) by (nonlinear_arith)
            requires
                shifted == now.secs + 86_400 * 0x8000_0000_0000int,
                rem == shifted % 86_400,
                day_start == now.secs - rem;
        assert(0 <= rem < 86_400);
    }
    let at_two = day_start + 7_200;
    if at_two > now.secs {
        UtcInstant { secs: at_two, nanos: 0 }
    } else {
        UtcInstant { secs: at_two + SECS_PER_DAY, nanos: 0 }
    }
}

} // verus!
