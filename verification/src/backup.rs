//! Names of backup directories: the current time in UTC+8, as
//! `YYYY-MM-DD_hh-mm-ss`.
use vstd::prelude::*;

use crate::text::{push_char, push_zero_padded, zero_padded};

verus! {

/// A leap year of the Gregorian calendar.
pub open spec fn is_leap_year(y: nat) -> bool {
    (y % 4 == 0 && y % 100 != 0) || y % 400 == 0
}

/// Whether `y` is a leap year.
pub fn is_leap(y: u64) -> (b: bool)
    ensures
        b == is_leap_year(y as nat),
{
    (y % 4 == 0 && y % 100 != 0) || (y % 400 == 0)
}

pub open spec fn days_in_year(y: nat) -> nat {
    if is_leap_year(y) { 366 } else { 365 }
}

/// Days in month `m` (1 to 12) of year `y`.
pub open spec fn days_in_month(y: nat, m: nat) -> nat {
    if m == 2 {
        if is_leap_year(y) { 29 } else { 28 }
    } else if m == 4 || m == 6 || m == 9 || m == 11 {
        30
    } else {
        31
    }
}

/// Days from 1 January 1970 to 1 January of year `y` (`y >= 1970`).
pub open spec fn days_before_year(y: nat) -> nat
    decreases y,
{
    if y <= 1970 { 0 } else { days_before_year((y - 1) as nat) + days_in_year((y - 1) as nat) }
}

/// Days from 1 January to the first of month `m` in year `y`.
pub open spec fn days_before_month(y: nat, m: nat) -> nat
    decreases m,
{
    if m <= 1 { 0 } else { days_before_month(y, (m - 1) as nat) + days_in_month(y, (m - 1) as nat) }
}

/// The number of days from 1 January 1970 to the date `(y, m, d)`.
pub open spec fn days_since_epoch(y: nat, m: nat, d: nat) -> nat {
    (days_before_year(y) + days_before_month(y, m) + d - 1) as nat
}

/// A calendar date from 1970 on.
pub open spec fn valid_date(y: nat, m: nat, d: nat) -> bool {
    y >= 1970 && 1 <= m <= 12 && 1 <= d <= days_in_month(y, m)
}

fn days_in_year_exec(y: u64) -> (n: i64)
    ensures
        n == days_in_year(y as nat),
{
    if is_leap(y) { 366 } else { 365 }
}

fn days_in_month_exec(y: u64, m: u64) -> (n: i64)
    ensures
        n == days_in_month(y as nat, m as nat),
{
    if m == 2 {
        if is_leap(y) { 29 } else { 28 }
    } else if m == 4 || m == 6 || m == 9 || m == 11 {
        30
    } else {
        31
    }
}

proof fn lemma_days_before_year_grows(y: nat)
    requires
        y >= 1970,
    ensures
        days_before_year(y) >= 365 * (y - 1970),
    decreases y,
{
    if y > 1970 {
        lemma_days_before_year_grows((y - 1) as nat);
    }
}

/// The date `(year, month, day)` that lies `days` days after 1 January 1970. A count
/// beyond `i64::MAX` turns negative in the signed countdown, which then stops at once:
/// such a count gives `(1970, 1, days + 1)`.
pub fn epoch_to_date(days: u64) -> (r: (u64, u64, u64))
    requires
        days < u64::MAX,
    ensures
        days <= 0x7fff_ffff_ffff_ffff ==> valid_date(r.0 as nat, r.1 as nat, r.2 as nat)
            && days_since_epoch(r.0 as nat, r.1 as nat, r.2 as nat) == days,
        days > 0x7fff_ffff_ffff_ffff ==> r == (1970u64, 1u64, (days + 1) as u64),
{
    if days > 0x7fff_ffff_ffff_ffff {
        return (1970, 1, days + 1);
    }
    let mut y: u64 = 1970;
    let mut remaining: i64 = days as i64;
    loop
        invariant
            y >= 1970,
            0 <= remaining,
            days_before_year(y as nat) + remaining == days,
            days <= 0x7fff_ffff_ffff_ffff,
        ensures
            y >= 1970,
            0 <= remaining,
            days_before_year(y as nat) + remaining == days,
            remaining < days_in_year(y as nat),
        decreases remaining,
    {
        let days_in_year = days_in_year_exec(y);
        if remaining < days_in_year {
            break;
        }
        proof {
            lemma_days_before_year_grows(y as nat);
            assert(365 * (y - 1970) <= days);
        }
        remaining -= days_in_year;
        y += 1;
    }
    let mut m: u64 = 1;
    assert(days_before_month(y as nat, 1) == 0);
    loop
        invariant
            y >= 1970,
            1 <= m <= 12,
            0 <= remaining,
            days_before_year(y as nat) + days_before_month(y as nat, m as nat) + remaining == days,
            remaining < days_in_year(y as nat) - days_before_month(y as nat, m as nat),
        ensures
            y >= 1970,
            1 <= m <= 12,
            0 <= remaining,
            days_before_year(y as nat) + days_before_month(y as nat, m as nat) + remaining == days,
            remaining < days_in_month(y as nat, m as nat),
        decreases 12 - m,
    {
        let md = days_in_month_exec(y, m);
        if remaining < md {
            break;
        }
        if m == 12 {
            assert(days_before_month(y as nat, 12) + days_in_month(y as nat, 12) == days_in_year(y as nat)) by {
                reveal_with_fuel(days_before_month, 13);
            }
            assert(false);
        }
        remaining -= md;
        m += 1;
    }
    let d = remaining as u64 + 1;
    (y, m, d)
}

/// The backup directory name for the time `secs` seconds after the Unix epoch,
/// shifted to UTC+8: `YYYY-MM-DD_hh-mm-ss`, each field zero-padded.
pub open spec fn timestamp_text(secs: nat, y: nat, m: nat, d: nat) -> Seq<char> {
    let ts = secs + 28800;
    let sod = ts % 86400;
    zero_padded(y, 4) + seq!['-'] + zero_padded(m, 2) + seq!['-'] + zero_padded(d, 2) + seq!['_'] + zero_padded(
        sod / 3600,
        2,
    ) + seq!['-'] + zero_padded((sod % 3600) / 60, 2) + seq!['-'] + zero_padded(sod % 60, 2)
}

/// The backup directory name for `secs` seconds after the Unix epoch, in UTC+8.
pub fn timestamp_from_secs(secs: u64) -> (s: String)
    requires
        secs + 28800 <= u64::MAX,
    ensures
        exists|y: nat, m: nat, d: nat|
            valid_date(y, m, d) && days_since_epoch(y, m, d) == (secs + 28800) / 86400 && s@ == timestamp_text(
                secs as nat,
                y,
                m,
                d,
            ),
{
    let ts = secs + 28800;
    let secs_of_day = ts % 86400;
    let days_since_epoch = ts / 86400;
    let (y, m, d) = epoch_to_date(days_since_epoch);
    let h = secs_of_day / 3600;
    let min = (secs_of_day % 3600) / 60;
    let s = secs_of_day % 60;
    let mut out = String::new();
    push_zero_padded(&mut out, y, 4);
    push_char(&mut out, '-');
    push_zero_padded(&mut out, m, 2);
    push_char(&mut out, '-');
    push_zero_padded(&mut out, d, 2);
    push_char(&mut out, '_');
    push_zero_padded(&mut out, h, 2);
    push_char(&mut out, '-');
    push_zero_padded(&mut out, min, 2);
    push_char(&mut out, '-');
    push_zero_padded(&mut out, s, 2);
    assert(out@ =~= timestamp_text(secs as nat, y as nat, m as nat, d as nat));
    out
}

/// Seconds since the Unix epoch by the system clock (0 when the clock is before it).
///
/// Trusted to return: the time is not known, so nothing is stated of it.
#[verifier::external_body]
fn unix_time_secs() -> u64 {
    std::time::SystemTime::now().duration_since(std::time::UNIX_EPOCH).unwrap_or_default().as_secs()
}

/// The backup directory name for the current time (UTC+8).
pub fn backup_timestamp() -> (s: String)
    ensures
        exists|secs: nat, y: nat, m: nat, d: nat|
            valid_date(y, m, d) && days_since_epoch(y, m, d) == (secs + 28800) / 86400 && s@ == timestamp_text(
                secs,
                y,
                m,
                d,
            ),
{
    let now = unix_time_secs();
    let secs = if now > u64::MAX - 28800 { u64::MAX - 28800 } else { now };
    let s = timestamp_from_secs(secs);
    let ghost w = choose|y: nat, m: nat, d: nat|
        valid_date(y, m, d) && days_since_epoch(y, m, d) == (secs + 28800) / 86400 && s@ == timestamp_text(
            secs as nat,
            y,
            m,
            d,
        );
    assert(valid_date(w.0, w.1, w.2) && days_since_epoch(w.0, w.1, w.2) == (secs + 28800) / 86400 && s@ == timestamp_text(secs as nat, w.0, w.1, w.2));
    s
}

} // verus!
