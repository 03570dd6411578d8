//! Points in time, ages and dates.
use vstd::prelude::*;
use crate::labels::{self, decimal, padded_decimal};

verus! {

/// A point in time: whole seconds since 1970 (below 0 before it) and the
/// nanoseconds behind them.
#[derive(Clone, Copy, Debug, PartialEq, Eq, Structural)]
pub struct Stamp {
    pub secs: i64,
    pub nanos: u32,
}

impl Stamp {
    /// Less than a second of nanoseconds.
    pub open spec fn wf(self) -> bool {
        self.nanos < 1_000_000_000
    }

    /// Nanoseconds since 1970.
    pub open spec fn at(self) -> int {
        self.secs * 1_000_000_000 + self.nanos
    }

    /// Whether the first is the earlier one.
    pub fn before(self, other: Stamp) -> (r: bool)
        requires
            self.wf(),
            other.wf(),
        ensures
            r == (self.at() < other.at()),
    {
        self.secs < other.secs || (self.secs == other.secs && self.nanos < other.nanos)
    }
}

/// Whole seconds from `from` to `to`, 0 where `from` is the later one.
pub open spec fn secs_between(from: Stamp, to: Stamp) -> int {
    if from.at() <= to.at() {
        (to.at() - from.at()) / 1_000_000_000
    } else {
        0
    }
}

/// Whole seconds from `from` to `to`, 0 where `from` is the later one.
pub fn seconds_since(from: Stamp, to: Stamp) -> (r: u64)
    requires
        from.wf(),
        to.wf(),
    ensures
        r == secs_between(from, to),
{
    if to.before(from) {
        return 0;
    }
    let whole: i128 = to.secs as i128 - from.secs as i128;
    if to.nanos < from.nanos {
        assert(to.at() - from.at() == (whole - 1) * 1_000_000_000 + (1_000_000_000 + to.nanos - from.nanos));
        (whole - 1) as u64
    } else {
        assert(to.at() - from.at() == whole * 1_000_000_000 + (to.nanos - from.nanos));
        whole as u64
    }
}

/// The months left over after whole years, of thirty days each: eleven at most,
/// for the last days of a year fill no twelfth.
pub open spec fn months_over(days: nat) -> nat {
    if (days % 365) / 30 < 11 {
        (days % 365) / 30
    } else {
        11
    }
}

/// How old something is: minutes, hours, days for about a month, then months,
/// then years with the months left over.
pub open spec fn age_label_spec(secs: nat) -> Seq<char> {
    let days = secs / 86_400;
    if secs < 90 {
        "just now"@
    } else if secs < 5400 {
        labels::dec(secs / 60) + "m ago"@
    } else if secs < 129_600 {
        labels::dec(secs / 3600) + "h ago"@
    } else if days < 30 {
        labels::dec(days) + "d ago"@
    } else if days < 365 {
        labels::dec(days / 30) + "mo ago"@
    } else if months_over(days) == 0 {
        labels::dec(days / 365) + "y ago"@
    } else {
        labels::dec(days / 365) + "y "@ + labels::dec(months_over(days)) + "mo ago"@
    }
}

/// The months left over never make another year.
pub proof fn law_months_over_stay_below_twelve(days: nat)
    ensures
        months_over(days) < 12,
{
}

fn with_unit(n: u64, unit: &str) -> (r: String)
    ensures
        r@ == labels::dec(n as nat) + unit@,
{
    let mut out = decimal(n);
    out.append(unit);
    out
}

/// How old something of that many seconds is.
pub fn age_label(secs: u64) -> (r: String)
    ensures
        r@ == age_label_spec(secs as nat),
{
    let days: u64 = secs / 86_400;
    if secs < 90 {
        "just now".to_owned()
    } else if secs < 5400 {
        with_unit(secs / 60, "m ago")
    } else if secs < 129_600 {
        with_unit(secs / 3600, "h ago")
    } else if days < 30 {
        with_unit(days, "d ago")
    } else if days < 365 {
        with_unit(days / 30, "mo ago")
    } else {
        let years: u64 = days / 365;
        let thirties: u64 = (days % 365) / 30;
        let months: u64 = if thirties < 11 {
            thirties
        } else {
            11
        };
        if months == 0 {
            with_unit(years, "y ago")
        } else {
            let mut out = with_unit(years, "y ");
            out.append(decimal(months).as_str());
            out.append("mo ago");
            out
        }
    }
}

/// How old something is that was modified at `modified`, seen at `now`.
pub fn humanize_age(modified: Stamp, now: Stamp) -> (r: String)
    requires
        modified.wf(),
        now.wf(),
    ensures
        r@ == age_label_spec(secs_between(modified, now) as nat),
{
    age_label(seconds_since(modified, now))
}

/// A year with a February 29.
pub open spec fn is_leap(y: int) -> bool {
    y % 4 == 0 && (y % 100 != 0 || y % 400 == 0)
}

pub open spec fn month_days(y: int, m: int) -> int {
    if m == 2 {
        if is_leap(y) {
            29
        } else {
            28
        }
    } else if m == 4 || m == 6 || m == 9 || m == 11 {
        30
    } else {
        31
    }
}

/// A day of the Gregorian calendar.
pub open spec fn is_date(y: int, m: int, d: int) -> bool {
    1 <= m <= 12 && 1 <= d <= month_days(y, m)
}

/// Leap years from year 1 to `y`.
pub open spec fn leap_years(y: int) -> int {
    y / 4 - y / 100 + y / 400
}

/// Days of the year `y` before its month `m`.
pub open spec fn days_before_month(y: int, m: int) -> int
    decreases m,
{
    if m <= 1 {
        0
    } else {
        days_before_month(y, m - 1) + month_days(y, m - 1)
    }
}

/// Days from 1970-01-01 to the date.
pub open spec fn day_number(y: int, m: int, d: int) -> int {
    365 * (y - 1970) + leap_years(y - 1) - leap_years(1969) + days_before_month(y, m) + d - 1
}

/// A date and a time of day as text.
pub open spec fn stamp_text(y: int, m: int, d: int, hh: int, mm: int) -> Seq<char> {
    labels::padded(y as nat, 4) + "-"@ + labels::padded(m as nat, 2) + "-"@ + labels::padded(d as nat, 2) + " "@
        + labels::padded(hh as nat, 2) + ":"@ + labels::padded(mm as nat, 2) + " UTC"@
}

/// The text is the UTC date and time of that many seconds since 1970.
pub open spec fn is_stamp_of(text: Seq<char>, secs: int) -> bool {
    exists|y: int, m: int, d: int|
        is_date(y, m, d) && #[trigger] day_number(y, m, d) == secs / 86_400 && text == stamp_text(
            y,
            m,
            d,
            secs % 86_400 / 3600,
            secs % 3600 / 60,
        )
}

/// The date that follows in the calendar has the next day number.
pub proof fn law_dates_count_up(y: int, m: int, d: int)
    requires
        is_date(y, m, d),
    ensures
        d < month_days(y, m) ==> day_number(y, m, d + 1) == day_number(y, m, d) + 1,
        d == month_days(y, m) && m < 12 ==> day_number(y, m + 1, 1) == day_number(y, m, d) + 1,
        d == month_days(y, m) && m == 12 ==> day_number(y + 1, 1, 1) == day_number(y, m, d) + 1,
{
    if m == 12 {
        lemma_before_month(y, 12);
        lemma_leap_step(y);
    }
}

proof fn lemma_years_apart(y: int, z: int)
    requires
        y < z,
    ensures
        day_number(y + 1, 1, 1) <= day_number(z, 1, 1),
    decreases z - y,
{
    if y + 1 < z {
        lemma_years_apart(y, z - 1);
        lemma_leap_step(z - 1);
    }
}

proof fn lemma_inside_year(y: int, m: int, d: int)
    requires
        is_date(y, m, d),
    ensures
        day_number(y, 1, 1) <= day_number(y, m, d) < day_number(y + 1, 1, 1),
{
    lemma_before_month(y, m);
    lemma_before_month(y, 1);
    lemma_before_month(y + 1, 1);
    lemma_leap_step(y);
    assert(m == 1 || m == 2 || m == 3 || m == 4 || m == 5 || m == 6 || m == 7 || m == 8 || m == 9 || m == 10 || m == 11
        || m == 12);
}

proof fn lemma_months_apart(y: int, m: int, n: int)
    requires
        1 <= m < n <= 12,
    ensures
        days_before_month(y, m) + month_days(y, m) <= days_before_month(y, n),
    decreases n - m,
{
    if m + 1 < n {
        lemma_months_apart(y, m, n - 1);
    }
}

/// No two dates share a day number: a day number names one date.
pub proof fn law_day_number_names_one_date(y: int, m: int, d: int, z: int, n: int, e: int)
    requires
        is_date(y, m, d),
        is_date(z, n, e),
        day_number(y, m, d) == day_number(z, n, e),
    ensures
        y == z && m == n && d == e,
{
    lemma_inside_year(y, m, d);
    lemma_inside_year(z, n, e);
    if y < z {
        lemma_years_apart(y, z);
    } else if z < y {
        lemma_years_apart(z, y);
    } else if m < n {
        lemma_months_apart(y, m, n);
    } else if n < m {
        lemma_months_apart(y, n, m);
    }
}

/// Year, month and day of a day number from 1970 on.
fn civil_from_days(days: u64) -> (r: (u64, u64, u64))
    requires
        days <= 0x1_0000_0000_0000,
    ensures
        is_date(r.0 as int, r.1 as int, r.2 as int),
        day_number(r.0 as int, r.1 as int, r.2 as int) == days,
{
    // Years are counted from March 1 of the year 0, so that the leap day ends
    // one; an era is the 400 years after which the calendar repeats.
    let z: u64 = days + 719_468;
    let era: u64 = z / 146_097;
    let doe: u64 = z % 146_097;
    let c: u64 = if doe / 36_524 < 3 {
        doe / 36_524
    } else {
        3
    };
    let r1: u64 = doe - 36_524 * c;
    let q: u64 = if r1 / 1461 < 24 {
        r1 / 1461
    } else {
        24
    };
    let r2: u64 = r1 - 1461 * q;
    let a: u64 = if r2 / 365 < 3 {
        r2 / 365
    } else {
        3
    };
    let doy: u64 = r2 - 365 * a;
    let y: u64 = 400 * era + 100 * c + 4 * q + a;
    let mp: u64 = (5 * doy + 2) / 153;
    let d: u64 = doy - (153 * mp + 2) / 5 + 1;
    let m: u64 = if mp < 10 {
        mp + 3
    } else {
        mp - 9
    };
    let year: u64 = if m <= 2 {
        y + 1
    } else {
        y
    };
    proof {
        lemma_civil(days as int, era as int, doe as int, c as int, q as int, a as int, doy as int);
        lemma_months(y as int, doy as int, mp as int);
    }
    (year, m, d)
}

/// Days from March 1 of the year 0 to March 1 of the year `y`.
spec fn march_first(y: int) -> int {
    365 * y + leap_years(y)
}

proof fn lemma_civil(days: int, era: int, doe: int, c: int, q: int, a: int, doy: int)
    requires
        days >= 0,
        era == (days + 719_468) / 146_097,
        doe == (days + 719_468) % 146_097,
        c == (if doe / 36_524 < 3 {
            doe / 36_524
        } else {
            3
        }),
        q == (if (doe - 36_524 * c) / 1461 < 24 {
            (doe - 36_524 * c) / 1461
        } else {
            24
        }),
        a == (if (doe - 36_524 * c - 1461 * q) / 365 < 3 {
            (doe - 36_524 * c - 1461 * q) / 365
        } else {
            3
        }),
        doy == doe - 36_524 * c - 1461 * q - 365 * a,
    ensures
        0 <= c <= 3,
        0 <= q <= 24,
        0 <= a <= 3,
        0 <= doy,
        march_first(400 * era + 100 * c + 4 * q + a) + doy == days + 719_468,
        doy <= 364 || (doy == 365 && is_leap(400 * era + 100 * c + 4 * q + a + 1)),
        400 * era + 100 * c + 4 * q + a >= 1969,
{
    let y = 400 * era + 100 * c + 4 * q + a;
    assert(y / 4 == 100 * era + 25 * c + q);
    assert(y / 100 == 4 * era + c);
    assert(y / 400 == era);
    if doy == 365 {
        assert(a == 3);
        if q == 24 {
            assert(c == 3);
            assert((y + 1) % 400 == 0);
        } else {
            assert((y + 1) % 4 == 0);
            assert((y + 1) % 100 == 4 * (q + 1) % 100);
        }
    }
}

proof fn lemma_months(y: int, doy: int, mp: int)
    requires
        0 <= doy <= 364 || (doy == 365 && is_leap(y + 1)),
        mp == (5 * doy + 2) / 153,
    ensures
        0 <= mp <= 11,
        (153 * mp + 2) / 5 <= doy,
        ({
            let m = if mp < 10 {
                mp + 3
            } else {
                mp - 9
            };
            let year = if m <= 2 {
                y + 1
            } else {
                y
            };
            let d = doy - (153 * mp + 2) / 5 + 1;
            is_date(year, m, d) && day_number(year, m, d) == march_first(y) + doy - 719_468
        }),
{
    lemma_leap_step(y);
    let m = if mp < 10 {
        mp + 3
    } else {
        mp - 9
    };
    let year = if m <= 2 {
        y + 1
    } else {
        y
    };
    lemma_before_month(year, m);
    assert(mp == 0 || mp == 1 || mp == 2 || mp == 3 || mp == 4 || mp == 5 || mp == 6 || mp == 7 || mp == 8 || mp == 9
        || mp == 10 || mp == 11);
}

proof fn lemma_leap_step(y: int)
    ensures
        leap_years(y) == leap_years(y - 1) + (if is_leap(y) {
            1int
        } else {
            0
        }),
{
}

/// The days before each month, without a table of months.
proof fn lemma_before_month(y: int, m: int)
    requires
        1 <= m <= 12,
    ensures
        days_before_month(y, m) == (if m == 1 {
            0int
        } else if m == 2 {
            31
        } else {
            (153 * (m - 3) + 2) / 5 + 59 + (if is_leap(y) {
                1int
            } else {
                0
            })
        }),
    decreases m,
{
    if m > 1 {
        lemma_before_month(y, m - 1);
        assert(m == 2 || m == 3 || m == 4 || m == 5 || m == 6 || m == 7 || m == 8 || m == 9 || m == 10 || m == 11 || m
            == 12);
    }
}

/// `s` is the date and time of `t` as it is shown: nothing for times before the
/// epoch.
pub open spec fn is_date_text(s: Seq<char>, t: Stamp) -> bool {
    if t.secs < 0 {
        s == "—"@
    } else {
        is_stamp_of(s, t.secs as int)
    }
}

/// The text of a date and a time of day.
fn stamp(y: u64, m: u64, d: u64, hh: u64, mm: u64) -> (r: String)
    ensures
        r@ == stamp_text(y as int, m as int, d as int, hh as int, mm as int),
{
    let mut out = padded_decimal(y, 4);
    out.append("-");
    out.append(padded_decimal(m, 2).as_str());
    out.append("-");
    out.append(padded_decimal(d, 2).as_str());
    out.append(" ");
    out.append(padded_decimal(hh, 2).as_str());
    out.append(":");
    out.append(padded_decimal(mm, 2).as_str());
    out.append(" UTC");
    out
}

/// A UTC date and time `YYYY-MM-DD HH:MM UTC`; a dash for what lies before
/// 1970.
pub fn format_datetime(t: Stamp) -> (r: String)
    ensures
        is_date_text(r@, t),
{
    if t.secs < 0 {
        return "—".to_owned();
    }
    let secs: u64 = t.secs as u64;
    let (y, m, d) = civil_from_days(secs / 86_400);
    let hh: u64 = secs % 86_400 / 3600;
    let mm: u64 = secs % 3600 / 60;
    assert(day_number(y as int, m as int, d as int) == t.secs as int / 86_400);
    stamp(y, m, d, hh, mm)
}

/// How an age is said: below 90 seconds as nothing; then in whole minutes up to 90,
/// in whole hours up to 36, in whole days below 30, in months of 30 days below a
/// year of 365, and then in years and what months of 30 days are over, eleven at
/// most; each number is what fits whole into the age.
pub proof fn law_age_in_its_unit(secs: nat, n: nat)
    ensures
        secs < 90 ==> age_label_spec(secs) == "just now"@,
        90 <= secs < 90 * 60 && n * 60 <= secs < (n + 1) * 60 ==> age_label_spec(secs) == labels::dec(n) + "m ago"@,
        90 * 60 <= secs < 36 * 3600 && n * 3600 <= secs < (n + 1) * 3600 ==> age_label_spec(secs) == labels::dec(n)
            + "h ago"@,
        36 * 3600 <= secs < 30 * 86_400 && n * 86_400 <= secs < (n + 1) * 86_400 ==> age_label_spec(secs) == labels::dec(n)
            + "d ago"@,
        30 * 86_400 <= secs < 365 * 86_400 && n * 2_592_000 <= secs < (n + 1) * 2_592_000 ==> age_label_spec(secs)
            == labels::dec(n) + "mo ago"@,
        365 * 86_400 <= secs && n * 31_536_000 <= secs < n * 31_536_000 + 2_592_000 ==> age_label_spec(secs)
            == labels::dec(n) + "y ago"@,
        365 * 86_400 <= secs ==> forall|m: nat|
            1 <= m <= 11 && n * 31_536_000 + m * 2_592_000 <= secs < (n + 1) * 31_536_000 && (m == 11 || secs < n * 31_536_000
                + (m + 1) * 2_592_000) ==> age_label_spec(secs) == labels::dec(n) + "y "@ + #[trigger] labels::dec(m) + "mo ago"@,
{
    if 365 * 86_400 <= secs {
        let days = secs / 86_400;
        assert forall|m: nat|
            1 <= m <= 11 && n * 31_536_000 + m * 2_592_000 <= secs < (n + 1) * 31_536_000 && (m == 11 || secs < n * 31_536_000
                + (m + 1) * 2_592_000) implies age_label_spec(secs) == labels::dec(n) + "y "@ + #[trigger] labels::dec(m)
            + "mo ago"@ by {
            assert(days / 365 == n);
            assert(30 * m <= days % 365);
            assert(m < 11 ==> days % 365 < 30 * (m + 1));
            assert(months_over(days) == m);
        }
    }
    if 365 * 86_400 <= secs && n * 31_536_000 <= secs < n * 31_536_000 + 2_592_000 {
        let days = secs / 86_400;
        assert(days / 365 == n && days % 365 < 30);
    }
}

/// The Gregorian calendar: the months have 31, 28 or 29, 31, 30, 31, 30, 31, 31,
/// 30, 31, 30 and 31 days; February has 29 in the years that four divides, but of
/// those that a hundred divides only in those that four hundred divides; and the
/// days count from January 1 of 1970, which is day 0.
pub proof fn law_calendar(y: int)
    ensures
        month_days(y, 1) == 31 && month_days(y, 3) == 31 && month_days(y, 4) == 30 && month_days(y, 5) == 31,
        month_days(y, 6) == 30 && month_days(y, 7) == 31 && month_days(y, 8) == 31 && month_days(y, 9) == 30,
        month_days(y, 10) == 31 && month_days(y, 11) == 30 && month_days(y, 12) == 31,
        month_days(y, 2) == (if y % 400 == 0 || (y % 4 == 0 && y % 100 != 0) {
            29int
        } else {
            28
        }),
        day_number(1970, 1, 1) == 0,
        day_number(y + 1, 1, 1) - day_number(y, 1, 1) == (if y % 400 == 0 || (y % 4 == 0 && y % 100 != 0) {
            366int
        } else {
            365
        }),
{
    lemma_before_month(y, 1);
    lemma_before_month(y + 1, 1);
    lemma_before_month(1970, 1);
    lemma_leap_step(y);
    assert(is_leap(y) <==> y % 400 == 0 || (y % 4 == 0 && y % 100 != 0)) by {
        assert(y % 400 == 0 ==> y % 4 == 0);
    }
}

proof fn lemma_minute(secs: int, day: int)
    requires
        secs >= 0,
        day == secs / 86_400,
    ensures
        0 <= secs % 86_400 / 3600 < 24,
        0 <= secs % 3600 / 60 < 60,
        day * 86_400 + (secs % 86_400 / 3600) * 3600 + (secs % 3600 / 60) * 60 <= secs,
        secs < day * 86_400 + (secs % 86_400 / 3600) * 3600 + (secs % 3600 / 60) * 60 + 60,
{
    let t = secs % 86_400;
    assert(secs == day * 86_400 + t);
    assert(secs % 3600 == t % 3600);
}

/// The time of day that is shown is the whole minute that the seconds lie in.
#[verifier::spinoff_prover]
pub proof fn law_clock_shows_the_minute(text: Seq<char>, secs: int)
    requires
        is_stamp_of(text, secs),
        secs >= 0,
    ensures
        exists|y: int, m: int, d: int, hh: int, mm: int|
            is_date(y, m, d) && 0 <= hh < 24 && 0 <= mm < 60 && text == #[trigger] stamp_text(y, m, d, hh, mm)
                && day_number(y, m, d) * 86_400 + hh * 3600 + mm * 60 <= secs < day_number(y, m, d) * 86_400 + hh * 3600
                + mm * 60 + 60,
{
    let (y, m, d) = choose|y: int, m: int, d: int|
        is_date(y, m, d) && #[trigger] day_number(y, m, d) == secs / 86_400 && text == stamp_text(
            y,
            m,
            d,
            secs % 86_400 / 3600,
            secs % 3600 / 60,
        );
    let (hh, mm) = (secs % 86_400 / 3600, secs % 3600 / 60);
    lemma_minute(secs, day_number(y, m, d));
    assert(text == stamp_text(y, m, d, hh, mm));
}

/// The age of something is what has passed since, in whole seconds; what lies in
/// the future has none.
pub proof fn law_seconds_between(from: Stamp, to: Stamp)
    requires
        from.wf(),
        to.wf(),
    ensures
        from.secs > to.secs ==> secs_between(from, to) == 0,
        from.secs <= to.secs && from.nanos <= to.nanos ==> secs_between(from, to) == to.secs - from.secs,
        from.secs < to.secs && from.nanos > to.nanos ==> secs_between(from, to) == to.secs - from.secs - 1,
{
}

} // verus!
