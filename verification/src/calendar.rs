//! Civil (proleptic Gregorian) calendar arithmetic.
use vstd::prelude::*;

verus! {

/// The March-based year `k` (0..400) of a 400-year era contains a 29 February.
pub open spec fn march_year_leap(k: int) -> bool {
    (k + 1) % 4 == 0 && ((k + 1) % 100 != 0 || (k + 1) % 400 == 0)
}

proof fn lemma_year_of_era(doe: u64)
    requires
        doe < 146097,
    ensures
        ({
            let yoe = (doe - doe / 1460 + doe / 36524 - doe / 146096) / 365;
            let base = 365 * yoe + yoe / 4 - yoe / 100;
            &&& 0 <= yoe < 400
            &&& base <= doe
            &&& doe - base < 365 + (if march_year_leap(yoe) { 1int } else { 0int })
        }),
{
    assert({
        let yoe: u64 = ((doe - doe / 1460 + doe / 36524 - doe / 146096) / 365) as u64;
        let base: u64 = (365 * yoe + yoe / 4 - yoe / 100) as u64;
        let k: u64 = (yoe + 1) as u64;
        &&& yoe < 400
        &&& base <= doe
        &&& doe - base < 365 + (if (k % 4 == 0 && (k % 100 != 0 || k % 400 == 0)) { 1u64 } else { 0u64 })
    }) by (bit_vector)
        requires
            doe < 146097,
    ;
}

/// Length, in days, of the `mp`-th month of a March-based year
/// (March = 0, ..., February = 11, counted with 29 days).
pub open spec fn march_month_len(mp: int) -> int {
    if mp == 11 {
        29
    } else if mp == 1 || mp == 3 || mp == 6 || mp == 8 {
        30
    } else {
        31
    }
}

proof fn lemma_month_of_year(doy: u64)
    requires
        doy <= 365,
    ensures
        ({
            let mp = (5 * doy + 2) / 153;
            let off = (153 * mp + 2) / 5;
            &&& 0 <= mp <= 11
            &&& off <= doy
            &&& doy - off < march_month_len(mp)
            &&& off == (if mp == 0 { 0int } else if mp == 1 { 31 } else if mp == 2 { 61 } else if mp == 3 { 92 }
                else if mp == 4 { 122 } else if mp == 5 { 153 } else if mp == 6 { 184 } else if mp == 7 { 214 }
                else if mp == 8 { 245 } else if mp == 9 { 275 } else if mp == 10 { 306 } else { 337 })
        }),
{
    assert({
        let mp: u64 = ((5 * doy + 2) / 153) as u64;
        let off: u64 = ((153 * mp + 2) / 5) as u64;
        &&& mp <= 11
        &&& off <= doy
        &&& doy - off < (if mp == 11 { 29u64 } else if mp == 1 || mp == 3 || mp == 6 || mp == 8 { 30u64 } else { 31u64 })
        &&& off == (if mp == 0 { 0u64 } else if mp == 1 { 31u64 } else if mp == 2 { 61u64 } else if mp == 3 { 92u64 }
                else if mp == 4 { 122u64 } else if mp == 5 { 153u64 } else if mp == 6 { 184u64 } else if mp == 7 { 214u64 }
                else if mp == 8 { 245u64 } else if mp == 9 { 275u64 } else if mp == 10 { 306u64 } else { 337u64 })
    }) by (bit_vector)
        requires
            doy <= 365,
    ;
}

// ---------------------------------------------------------------------------
// The civil calendar

/// Leap years of the Gregorian calendar.
pub open spec fn is_leap_year(y: int) -> bool {
    y % 4 == 0 && (y % 100 != 0 || y % 400 == 0)
}

/// Number of days of month `m` (1 = January) of year `y`.
pub open spec fn days_in_month(y: int, m: int) -> int {
    if m == 2 {
        if is_leap_year(y) {
            29
        } else {
            28
        }
    } else if m == 4 || m == 6 || m == 9 || m == 11 {
        30
    } else {
        31
    }
}

/// Number of days of the months of year `y` before month `m`.
pub open spec fn days_before_month(y: int, m: int) -> int
    decreases m,
{
    if m <= 1 {
        0
    } else {
        days_before_month(y, m - 1) + days_in_month(y, m - 1)
    }
}

/// Number of days of year `y`.
pub open spec fn days_in_year(y: int) -> int {
    if is_leap_year(y) {
        366
    } else {
        365
    }
}

/// Number of days from 1 January 1970 to 1 January of year `y` (`y >= 1970`).
pub open spec fn days_before_year(y: int) -> int
    decreases y - 1970,
{
    if y <= 1970 {
        0
    } else {
        days_before_year(y - 1) + days_in_year(y - 1)
    }
}

/// `(y, m, d)` names a day of the calendar: `m` in `1..=12`, `d` within the month.
pub open spec fn valid_date(y: int, m: int, d: int) -> bool {
    1 <= m <= 12 && 1 <= d <= days_in_month(y, m)
}

/// Number of days from 1970-01-01 to the date `(y, m, d)`.
pub open spec fn days_since_epoch(y: int, m: int, d: int) -> int {
    days_before_year(y) + days_before_month(y, m) + d - 1
}

/// Number of leap years in `1..=n`, counted by the Gregorian rule.
spec fn leaps_upto(n: int) -> int {
    n / 4 - n / 100 + n / 400
}

proof fn lemma_leaps_step(n: int)
    ensures
        leaps_upto(n) - leaps_upto(n - 1) == (if is_leap_year(n) { 1int } else { 0int }),
{
}

proof fn lemma_days_before_year_closed(y: int)
    requires
        y >= 1970,
    ensures
        days_before_year(y) == 365 * (y - 1970) + leaps_upto(y - 1) - leaps_upto(1969),
    decreases y - 1970,
{
    if y > 1970 {
        lemma_days_before_year_closed(y - 1);
        lemma_leaps_step(y - 1);
    }
}

proof fn lemma_shift_div(m: int, k: int, c: int)
    requires
        c > 0,
    ensures
        (m * c + k) / c == m + k / c,
        (m * c + k) % c == k % c,
{
    vstd::arithmetic::div_mod::lemma_fundamental_div_mod(k, c);
    vstd::arithmetic::mul::lemma_mul_is_distributive_add_other_way(c, m, k / c);
    assert((m + k / c) * c + k % c == m * c + k) by (nonlinear_arith)
        requires
            k == c * (k / c) + k % c,
            (m + k / c) * c == m * c + (k / c) * c,
    ;
    vstd::arithmetic::div_mod::lemma_fundamental_div_mod_converse(
        m * c + k,
        c,
        m + k / c,
        k % c,
    );
    vstd::arithmetic::mul::lemma_mul_is_distributive_add_other_way(c, m, k / c);
}

proof fn lemma_leaps_era(e: int, k: int)
    requires
        e >= 0,
    ensures
        leaps_upto(400 * e + k) == 97 * e + leaps_upto(k),
        is_leap_year(400 * e + k) == is_leap_year(k),
{
    lemma_shift_div(100 * e, k, 4);
    lemma_shift_div(4 * e, k, 100);
    lemma_shift_div(e, k, 400);
    assert(100 * e * 4 == 400 * e) by (nonlinear_arith);
    assert(4 * e * 100 == 400 * e) by (nonlinear_arith);
    assert(e * 400 == 400 * e) by (nonlinear_arith);
}

proof fn lemma_leaps_in_era(k: int)
    requires
        0 <= k < 400,
    ensures
        leaps_upto(k - 1) + (if is_leap_year(k) { 1int } else { 0int }) == k / 4 - k / 100,
{
}

proof fn lemma_month_table(y: int, m: int)
    requires
        1 <= m <= 12,
    ensures
        days_before_month(y, m) == (if m == 1 { 0int } else if m == 2 { 31 } else if m == 3 { 59 } else if m == 4 { 90 }
            else if m == 5 { 120 } else if m == 6 { 151 } else if m == 7 { 181 } else if m == 8 { 212 }
            else if m == 9 { 243 } else if m == 10 { 273 } else if m == 11 { 304 } else { 334 })
            + (if m > 2 && is_leap_year(y) { 1int } else { 0int }),
{
    reveal_with_fuel(days_before_month, 13);
}

proof fn lemma_leaps_mono(a: int, b: int)
    requires
        a <= b,
    ensures
        leaps_upto(a) <= leaps_upto(b),
    decreases b - a,
{
    if a < b {
        lemma_leaps_step(b);
        lemma_leaps_mono(a, b - 1);
    }
}

/// The date computed from an era, a day of the era, and the March-based
/// year and month within it, is the date `days` after the epoch.
proof fn lemma_civil_from_days(days: int, era: int, doe: int, yoe: int, doy: int, mp: int, y: int, m: int, d: int)
    requires
        days >= 0,
        era >= 0,
        days + 719468 == 146097 * era + doe,
        0 <= yoe < 400,
        doy == doe - (365 * yoe + yoe / 4 - yoe / 100),
        0 <= doy < 365 + (if march_year_leap(yoe) { 1int } else { 0int }),
        0 <= mp <= 11,
        ({
            let off = (if mp == 0 { 0int } else if mp == 1 { 31 } else if mp == 2 { 61 } else if mp == 3 { 92 }
                else if mp == 4 { 122 } else if mp == 5 { 153 } else if mp == 6 { 184 } else if mp == 7 { 214 }
                else if mp == 8 { 245 } else if mp == 9 { 275 } else if mp == 10 { 306 } else { 337 });
            &&& off <= doy
            &&& doy - off < march_month_len(mp)
            &&& d == doy - off + 1
        }),
        m == (if mp < 10 { mp + 3 } else { mp - 9 }),
        y == 400 * era + yoe + (if m <= 2 { 1int } else { 0int }),
    ensures
        y >= 1970,
        valid_date(y, m, d),
        days_since_epoch(y, m, d) == days,
{
    let y0 = 400 * era + yoe;
    lemma_leaps_era(era, yoe);
    lemma_leaps_era(era, yoe - 1);
    lemma_leaps_era(era, yoe + 1);
    lemma_leaps_in_era(yoe);
    lemma_leaps_step(yoe);
    lemma_month_table(y, m);
    lemma_leaps_step(y0);
    // the day count in closed form
    assert(365 * (y - 1970) + leaps_upto(y - 1) - leaps_upto(1969) + days_before_month(y, m) + d - 1 == days);
    if y < 1970 {
        lemma_leaps_mono(y - 1, 1968);
        assert(false);
    }
    lemma_days_before_year_closed(y);
}

/// The date `days` days after 1970-01-01.
pub open spec fn civil_date(days: int) -> (int, int, int) {
    choose|y: int, m: int, d: int| y >= 1970 && valid_date(y, m, d) && days_since_epoch(y, m, d) == days
}

proof fn lemma_days_before_year_mono(a: int, b: int)
    requires
        1970 <= a <= b,
    ensures
        days_before_year(a) + (b - a) * 365 <= days_before_year(b),
    decreases b - a,
{
    if a < b {
        lemma_days_before_year_mono(a, b - 1);
    }
}

proof fn lemma_day_of_year(y: int, m: int, d: int)
    requires
        valid_date(y, m, d),
    ensures
        0 <= days_before_month(y, m) + d - 1 < days_in_year(y),
{
    lemma_month_table(y, m);
}

/// Distinct dates (from 1970 on) are distinct day counts.
pub proof fn lemma_date_unique(y1: int, m1: int, d1: int, y2: int, m2: int, d2: int)
    requires
        y1 >= 1970,
        y2 >= 1970,
        valid_date(y1, m1, d1),
        valid_date(y2, m2, d2),
        days_since_epoch(y1, m1, d1) == days_since_epoch(y2, m2, d2),
    ensures
        y1 == y2 && m1 == m2 && d1 == d2,
{
    lemma_day_of_year(y1, m1, d1);
    lemma_day_of_year(y2, m2, d2);
    if y1 < y2 {
        lemma_days_before_year_mono(y1 + 1, y2);
        assert(days_before_year(y1 + 1) == days_before_year(y1) + days_in_year(y1));
    }
    if y2 < y1 {
        lemma_days_before_year_mono(y2 + 1, y1);
        assert(days_before_year(y2 + 1) == days_before_year(y2) + days_in_year(y2));
    }
    lemma_month_table(y1, m1);
    lemma_month_table(y1, m2);
}

/// Law: the date of a day count gives that day count back, and a date (from
/// 1970 on) gives back itself: `civil_date` and `days_since_epoch` are
/// inverse.
pub proof fn law_date_roundtrip(y: int, m: int, d: int)
    requires
        y >= 1970,
        valid_date(y, m, d),
    ensures
        civil_date(days_since_epoch(y, m, d)) == (y, m, d),
{
    let days = days_since_epoch(y, m, d);
    assert(y >= 1970 && valid_date(y, m, d) && days_since_epoch(y, m, d) == days);
    let w = civil_date(days);
    assert(w.0 >= 1970 && valid_date(w.0, w.1, w.2) && days_since_epoch(w.0, w.1, w.2) == days);
    lemma_date_unique(y, m, d, w.0, w.1, w.2);
}

/// The calendar day after `(y, m, d)`.
pub open spec fn next_day(y: int, m: int, d: int) -> (int, int, int) {
    if d < days_in_month(y, m) {
        (y, m, d + 1)
    } else if m < 12 {
        (y, m + 1, 1)
    } else {
        (y + 1, 1, 1)
    }
}

/// Law: the day after a date (from 1970 on) is a date, counted one day
/// later; so the date of `days + 1` is the calendar day after the date of
/// `days`.
pub proof fn law_next_day(y: int, m: int, d: int)
    requires
        y >= 1970,
        valid_date(y, m, d),
    ensures
        ({
            let n = next_day(y, m, d);
            &&& n.0 >= 1970
            &&& valid_date(n.0, n.1, n.2)
            &&& days_since_epoch(n.0, n.1, n.2) == days_since_epoch(y, m, d) + 1
            &&& civil_date(days_since_epoch(y, m, d) + 1) == n
        }),
{
    let n = next_day(y, m, d);
    if d < days_in_month(y, m) {
    } else if m < 12 {
        assert(days_before_month(y, m + 1) == days_before_month(y, m) + days_in_month(y, m));
    } else {
        lemma_month_table(y, 12);
        assert(days_before_year(y + 1) == days_before_year(y) + days_in_year(y));
    }
    law_date_roundtrip(n.0, n.1, n.2);
}

/// Converts a count of days since 1970-01-01 to the civil date `(year, month, day)`
/// it falls on.
pub fn epoch_days_to_date(days: u64) -> (r: (u64, u64, u64))
    requires
        days <= u64::MAX - 719468,
    ensures
        r.0 >= 1970,
        valid_date(r.0 as int, r.1 as int, r.2 as int),
        days_since_epoch(r.0 as int, r.1 as int, r.2 as int) == days,
        (r.0 as int, r.1 as int, r.2 as int) == civil_date(days as int),
{
    let z = days + 719468;
    let era = z / 146097;
    let doe = z - era * 146097;
    proof {
        lemma_year_of_era(doe);
    }
    let yoe = (doe - doe / 1460 + doe / 36524 - doe / 146096) / 365;
    let y = yoe + era * 400;
    let doy = doe - (365 * yoe + yoe / 4 - yoe / 100);
    proof {
        lemma_month_of_year(doy);
    }
    let mp = (5 * doy + 2) / 153;
    let d = doy - (153 * mp + 2) / 5 + 1;
    let m = if mp < 10 { mp + 3 } else { mp - 9 };
    let y = if m <= 2 { y + 1 } else { y };
    proof {
        lemma_civil_from_days(
            days as int,
            era as int,
            doe as int,
            yoe as int,
            doy as int,
            mp as int,
            y as int,
            m as int,
            d as int,
        );
        let w = civil_date(days as int);
        assert(w.0 >= 1970 && valid_date(w.0, w.1, w.2) && days_since_epoch(w.0, w.1, w.2) == days);
        lemma_date_unique(y as int, m as int, d as int, w.0, w.1, w.2);
    }
    (y, m, d)
}

} // verus!
