//! Civil (proleptic Gregorian) calendar arithmetic over seconds since the
//! Unix epoch, and the RFC 3339 text form used by the watermark checkpoint.
//!
//! The supported range is 1970-01-01T00:00:00Z (second 0) up to but not
//! including 10000-01-01T00:00:00Z, so a formatted year always has exactly
//! four digits.

use vstd::prelude::*;

verus! {

/// One second past the largest supported timestamp:
/// 10000-01-01T00:00:00Z in seconds since the epoch.
pub const TS_MAX: i64 = 253402300800;

pub open spec fn is_leap(y: int) -> bool {
    (y % 4 == 0 && y % 100 != 0) || y % 400 == 0
}

pub open spec fn days_in_year(y: int) -> int {
    if is_leap(y) {
        366
    } else {
        365
    }
}

pub open spec fn days_in_month(y: int, m: int) -> int {
    if m == 2 {
        if is_leap(y) {
            29
        } else {
            28
        }
    } else if m == 4 || m == 6 || m == 9 || m == 11 {
        30
    } else {
        31
    }
}

/// Days from the epoch to the start of year `y` (for `y >= 1970`).
pub open spec fn days_before_year(y: int) -> int
    decreases y,
{
    if y <= 1970 {
        0
    } else {
        days_before_year(y - 1) + days_in_year(y - 1)
    }
}

/// Days from the start of the year to the start of month `m` (for `m >= 1`).
pub open spec fn days_before_month(y: int, m: int) -> int
    decreases m,
{
    if m <= 1 {
        0
    } else {
        days_before_month(y, m - 1) + days_in_month(y, m - 1)
    }
}

/// A civil date-time, fields in their natural ranges.
#[derive(Clone, Copy, Debug, PartialEq, Eq, Structural)]
pub struct Civil {
    pub year: i64,
    pub month: i64,
    pub day: i64,
    pub hour: i64,
    pub minute: i64,
    pub second: i64,
}

pub open spec fn valid_civil(c: Civil) -> bool {
    &&& 1970 <= c.year <= 9999
    &&& 1 <= c.month <= 12
    &&& 1 <= c.day <= days_in_month(c.year as int, c.month as int)
    &&& 0 <= c.hour < 24
    &&& 0 <= c.minute < 60
    &&& 0 <= c.second < 60
}

/// Days from the epoch to a civil date.
pub open spec fn epoch_days(c: Civil) -> int {
    days_before_year(c.year as int) + days_before_month(c.year as int, c.month as int) + (c.day
        - 1)
}

/// Seconds from the epoch to a civil date-time.
pub open spec fn epoch_secs(c: Civil) -> int {
    epoch_days(c) * 86400 + c.hour * 3600 + c.minute * 60 + c.second
}

/// The months of a year sum to the year's length.
pub proof fn lemma_months_sum(y: int)
    ensures
        days_before_month(y, 13) == days_in_year(y),
{
    assert(days_before_month(y, 1) == 0);
    assert(days_before_month(y, 2) == 31);
    assert(days_before_month(y, 3) == days_before_month(y, 2) + days_in_month(y, 2));
    assert(days_before_month(y, 4) == days_before_month(y, 3) + 31);
    assert(days_before_month(y, 5) == days_before_month(y, 4) + 30);
    assert(days_before_month(y, 6) == days_before_month(y, 5) + 31);
    assert(days_before_month(y, 7) == days_before_month(y, 6) + 30);
    assert(days_before_month(y, 8) == days_before_month(y, 7) + 31);
    assert(days_before_month(y, 9) == days_before_month(y, 8) + 31);
    assert(days_before_month(y, 10) == days_before_month(y, 9) + 30);
    assert(days_before_month(y, 11) == days_before_month(y, 10) + 31);
    assert(days_before_month(y, 12) == days_before_month(y, 11) + 30);
    assert(days_before_month(y, 13) == days_before_month(y, 12) + 31);
}

/// `days_before_year` is monotone, with linear lower and upper bounds.
pub proof fn lemma_dby_bounds(y: int)
    requires
        y >= 1970,
    ensures
        365 * (y - 1970) <= days_before_year(y) <= 366 * (y - 1970),
    decreases y,
{
    if y > 1970 {
        lemma_dby_bounds(y - 1);
    }
}

pub proof fn lemma_dby_mono(y1: int, y2: int)
    requires
        y1 <= y2,
    ensures
        days_before_year(y1) <= days_before_year(y2),
    decreases y2,
{
    if y1 < y2 && y2 > 1970 {
        lemma_dby_mono(y1, y2 - 1);
    }
}

pub proof fn lemma_dbm_mono(y: int, m1: int, m2: int)
    requires
        m1 <= m2,
    ensures
        days_before_month(y, m1) <= days_before_month(y, m2),
    decreases m2,
{
    if m1 < m2 && m2 > 1 {
        lemma_dbm_mono(y, m1, m2 - 1);
    }
}

/// Leap years from 1970 (inclusive) to `y` (exclusive), in closed form.
pub open spec fn leaps_before(y: int) -> int {
    ((y - 1) / 4 - 492) - ((y - 1) / 100 - 19) + ((y - 1) / 400 - 4)
}

/// Stepping a quotient by one: `y / d` grows by one over `(y - 1) / d`
/// exactly when `d` divides `y`.
proof fn lemma_div_step(y: int, d: int)
    requires
        y >= 1,
        d >= 1,
    ensures
        y / d - (y - 1) / d == if y % d == 0 {
            1int
        } else {
            0int
        },
{
    vstd::arithmetic::div_mod::lemma_fundamental_div_mod(y, d);
    let q = y / d;
    let r = y % d;
    if r == 0 {
        assert((q - 1) * d + (d - 1) == d * q - 1) by (nonlinear_arith);
        vstd::arithmetic::div_mod::lemma_fundamental_div_mod_converse(y - 1, d, q - 1, d - 1);
    } else {
        assert(q * d + (r - 1) == d * q + r - 1) by (nonlinear_arith);
        vstd::arithmetic::div_mod::lemma_fundamental_div_mod_converse(y - 1, d, q, r - 1);
    }
}

/// If 400 divides `z` then so do 100 and 4; if 100 divides `z` so does 4.
proof fn lemma_divisibility_chain(z: int)
    requires
        z >= 1,
    ensures
        z % 400 == 0 ==> z % 100 == 0,
        z % 100 == 0 ==> z % 4 == 0,
{
    vstd::arithmetic::div_mod::lemma_fundamental_div_mod(z, 400);
    vstd::arithmetic::div_mod::lemma_fundamental_div_mod(z, 100);
    if z % 400 == 0 {
        assert((4 * (z / 400)) * 100 == 400 * (z / 400)) by (nonlinear_arith);
        vstd::arithmetic::div_mod::lemma_fundamental_div_mod_converse(z, 100, 4 * (z / 400), 0);
    }
    if z % 100 == 0 {
        assert((25 * (z / 100)) * 4 == 100 * (z / 100)) by (nonlinear_arith);
        vstd::arithmetic::div_mod::lemma_fundamental_div_mod_converse(z, 4, 25 * (z / 100), 0);
    }
}

/// Closed form for `days_before_year`.
pub proof fn lemma_dby_closed(y: int)
    requires
        y >= 1970,
    ensures
        days_before_year(y) == 365 * (y - 1970) + leaps_before(y),
    decreases y,
{
    if y == 1970 {
        vstd::arithmetic::div_mod::lemma_fundamental_div_mod_converse(1969, 4, 492, 1);
        vstd::arithmetic::div_mod::lemma_fundamental_div_mod_converse(1969, 100, 19, 69);
        vstd::arithmetic::div_mod::lemma_fundamental_div_mod_converse(1969, 400, 4, 369);
    } else {
        lemma_dby_closed(y - 1);
        let z = y - 1;
        lemma_div_step(z, 4);
        lemma_div_step(z, 100);
        lemma_div_step(z, 400);
        lemma_divisibility_chain(z);
    }
}

/// The number of days to the start of the first unsupported year.
pub proof fn lemma_dby_end()
    ensures
        days_before_year(10000) == 2932897,
{
    lemma_dby_closed(10000);
    vstd::arithmetic::div_mod::lemma_fundamental_div_mod_converse(9999, 4, 2499, 3);
    vstd::arithmetic::div_mod::lemma_fundamental_div_mod_converse(9999, 100, 99, 99);
    vstd::arithmetic::div_mod::lemma_fundamental_div_mod_converse(9999, 400, 24, 399);
}

/// A date within a year stays strictly below the next year's start.
pub proof fn lemma_epoch_days_range(c: Civil)
    requires
        valid_civil(c),
    ensures
        days_before_year(c.year as int) <= epoch_days(c),
        epoch_days(c) < days_before_year(c.year as int + 1),
        0 <= epoch_days(c) < 2932897,
{
    let y = c.year as int;
    let m = c.month as int;
    lemma_dbm_mono(y, 1, m);
    assert(days_before_month(y, 1) == 0);
    assert(days_before_month(y, m + 1) == days_before_month(y, m) + days_in_month(y, m));
    lemma_dbm_mono(y, m + 1, 13);
    lemma_months_sum(y);
    lemma_dby_mono(1970, y);
    lemma_dby_mono(y + 1, 10000);
    lemma_dby_end();
}

/// A valid civil date-time lies in the supported timestamp range.
pub proof fn lemma_epoch_secs_range(c: Civil)
    requires
        valid_civil(c),
    ensures
        0 <= epoch_secs(c) < TS_MAX,
{
    lemma_epoch_days_range(c);
    assert(epoch_days(c) * 86400 <= 2932896 * 86400) by (nonlinear_arith)
        requires
            epoch_days(c) <= 2932896,
    ;
    assert(epoch_days(c) * 86400 >= 0) by (nonlinear_arith)
        requires
            epoch_days(c) >= 0,
    ;
}

/// Two valid civil date-times with the same timestamp are the same.
pub proof fn lemma_civil_unique(a: Civil, b: Civil)
    requires
        valid_civil(a),
        valid_civil(b),
        epoch_secs(a) == epoch_secs(b),
    ensures
        a == b,
{
    let ra = a.hour * 3600 + a.minute * 60 + a.second;
    let rb = b.hour * 3600 + b.minute * 60 + b.second;
    assert(0 <= ra < 86400);
    assert(0 <= rb < 86400);
    lemma_epoch_days_range(a);
    lemma_epoch_days_range(b);
    assert(epoch_days(a) * 86400 + ra == epoch_days(b) * 86400 + rb);
    assert(epoch_days(a) == epoch_days(b) && ra == rb) by (nonlinear_arith)
        requires
            epoch_days(a) * 86400 + ra == epoch_days(b) * 86400 + rb,
            0 <= ra < 86400,
            0 <= rb < 86400,
    ;
    // years
    if a.year < b.year {
        lemma_dby_mono(a.year as int + 1, b.year as int);
        assert(false);
    }
    if b.year < a.year {
        lemma_dby_mono(b.year as int + 1, a.year as int);
        assert(false);
    }
    // months
    let y = a.year as int;
    if a.month < b.month {
        lemma_dbm_mono(y, a.month as int + 1, b.month as int);
        assert(false);
    }
    if b.month < a.month {
        lemma_dbm_mono(y, b.month as int + 1, a.month as int);
        assert(false);
    }
}

/// The year containing day `days`, counting from the start of year `y`.
pub open spec fn year_of_h(days: int, y: int) -> int
    decreases days,
{
    if days < days_in_year(y) {
        y
    } else {
        year_of_h(days - days_in_year(y), y + 1)
    }
}

/// The month containing day `doy` of year `y`, starting the search at `m`.
pub open spec fn month_of_h(y: int, doy: int, m: int) -> int
    decreases 12 - m,
{
    if m >= 12 {
        12
    } else if doy < days_before_month(y, m + 1) {
        m
    } else {
        month_of_h(y, doy, m + 1)
    }
}

/// The civil decomposition of a timestamp.
pub open spec fn spec_civil_of(ts: int) -> Civil {
    let days = ts / 86400;
    let rem = ts % 86400;
    let y = year_of_h(days, 1970);
    let doy = days - days_before_year(y);
    let m = month_of_h(y, doy, 1);
    let d = doy - days_before_month(y, m) + 1;
    Civil {
        year: y as i64,
        month: m as i64,
        day: d as i64,
        hour: (rem / 3600) as i64,
        minute: ((rem % 3600) / 60) as i64,
        second: (rem % 60) as i64,
    }
}

proof fn lemma_year_of_h(days: int, y: int)
    requires
        0 <= days,
        1970 <= y,
    ensures
        y <= year_of_h(days, y),
        days_before_year(year_of_h(days, y)) - days_before_year(y) <= days,
        days < days_before_year(year_of_h(days, y)) - days_before_year(y) + days_in_year(
            year_of_h(days, y),
        ),
    decreases days,
{
    if days >= days_in_year(y) {
        lemma_year_of_h(days - days_in_year(y), y + 1);
    }
}

proof fn lemma_month_of_h(y: int, doy: int, m: int)
    requires
        1 <= m <= 12,
        days_before_month(y, m) <= doy,
        doy < days_before_month(y, 13),
    ensures
        m <= month_of_h(y, doy, m) <= 12,
        days_before_month(y, month_of_h(y, doy, m)) <= doy,
        doy < days_before_month(y, month_of_h(y, doy, m) + 1),
    decreases 12 - m,
{
    if m < 12 && doy >= days_before_month(y, m + 1) {
        lemma_month_of_h(y, doy, m + 1);
    }
}

/// The civil decomposition of a supported timestamp is the unique valid
/// civil date-time with that timestamp.
pub proof fn lemma_civil_of_correct(ts: int)
    requires
        0 <= ts < TS_MAX,
    ensures
        valid_civil(spec_civil_of(ts)),
        epoch_secs(spec_civil_of(ts)) == ts,
{
    let days = ts / 86400;
    let rem = ts % 86400;
    vstd::arithmetic::div_mod::lemma_fundamental_div_mod(ts, 86400);
    vstd::arithmetic::div_mod::lemma_mod_pos_bound(ts, 86400);
    vstd::arithmetic::div_mod::lemma_div_pos_is_pos(ts, 86400);
    assert(days <= 2932896) by {
        vstd::arithmetic::div_mod::lemma_div_is_ordered(ts, TS_MAX - 1, 86400);
        vstd::arithmetic::div_mod::lemma_fundamental_div_mod_converse(
            TS_MAX - 1,
            86400,
            2932896,
            86399,
        );
    };
    let y = year_of_h(days, 1970);
    lemma_year_of_h(days, 1970);
    assert(days_before_year(1970) == 0);
    assert(y <= 9999) by {
        if y >= 10000 {
            lemma_dby_mono(10000, y);
            lemma_dby_end();
        }
    };
    let doy = days - days_before_year(y);
    lemma_months_sum(y);
    let m = month_of_h(y, doy, 1);
    assert(days_before_month(y, 1) == 0);
    lemma_month_of_h(y, doy, 1);
    assert(days_before_month(y, m + 1) == days_before_month(y, m) + days_in_month(y, m));
    let d = doy - days_before_month(y, m) + 1;
    assert(1 <= d <= days_in_month(y, m));
    // time of day
    let r2 = rem % 3600;
    let h = rem / 3600;
    vstd::arithmetic::div_mod::lemma_fundamental_div_mod(rem, 3600);
    vstd::arithmetic::div_mod::lemma_mod_pos_bound(rem, 3600);
    vstd::arithmetic::div_mod::lemma_div_pos_is_pos(rem, 3600);
    assert(h <= 23) by {
        vstd::arithmetic::div_mod::lemma_div_is_ordered(rem, 86399, 3600);
        vstd::arithmetic::div_mod::lemma_fundamental_div_mod_converse(86399, 3600, 23, 3599);
    };
    let mi = r2 / 60;
    vstd::arithmetic::div_mod::lemma_fundamental_div_mod(r2, 60);
    vstd::arithmetic::div_mod::lemma_mod_pos_bound(r2, 60);
    vstd::arithmetic::div_mod::lemma_div_pos_is_pos(r2, 60);
    assert(mi <= 59) by {
        vstd::arithmetic::div_mod::lemma_div_is_ordered(r2, 3599, 60);
        vstd::arithmetic::div_mod::lemma_fundamental_div_mod_converse(3599, 60, 59, 59);
    };
    vstd::arithmetic::div_mod::lemma_mod_pos_bound(rem, 60);
    assert(rem % 60 == r2 % 60) by {
        vstd::arithmetic::div_mod::lemma_mod_multiples_vanish(60 * h, r2, 60);
        assert(60 * (60 * h) + r2 == rem) by (nonlinear_arith)
            requires
                rem == 3600 * h + r2,
        ;
    };
    let c = spec_civil_of(ts);
    assert(valid_civil(c));
    assert(epoch_days(c) == days);
    assert(c.hour * 3600 + c.minute * 60 + c.second == rem) by {
        vstd::arithmetic::div_mod::lemma_fundamental_div_mod(r2, 60);
    };
}

/// Leap-year test.
pub fn is_leap_year(y: i64) -> (r: bool)
    requires
        y >= 0,
    ensures
        r == is_leap(y as int),
{
    (y % 4 == 0 && y % 100 != 0) || y % 400 == 0
}

/// Length of a year in days.
pub fn year_days(y: i64) -> (r: i64)
    requires
        y >= 0,
    ensures
        r == days_in_year(y as int),
{
    if is_leap_year(y) {
        366
    } else {
        365
    }
}

/// Length of a month in days.
pub fn month_days(y: i64, m: i64) -> (r: i64)
    requires
        y >= 0,
        1 <= m <= 12,
    ensures
        r == days_in_month(y as int, m as int),
{
    if m == 2 {
        if is_leap_year(y) {
            29
        } else {
            28
        }
    } else if m == 4 || m == 6 || m == 9 || m == 11 {
        30
    } else {
        31
    }
}

/// Decompose a supported timestamp into the unique valid civil date-time.
pub fn to_civil(ts: i64) -> (c: Civil)
    requires
        0 <= ts < TS_MAX,
    ensures
        valid_civil(c),
        epoch_secs(c) == ts,
        c == spec_civil_of(ts as int),
{
    let days: i64 = ts / 86400;
    let rem: i64 = ts % 86400;
    proof {
        lemma_dby_end();
    }
    assert(0 <= days < 2932897);

    let mut y: i64 = 1970;
    let mut doy: i64 = days;
    while doy >= year_days(y)
        invariant
            1970 <= y <= 9999,
            0 <= doy,
            days_before_year(y as int) + doy == days,
            days < 2932897,
        decreases doy,
    {
        doy = doy - year_days(y);
        y = y + 1;
        proof {
            if y as int > 9999 {
                lemma_dby_mono(10000, y as int);
                lemma_dby_end();
                assert(false);
            }
        }
    }
    assert(doy < days_in_year(y as int));

    let mut m: i64 = 1;
    let mut dom: i64 = doy;
    proof {
        lemma_months_sum(y as int);
    }
    while m < 12 && dom >= month_days(y, m)
        invariant
            1970 <= y <= 9999,
            1 <= m <= 12,
            0 <= dom,
            days_before_month(y as int, m as int) + dom == doy,
            doy < days_in_year(y as int),
            days_before_month(y as int, 13) == days_in_year(y as int),
        decreases 12 - m,
    {
        dom = dom - month_days(y, m);
        m = m + 1;
    }
    proof {
        if dom >= days_in_month(y as int, m as int) {
            assert(m == 12);
            assert(days_before_month(y as int, 13) <= doy);
            assert(false);
        }
    }

    let hour: i64 = rem / 3600;
    let minute: i64 = (rem % 3600) / 60;
    let second: i64 = rem % 60;
    let c = Civil { year: y, month: m, day: dom + 1, hour, minute, second };
    assert(epoch_secs(c) == ts) by {
        assert(epoch_days(c) == days);
        assert(days * 86400 + rem == ts);
        assert(hour * 3600 + minute * 60 + second == rem);
    };
    proof {
        lemma_civil_of_correct(ts as int);
        lemma_civil_unique(c, spec_civil_of(ts as int));
    }
    c
}

/// Compose a valid civil date-time into its timestamp.
pub fn from_civil(c: &Civil) -> (ts: i64)
    requires
        valid_civil(*c),
    ensures
        ts == epoch_secs(*c),
        0 <= ts < TS_MAX,
{
    proof {
        lemma_epoch_secs_range(*c);
        lemma_epoch_days_range(*c);
    }
    let mut days: i64 = 0;
    let mut i: i64 = 1970;
    while i < c.year
        invariant
            1970 <= i <= c.year <= 9999,
            days == days_before_year(i as int),
            days_before_year(c.year as int) < 2932897,
        decreases c.year - i,
    {
        proof {
            lemma_dby_mono(i as int + 1, c.year as int);
        }
        days = days + year_days(i);
        i = i + 1;
    }
    let mut j: i64 = 1;
    while j < c.month
        invariant
            1 <= j <= c.month,
            valid_civil(*c),
            days == days_before_year(c.year as int) + days_before_month(c.year as int, j as int),
            days_before_year(c.year as int) + days_before_month(c.year as int, c.month as int)
                < 2932897,
        decreases c.month - j,
    {
        proof {
            lemma_dbm_mono(c.year as int, j as int + 1, c.month as int);
        }
        days = days + month_days(c.year, j);
        j = j + 1;
    }
    days = days + (c.day - 1);
    assert(days == epoch_days(*c));
    assert(days * 86400 < TS_MAX && days * 86400 >= 0) by (nonlinear_arith)
        requires
            0 <= days < 2932897,
    ;
    days * 86400 + c.hour * 3600 + c.minute * 60 + c.second
}

} // verus!
