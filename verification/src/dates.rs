//! Proleptic Gregorian calendar arithmetic over 64-bit day counts (Howard
//! Hinnant's `days_from_civil` / `civil_from_days`), and the date and
//! timestamp readers built on it.
use vstd::prelude::*;


verus! {

pub open spec fn i64_ok(v: int) -> bool {
    i64::MIN <= v <= i64::MAX
}

/// Rust's `/` on signed integers (rounds toward zero), for a positive divisor.
pub open spec fn tdiv(a: int, b: int) -> int {
    if a >= 0 {
        a / b
    } else {
        -((-a) / b)
    }
}

// --- days_from_civil, step by step -----------------------------------------

pub open spec fn dfc_year(y: int, m: int) -> int {
    if m <= 2 {
        y - 1
    } else {
        y
    }
}

pub open spec fn dfc_era(y: int, m: int) -> int {
    dfc_year(y, m) / 400
}

pub open spec fn dfc_yoe(y: int, m: int) -> int {
    dfc_year(y, m) - dfc_era(y, m) * 400
}

pub open spec fn dfc_mp(m: int) -> int {
    if m > 2 {
        m - 3
    } else {
        m + 9
    }
}

pub open spec fn dfc_doy(m: int, d: int) -> int {
    tdiv(153 * dfc_mp(m) + 2, 5) + d - 1
}

pub open spec fn dfc_doe(y: int, m: int, d: int) -> int {
    let yoe = dfc_yoe(y, m);
    yoe * 365 + yoe / 4 - yoe / 100 + dfc_doy(m, d)
}

/// Days from 1970-01-01 to the date `y-m-d`.
pub open spec fn civil_days(y: int, m: int, d: int) -> int {
    dfc_era(y, m) * 146_097 + dfc_doe(y, m, d) - 719_468
}

/// Every intermediate of the 64-bit computation is representable: exactly the
/// inputs on which `days_from_civil` does not overflow.
pub open spec fn civil_fits(y: int, m: int, d: int) -> bool {
    let y2 = dfc_year(y, m);
    let era = dfc_era(y, m);
    let mp = dfc_mp(m);
    &&& i64_ok(y2)
    &&& i64_ok(era * 400)
    &&& i64_ok(mp)
    &&& i64_ok(153 * mp)
    &&& i64_ok(153 * mp + 2)
    &&& i64_ok(tdiv(153 * mp + 2, 5) + d)
    &&& i64_ok(dfc_doy(m, d))
    &&& i64_ok(dfc_yoe(y, m) * 365 + dfc_yoe(y, m) / 4 - dfc_yoe(y, m) / 100 + dfc_doy(m, d))
    &&& i64_ok(era * 146_097)
    &&& i64_ok(era * 146_097 + dfc_doe(y, m, d))
    &&& i64_ok(civil_days(y, m, d))
}

/// Every date with a year within a million of year 0 and an ordinary month
/// and day converts without overflow, to within a billion days of the epoch.
pub proof fn lemma_civil_small(y: int, m: int, d: int)
    requires
        -1_000_000 <= y <= 1_000_000,
        1 <= m <= 12,
        1 <= d <= 31,
    ensures
        civil_fits(y, m, d),
        -1_000_000_000 <= civil_days(y, m, d) <= 1_000_000_000,
{
    let y2 = dfc_year(y, m);
    let era = dfc_era(y, m);
    assert(-2501 <= era <= 2501) by (nonlinear_arith)
        requires
            era == y2 / 400,
            -1_000_001 <= y2 <= 1_000_000,
    ;
    let yoe = dfc_yoe(y, m);
    assert(0 <= yoe < 400) by (nonlinear_arith)
        requires
            yoe == y2 - era * 400,
            era == y2 / 400,
    ;
    let mp = dfc_mp(m);
    assert(0 <= (153 * mp + 2) / 5 <= 337) by (nonlinear_arith)
        requires
            0 <= mp <= 11,
    ;
    assert(0 <= yoe * 365 <= 145_635) by (nonlinear_arith)
        requires
            0 <= yoe < 400,
    ;
    assert(-365_400_000 <= era * 146_097 <= 365_400_000) by (nonlinear_arith)
        requires
            -2501 <= era <= 2501,
    ;
    assert(-1_000_400 <= era * 400 <= 1_000_400) by (nonlinear_arith)
        requires
            -2501 <= era <= 2501,
    ;
}

fn tdiv_i64(a: i64, b: i64) -> (r: i64)
    requires
        b > 0,
    ensures
        r == tdiv(a as int, b as int),
{
    proof {
        if a < 0 {
            assert((-(a as int)) / (b as int) <= -(a as int)) by (nonlinear_arith)
                requires
                    a < 0,
                    b > 0,
            ;
            assert(0 <= (-(a as int)) / (b as int)) by (nonlinear_arith)
                requires
                    a < 0,
                    b > 0,
            ;
        }
    }
    a / b
}

/// Days from 1970-01-01 to `y-m-d` (the month and day may lie outside their
/// usual ranges; the formula extends to them).
pub fn days_from_civil(y: i64, m: i64, d: i64) -> (r: i64)
    requires
        civil_fits(y as int, m as int, d as int),
    ensures
        r == civil_days(y as int, m as int, d as int),
{
    let y = if m <= 2 {
        y - 1
    } else {
        y
    };
    let era = if y >= 0 {
        y / 400
    } else {
        (y + 1) / 400 - 1
    };
    proof {
        if y < 0 {
            assert(era == (y as int) / 400) by (nonlinear_arith)
                requires
                    y < 0,
                    era == tdiv((y + 1) as int, 400) - 1,
            ;
        }
    }
    let yoe = y - era * 400;
    assert(0 <= yoe < 400);
    let mp = if m > 2 {
        m - 3
    } else {
        m + 9
    };
    let doy = tdiv_i64(153 * mp + 2, 5) + d - 1;
    let doe = yoe * 365 + yoe / 4 - yoe / 100 + doy;
    era * 146_097 + doe - 719_468
}

// --- civil_from_days --------------------------------------------------------

pub open spec fn cfd_z(z: int) -> int {
    z + 719_468
}

pub open spec fn cfd_era(z: int) -> int {
    cfd_z(z) / 146_097
}

pub open spec fn cfd_doe(z: int) -> int {
    cfd_z(z) % 146_097
}

pub open spec fn cfd_yoe(z: int) -> int {
    let doe = cfd_doe(z);
    (doe - doe / 1460 + doe / 36_524 - doe / 146_096) / 365
}

pub open spec fn cfd_doy(z: int) -> int {
    let yoe = cfd_yoe(z);
    cfd_doe(z) - (365 * yoe + yoe / 4 - yoe / 100)
}

pub open spec fn cfd_mp(z: int) -> int {
    (5 * cfd_doy(z) + 2) / 153
}

/// The day of the month of day `z` (days since 1970-01-01).
pub open spec fn cfd_day(z: int) -> int {
    cfd_doy(z) - (153 * cfd_mp(z) + 2) / 5 + 1
}

/// The month (1-12) of day `z`.
pub open spec fn cfd_month(z: int) -> int {
    if cfd_mp(z) < 10 {
        cfd_mp(z) + 3
    } else {
        cfd_mp(z) - 9
    }
}

/// The year of day `z`.
pub open spec fn cfd_year(z: int) -> int {
    let y = cfd_yoe(z) + cfd_era(z) * 400;
    if cfd_month(z) <= 2 {
        y + 1
    } else {
        y
    }
}

/// The date `(year, month, day)` of day `z`.
pub open spec fn civil_date(z: int) -> (int, int, int) {
    (cfd_year(z), cfd_month(z), cfd_day(z))
}

/// Inputs on which the 64-bit `civil_from_days` does not overflow.
pub open spec fn days_fit(z: int) -> bool {
    &&& i64_ok(cfd_z(z))
    &&& i64_ok(cfd_era(z) * 400)
    &&& i64_ok(cfd_yoe(z) + cfd_era(z) * 400)
    &&& i64_ok(cfd_year(z))
}

pub proof fn lemma_cfd_ranges(z: int)
    ensures
        0 <= cfd_doe(z) < 146_097,
        0 <= cfd_yoe(z) <= 399,
        0 <= cfd_doy(z) <= 365,
        0 <= cfd_mp(z) <= 11,
{
    let doe = cfd_doe(z);
    assert(0 <= doe < 146_097);
    let a = doe - doe / 1460 + doe / 36_524 - doe / 146_096;
    assert(0 <= a <= 145_999int) by (nonlinear_arith)
        requires
            0 <= doe < 146_097,
            a == doe - doe / 1460 + doe / 36_524 - doe / 146_096,
    ;
    let yoe = cfd_yoe(z);
    assert(yoe == a / 365);
    assert(0 <= yoe <= 399);
    assert(0 <= cfd_doy(z) <= 365) by (nonlinear_arith)
        requires
            0 <= doe < 146_097,
            a == doe - doe / 1460 + doe / 36_524 - doe / 146_096,
            yoe == a / 365,
            0 <= yoe <= 399,
            cfd_doy(z) == doe - (365 * yoe + yoe / 4 - yoe / 100),
    ;
}

/// Reading a day number as a date and counting the days back gives the same
/// day number: `civil_days` undoes `civil_date` on every day.
pub proof fn law_days_round_trip(z: int)
    ensures
        civil_days(cfd_year(z), cfd_month(z), cfd_day(z)) == z,
{
    lemma_cfd_ranges(z);
    let era = cfd_era(z);
    let yoe = cfd_yoe(z);
    let mp = cfd_mp(z);
    let (y, m, d) = civil_date(z);
    assert(dfc_year(y, m) == yoe + era * 400);
    assert(dfc_era(y, m) == era) by (nonlinear_arith)
        requires
            dfc_era(y, m) == (yoe + era * 400) / 400,
            0 <= yoe < 400,
    ;
    assert(dfc_yoe(y, m) == yoe);
    assert(dfc_mp(m) == mp);
    let q = (153 * mp + 2) / 5;
    assert(0 <= q);
    assert(tdiv(153 * mp + 2, 5) == q);
    assert(dfc_doy(m, d) == cfd_doy(z));
    assert(dfc_doe(y, m, d) == cfd_doe(z));
    assert(era * 146_097 + cfd_doe(z) == cfd_z(z)) by (nonlinear_arith)
        requires
            era == cfd_z(z) / 146_097,
            cfd_doe(z) == cfd_z(z) % 146_097,
    ;
}

/// Gregorian leap years.
pub open spec fn leap(y: int) -> bool {
    y % 4 == 0 && (y % 100 != 0 || y % 400 == 0)
}

/// The number of days in month `m` of year `y`.
pub open spec fn month_len(y: int, m: int) -> int {
    if m == 2 {
        if leap(y) {
            29
        } else {
            28
        }
    } else if m == 4 || m == 6 || m == 9 || m == 11 {
        30
    } else {
        31
    }
}

/// A date that exists on the proleptic Gregorian calendar.
pub open spec fn real_date(y: int, m: int, d: int) -> bool {
    1 <= m <= 12 && 1 <= d <= month_len(y, m)
}

/// Within one (March-based) year: the month index and the day of the year
/// give back each other.
proof fn lemma_month_of_doy(mp: int, d: int, long_feb: bool)
    requires
        0 <= mp <= 11,
        1 <= d,
        d <= if mp == 11 {
            if long_feb {
                29int
            } else {
                28int
            }
        } else if mp == 1 || mp == 3 || mp == 6 || mp == 8 {
            30int
        } else {
            31int
        },
    ensures
        ({
            let doy = (153 * mp + 2) / 5 + d - 1;
            &&& (5 * doy + 2) / 153 == mp
            &&& 0 <= doy <= 365
            &&& doy == 365 ==> mp == 11 && d == 29
        }),
{
    let doy = (153 * mp + 2) / 5 + d - 1;
    if mp == 0 {
        assert((153 * mp + 2) / 5 == 0);
    } else if mp == 1 {
        assert((153 * mp + 2) / 5 == 31);
    } else if mp == 2 {
        assert((153 * mp + 2) / 5 == 61);
    } else if mp == 3 {
        assert((153 * mp + 2) / 5 == 92);
    } else if mp == 4 {
        assert((153 * mp + 2) / 5 == 122);
    } else if mp == 5 {
        assert((153 * mp + 2) / 5 == 153);
    } else if mp == 6 {
        assert((153 * mp + 2) / 5 == 184);
    } else if mp == 7 {
        assert((153 * mp + 2) / 5 == 214);
    } else if mp == 8 {
        assert((153 * mp + 2) / 5 == 245);
    } else if mp == 9 {
        assert((153 * mp + 2) / 5 == 275);
    } else if mp == 10 {
        assert((153 * mp + 2) / 5 == 306);
    } else {
        assert((153 * mp + 2) / 5 == 337);
    }
}

/// The year-of-era decoding inverts the encoding on every day of the year:
/// `doy` can reach 365 only in a year followed by a leap day.
proof fn lemma_yoe_of_doe(yoe: int, doy: int)
    requires
        0 <= yoe <= 399,
        0 <= doy <= 365,
        doy == 365 ==> (yoe + 1) % 4 == 0 && ((yoe + 1) % 100 != 0 || yoe == 399),
    ensures
        ({
            let doe = 365 * yoe + yoe / 4 - yoe / 100 + doy;
            &&& 0 <= doe < 146_097
            &&& (doe - doe / 1460 + doe / 36_524 - doe / 146_096) / 365 == yoe
        }),
{
    let c = yoe / 100;
    let k = (yoe % 100) / 4;
    let r = yoe % 4;
    assert(yoe == 100 * c + 4 * k + r);
    assert(0 <= c <= 3 && 0 <= k <= 24 && 0 <= r <= 3);
    assert(yoe / 4 == 25 * c + k);
    let doe = 365 * yoe + yoe / 4 - yoe / 100 + doy;
    assert(doe == 36_524 * c + 1461 * k + 365 * r + doy);
    let big = 36_524 * c + 1461 * k + 365 * r;
    let rr = 24 * c + k + 365 * r + doy;
    assert(doe == 1460 * (25 * c + k) + rr);
    assert(0 <= rr < 2920);
    let e1: int = if rr >= 1460 {
        1
    } else {
        0
    };
    assert(doe / 1460 == 25 * c + k + e1);
    let special = k == 24 && r == 3 && doy == 365;
    if special {
        assert(c == 3);
        assert(doe == 146_096);
        assert(doe / 36_524 == c + 1);
        assert(doe / 146_096 == 1);
    } else {
        assert(1461 * k + 365 * r + doy < 36_524);
        assert(doe / 36_524 == c);
        assert(doe < 146_096);
        assert(doe / 146_096 == 0);
    }
    let num = doe - doe / 1460 + doe / 36_524 - doe / 146_096;
    assert(num == 365 * yoe + doy - e1);
    if r < 3 {
        assert(e1 == 0);
        assert(doy <= 364);
    }
    assert(0 <= doy - e1 <= 364);
    assert(num / 365 == yoe);
}

/// Counting a real date's days from the epoch and reading the count back as
/// a date gives the date: `civil_date` undoes `civil_days` on every date that
/// exists.
pub proof fn law_date_round_trip(y: int, m: int, d: int)
    requires
        real_date(y, m, d),
    ensures
        civil_date(civil_days(y, m, d)) == (y, m, d),
{
    let yy = dfc_year(y, m);
    let era = dfc_era(y, m);
    let yoe = dfc_yoe(y, m);
    assert(0 <= yoe < 400);
    assert(yy == era * 400 + yoe);
    let mp = dfc_mp(m);
    let long_feb = leap(y);
    lemma_month_of_doy(mp, d, long_feb);
    let q = (153 * mp + 2) / 5;
    assert(tdiv(153 * mp + 2, 5) == q);
    let doy = q + d - 1;
    assert(dfc_doy(m, d) == doy);
    if doy == 365 {
        assert(m == 2 && yy == y - 1);
        assert(y == era * 400 + yoe + 1);
        assert((yoe + 1) % 4 == y % 4);
        assert((yoe + 1) % 100 == y % 100 || yoe + 1 == 400);
        assert(y % 400 == 0 ==> yoe == 399);
    }
    lemma_yoe_of_doe(yoe, doy);
    let doe = 365 * yoe + yoe / 4 - yoe / 100 + doy;
    assert(dfc_doe(y, m, d) == doe);
    let z = civil_days(y, m, d);
    assert(cfd_z(z) == era * 146_097 + doe);
    assert(cfd_era(z) == era);
    assert(cfd_doe(z) == doe);
    assert(cfd_yoe(z) == yoe);
    assert(cfd_doy(z) == doy);
    assert(cfd_mp(z) == mp);
    assert(cfd_day(z) == d);
    assert(cfd_month(z) == m);
    assert(cfd_year(z) == y);
}

/// The date of day `days` (days since 1970-01-01).
pub fn civil_from_days(days: i64) -> (r: (i64, i64, i64))
    requires
        days_fit(days as int),
    ensures
        (r.0 as int, r.1 as int, r.2 as int) == civil_date(days as int),
{
    proof {
        lemma_cfd_ranges(days as int);
    }
    let z = days + 719_468;
    let era = if z >= 0 {
        z / 146_097
    } else {
        (z + 1) / 146_097 - 1
    };
    let doe = z - era * 146_097;
    proof {
        if z < 0 {
            assert(era == (z as int) / 146_097) by (nonlinear_arith)
                requires
                    z < 0,
                    era == tdiv((z + 1) as int, 146_097) - 1,
            ;
        }
        assert(doe == cfd_doe(days as int));
    }
    let yoe = (doe - doe / 1460 + doe / 36_524 - doe / 146_096) / 365;
    let y = yoe + era * 400;
    let doy = doe - (365 * yoe + yoe / 4 - yoe / 100);
    let mp = (5 * doy + 2) / 153;
    let d = doy - (153 * mp + 2) / 5 + 1;
    let mo = if mp < 10 {
        mp + 3
    } else {
        mp - 9
    };
    (
        if mo <= 2 {
            y + 1
        } else {
            y
        },
        mo,
        d,
    )
}

} // verus!
