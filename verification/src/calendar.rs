//! Proleptic Gregorian calendar arithmetic over day numbers counted from
//! the epoch (1970-01-01 is day zero). Dates are plain (year, month, day)
//! triples; conversions both ways are verified against one day-count spec.

use vstd::prelude::*;

verus! {

use vstd::arithmetic::div_mod::{
    lemma_fundamental_div_mod,
    lemma_fundamental_div_mod_converse,
    lemma_mod_bound,
    lemma_mod_multiples_vanish,
};

/// A leap year in the proleptic Gregorian calendar.
pub open spec fn is_leap_year(y: int) -> bool {
    (y % 4 == 0 && y % 100 != 0) || y % 400 == 0
}

pub open spec fn days_in_year(y: int) -> int {
    if is_leap_year(y) {
        366
    } else {
        365
    }
}

pub open spec fn days_in_month(y: int, m: int) -> int {
    if m == 1 {
        31
    } else if m == 2 {
        if is_leap_year(y) {
            29
        } else {
            28
        }
    } else if m == 3 {
        31
    } else if m == 4 {
        30
    } else if m == 5 {
        31
    } else if m == 6 {
        30
    } else if m == 7 {
        31
    } else if m == 8 {
        31
    } else if m == 9 {
        30
    } else if m == 10 {
        31
    } else if m == 11 {
        30
    } else {
        31
    }
}

/// Days of year `y` that precede the first of month `m`.
pub open spec fn month_prefix_days(y: int, m: int) -> int
    decreases m,
{
    if m <= 1 {
        0
    } else {
        month_prefix_days(y, m - 1) + days_in_month(y, m - 1)
    }
}

/// Signed count of leap years in the interval (0, t] (negated count of
/// the interval (t, 0] when t is negative).
pub open spec fn leap_years_through(t: int) -> int {
    t / 4 - t / 100 + t / 400
}

/// Day number of January first of year `y`: days from 1970-01-01.
pub open spec fn days_before_year(y: int) -> int {
    365 * (y - 1970) + leap_years_through(y - 1) - leap_years_through(1969)
}

/// Day number of a calendar date.
pub open spec fn days_from_civil(y: int, m: int, d: int) -> int {
    days_before_year(y) + month_prefix_days(y, m) + (d - 1)
}

pub open spec fn valid_civil_date(y: int, m: int, d: int) -> bool {
    1 <= m <= 12 && 1 <= d <= days_in_month(y, m)
}

/// The calendar date of a day number: the unique valid triple whose day
/// count is `z`.
pub open spec fn civil_of_day(z: int) -> (int, int, int) {
    choose|t: (int, int, int)|
        valid_civil_date(t.0, t.1, t.2) && days_from_civil(t.0, t.1, t.2) == z
}

/// Weekday index of a day number, Monday is zero (day zero, 1970-01-01,
/// was a Thursday, index three).
pub open spec fn weekday_index(z: int) -> int {
    (z + 3) % 7
}

/// Stepping the dividend of a positive divisor by one raises the quotient
/// exactly at the multiples.
proof fn lemma_div_step(y: int, d: int)
    requires
        d > 0,
    ensures
        y / d - (y - 1) / d == if y % d == 0 {
            1int
        } else {
            0int
        },
{
    lemma_fundamental_div_mod(y - 1, d);
    lemma_mod_bound(y - 1, d);
    let q = (y - 1) / d;
    let r = (y - 1) % d;
    if r + 1 == d {
        assert(y == (q + 1) * d + 0) by (nonlinear_arith)
            requires
                y - 1 == d * q + r,
                r + 1 == d,
        ;
        lemma_fundamental_div_mod_converse(y, d, q + 1, 0);
    } else {
        assert(y == q * d + (r + 1)) by (nonlinear_arith)
            requires
                y - 1 == d * q + r,
        ;
        lemma_fundamental_div_mod_converse(y, d, q, r + 1);
    }
}

/// Divisibility by 400 implies divisibility by 100 and 4.
proof fn lemma_mod_chain(y: int)
    ensures
        y % 400 == 0 ==> y % 100 == 0 && y % 4 == 0,
        y % 100 == 0 ==> y % 4 == 0,
{
    if y % 400 == 0 {
        lemma_fundamental_div_mod(y, 400);
        let k = y / 400;
        assert(y == 100 * (4 * k)) by (nonlinear_arith)
            requires
                y == 400 * k,
        ;
        lemma_mod_multiples_vanish(4 * k, 0, 100);
        assert(y % 100 == 0);
    }
    if y % 100 == 0 {
        lemma_fundamental_div_mod(y, 100);
        let k = y / 100;
        assert(y == 4 * (25 * k)) by (nonlinear_arith)
            requires
                y == 100 * k,
        ;
        lemma_mod_multiples_vanish(25 * k, 0, 4);
        assert(y % 4 == 0);
    }
}

/// From one January first to the next lie exactly the days of that year.
pub proof fn lemma_days_before_year_step(y: int)
    ensures
        days_before_year(y + 1) == days_before_year(y) + days_in_year(y),
{
    lemma_div_step(y, 4);
    lemma_div_step(y, 100);
    lemma_div_step(y, 400);
    lemma_mod_chain(y);
}

/// January firsts are strictly ordered by year, at least 365 days apart.
pub proof fn lemma_days_before_year_mono(y1: int, y2: int)
    requires
        y1 <= y2,
    ensures
        days_before_year(y1) + 365 * (y2 - y1) <= days_before_year(y2),
    decreases y2 - y1,
{
    if y1 < y2 {
        lemma_days_before_year_mono(y1, y2 - 1);
        lemma_days_before_year_step(y2 - 1);
    }
}

/// The month prefix sums exhaust the year at month twelve.
pub proof fn lemma_month_prefix_total(y: int)
    ensures
        month_prefix_days(y, 13) == days_in_year(y),
{
    reveal_with_fuel(month_prefix_days, 14);
}

/// Month prefix sums grow with the month.
pub proof fn lemma_month_prefix_mono(y: int, m1: int, m2: int)
    requires
        m1 <= m2,
    ensures
        month_prefix_days(y, m1) <= month_prefix_days(y, m2),
    decreases m2 - m1,
{
    if m1 < m2 {
        lemma_month_prefix_mono(y, m1, m2 - 1);
    }
}

/// A valid date's day number falls within its year.
pub proof fn lemma_days_from_civil_bounds(y: int, m: int, d: int)
    requires
        valid_civil_date(y, m, d),
    ensures
        days_before_year(y) <= days_from_civil(y, m, d) < days_before_year(y + 1),
        month_prefix_days(y, m) <= days_from_civil(y, m, d) - days_before_year(y)
            < month_prefix_days(y, m + 1),
{
    assert(month_prefix_days(y, m + 1) == month_prefix_days(y, m) + days_in_month(y, m));
    lemma_month_prefix_mono(y, 1, m);
    lemma_month_prefix_mono(y, m + 1, 13);
    lemma_month_prefix_total(y);
    lemma_days_before_year_step(y);
}

/// No two valid dates share a day number.
pub proof fn lemma_civil_unique(y1: int, m1: int, d1: int, y2: int, m2: int, d2: int)
    requires
        valid_civil_date(y1, m1, d1),
        valid_civil_date(y2, m2, d2),
        days_from_civil(y1, m1, d1) == days_from_civil(y2, m2, d2),
    ensures
        y1 == y2 && m1 == m2 && d1 == d2,
{
    lemma_days_from_civil_bounds(y1, m1, d1);
    lemma_days_from_civil_bounds(y2, m2, d2);
    if y1 < y2 {
        lemma_days_before_year_mono(y1 + 1, y2);
        assert(false);
    }
    if y2 < y1 {
        lemma_days_before_year_mono(y2 + 1, y1);
        assert(false);
    }
    if m1 < m2 {
        lemma_month_prefix_mono(y1, m1 + 1, m2);
        assert(false);
    }
    if m2 < m1 {
        lemma_month_prefix_mono(y1, m2 + 1, m1);
        assert(false);
    }
}

/// Floor division by a positive divisor.
pub(crate) fn floor_div_i128(a: i128, b: i128) -> (q: i128)
    requires
        0 < b < 0x10000000000000000,
        -0x10000000000000000000000000000 < a < 0x10000000000000000000000000000,
    ensures
        q == a as int / b as int,
{
    if a >= 0 {
        let qa = ((a as u128) / (b as u128)) as i128;
        qa
    } else {
        let n = (-a) as u128;
        let bu = b as u128;
        let qc = (n + (bu - 1)) / bu;
        proof {
            lemma_fundamental_div_mod(a as int, b as int);
            lemma_mod_bound(a as int, b as int);
            let q0 = a as int / b as int;
            let r0 = a as int % b as int;
            if r0 == 0 {
                assert(n as int + b as int - 1 == (-q0) * (b as int) + (b as int - 1))
                    by (nonlinear_arith)
                    requires
                        a as int == (b as int) * q0 + r0,
                        r0 == 0,
                        n as int == -(a as int),
                ;
                lemma_fundamental_div_mod_converse(
                    n as int + b as int - 1,
                    b as int,
                    -q0,
                    b as int - 1,
                );
            } else {
                assert(n as int + b as int - 1 == (-q0) * (b as int) + (b as int - 1 - r0))
                    by (nonlinear_arith)
                    requires
                        a as int == (b as int) * q0 + r0,
                        n as int == -(a as int),
                ;
                lemma_fundamental_div_mod_converse(
                    n as int + b as int - 1,
                    b as int,
                    -q0,
                    b as int - 1 - r0,
                );
            }
            assert(qc as int == -(a as int / b as int));
        }
        -(qc as i128)
    }
}

/// Year bound within which all day numbers of interest fall.
pub open spec fn year_in_range(y: int) -> bool {
    -600_000_000_000 <= y <= 600_000_000_002
}

fn days_before_year_exec(y: i64) -> (r: i128)
    requires
        year_in_range(y as int),
    ensures
        r as int == days_before_year(y as int),
        -300_000_000_000_000 <= r <= 300_000_000_000_000,
{
    proof {
        lemma_days_before_year_mono(-600_000_000_000, y as int);
        lemma_days_before_year_mono(y as int, 600_000_000_002);
    }
    let t: i128 = y as i128 - 1;
    let a = floor_div_i128(t, 4);
    let b = floor_div_i128(t, 100);
    let c = floor_div_i128(t, 400);
    assert(leap_years_through(1969) == 477);
    365 * (y as i128 - 1970) + a - b + c - 477
}

fn is_leap_year_exec(y: i64) -> (r: bool)
    requires
        year_in_range(y as int),
    ensures
        r == is_leap_year(y as int),
{
    let shifted: u64 = ((y as i128 + 400_000_000_000_000) as u64);
    proof {
        lemma_mod_multiples_vanish(100_000_000_000_000, y as int, 4);
        lemma_mod_multiples_vanish(4_000_000_000_000, y as int, 100);
        lemma_mod_multiples_vanish(1_000_000_000_000, y as int, 400);
    }
    let m4 = shifted % 4 == 0;
    let m100 = shifted % 100 == 0;
    let m400 = shifted % 400 == 0;
    (m4 && !m100) || m400
}

fn days_in_month_exec(y: i64, m: u8) -> (r: u8)
    requires
        year_in_range(y as int),
        1 <= m <= 12,
    ensures
        r as int == days_in_month(y as int, m as int),
        1 <= r <= 31,
{
    if m == 1 {
        31
    } else if m == 2 {
        if is_leap_year_exec(y) {
            29
        } else {
            28
        }
    } else if m == 3 {
        31
    } else if m == 4 {
        30
    } else if m == 5 {
        31
    } else if m == 6 {
        30
    } else if m == 7 {
        31
    } else if m == 8 {
        31
    } else if m == 9 {
        30
    } else if m == 10 {
        31
    } else if m == 11 {
        30
    } else {
        31
    }
}

/// The calendar date of day number `z`: the unique valid (year, month,
/// day) triple whose day count equals `z`.
pub fn civil_from_days(z: i64) -> (r: (i64, u8, u8))
    requires
        -200_000_000_000_000 <= z <= 200_000_000_000_000,
    ensures
        valid_civil_date(r.0 as int, r.1 as int, r.2 as int),
        days_from_civil(r.0 as int, r.1 as int, r.2 as int) == z as int,
        (r.0 as int, r.1 as int, r.2 as int) == civil_of_day(z as int),
        -600_000_000_000 <= r.0 <= 600_000_000_001,
{
    let zz: i128 = z as i128;
    let guess: i128 = 1970 + floor_div_i128(400 * zz, 146097);
    let mut y: i64 = guess as i64;
    proof {
        assert(days_before_year(-600_000_000_000) <= zz);
        assert(zz < days_before_year(600_000_000_002));
        assert(-600_000_000_000 <= y <= 600_000_000_001);
    }
    while days_before_year_exec(y) > zz
        invariant
            -600_000_000_000 <= y <= 600_000_000_001,
            days_before_year(-600_000_000_000) <= zz,
            zz == z as int,
            -200_000_000_000_000 <= z <= 200_000_000_000_000,
        decreases (if days_before_year(y as int) >= zz {
            days_before_year(y as int) - zz
        } else {
            0int
        }),
    {
        proof {
            if y as int - 1 < -600_000_000_000 {
                lemma_days_before_year_mono(y as int, -600_000_000_000);
                assert(false);
            }
            lemma_days_before_year_step(y as int - 1);
        }
        y = y - 1;
    }
    while days_before_year_exec(y + 1) <= zz
        invariant
            -600_000_000_000 <= y <= 600_000_000_001,
            days_before_year(y as int) <= zz,
            zz < days_before_year(600_000_000_002),
            zz == z as int,
        decreases zz - days_before_year(y as int),
    {
        proof {
            if y as int + 1 > 600_000_000_001 {
                lemma_days_before_year_mono(600_000_000_002, y as int + 1);
                assert(false);
            }
            lemma_days_before_year_step(y as int);
        }
        y = y + 1;
    }
    proof {
        lemma_days_before_year_step(y as int);
    }
    let start = days_before_year_exec(y);
    let doy: u16 = (zz - start) as u16;
    assert(doy as int == zz - days_before_year(y as int));
    assert((doy as int) < days_in_year(y as int));
    let mut m: u8 = 1;
    let mut acc: u16 = 0;
    while m < 12 && acc + (days_in_month_exec(y, m) as u16) <= doy
        invariant
            1 <= m <= 12,
            year_in_range(y as int),
            acc as int == month_prefix_days(y as int, m as int),
            acc <= doy,
            (doy as int) < days_in_year(y as int),
        decreases 12 - m,
    {
        let dim = days_in_month_exec(y, m) as u16;
        acc = acc + dim;
        m = m + 1;
    }
    proof {
        if m == 12 {
            lemma_month_prefix_total(y as int);
            assert(month_prefix_days(y as int, 13) == month_prefix_days(y as int, 12)
                + days_in_month(y as int, 12));
            assert(doy as int - (acc as int) < days_in_month(y as int, m as int));
        }
    }
    let d: u8 = ((doy - acc) as u8) + 1;
    proof {
        let yi = y as int;
        let mi = m as int;
        let di = d as int;
        assert(valid_civil_date(yi, mi, di));
        assert(days_from_civil(yi, mi, di) == z as int);
        let t = (yi, mi, di);
        assert(valid_civil_date(t.0, t.1, t.2) && days_from_civil(t.0, t.1, t.2) == z as int);
        let c = civil_of_day(z as int);
        assert(valid_civil_date(c.0, c.1, c.2) && days_from_civil(c.0, c.1, c.2) == z as int);
        lemma_civil_unique(c.0, c.1, c.2, yi, mi, di);
    }
    (y, m, d)
}

/// Day number of a calendar date, exec side.
pub fn days_from_civil_exec(y: i64, m: u8, d: u8) -> (r: i128)
    requires
        year_in_range(y as int),
        1 <= m <= 12,
        1 <= d <= 31,
    ensures
        r as int == days_from_civil(y as int, m as int, d as int),
{
    let start = days_before_year_exec(y);
    let mut mm: u8 = 1;
    let mut acc: i128 = start;
    while mm < m
        invariant
            1 <= mm <= m <= 12,
            year_in_range(y as int),
            start as int == days_before_year(y as int),
            -300_000_000_000_000 <= start <= 300_000_000_000_000,
            acc as int == days_before_year(y as int) + month_prefix_days(y as int, mm as int),
        decreases m - mm,
    {
        proof {
            lemma_month_prefix_mono(y as int, 1, mm as int);
            assert(month_prefix_days(y as int, mm as int + 1) == month_prefix_days(
                y as int,
                mm as int,
            ) + days_in_month(y as int, mm as int));
            lemma_month_prefix_mono(y as int, mm as int + 1, 13);
            lemma_month_prefix_total(y as int);
        }
        let dim = days_in_month_exec(y, mm);
        acc = acc + (dim as i128);
        mm = mm + 1;
    }
    proof {
        lemma_month_prefix_mono(y as int, 1, m as int);
        lemma_month_prefix_mono(y as int, m as int, 13);
        lemma_month_prefix_total(y as int);
    }
    acc + (d as i128) - 1
}

/// Weekday index (Monday is zero) of day number `z`.
pub fn weekday_from_days(z: i64) -> (w: u8)
    requires
        -200_000_000_000_000 <= z <= 200_000_000_000_000,
    ensures
        w as int == weekday_index(z as int),
        w < 7,
{
    let shifted: u64 = ((z as i128 + 3 + 700_000_000_000_000) as u64);
    proof {
        lemma_mod_multiples_vanish(100_000_000_000_000, z as int + 3, 7);
        lemma_mod_bound(z as int + 3, 7);
    }
    (shifted % 7) as u8
}

} // verus!
