//! Calendar labeling: a date's distance from a reference date becomes a
//! contextual phrase, falling back to a plain calendar display; a pair of
//! dates becomes a smartly abbreviated range.

use vstd::prelude::*;

verus! {

use vstd::string::StringExecFns;
use crate::calendar::{civil_of_day, civil_from_days, weekday_index, weekday_from_days};
use crate::text::{dec_str, int_str, push_decimal, push_signed, push_char};

/// Full English weekday names, Monday first.
pub open spec fn weekday_name(w: int) -> Seq<char> {
    if w == 0 {
        "Monday"@
    } else if w == 1 {
        "Tuesday"@
    } else if w == 2 {
        "Wednesday"@
    } else if w == 3 {
        "Thursday"@
    } else if w == 4 {
        "Friday"@
    } else if w == 5 {
        "Saturday"@
    } else {
        "Sunday"@
    }
}

/// Full English month names.
pub open spec fn month_name(m: int) -> Seq<char> {
    if m == 1 {
        "January"@
    } else if m == 2 {
        "February"@
    } else if m == 3 {
        "March"@
    } else if m == 4 {
        "April"@
    } else if m == 5 {
        "May"@
    } else if m == 6 {
        "June"@
    } else if m == 7 {
        "July"@
    } else if m == 8 {
        "August"@
    } else if m == 9 {
        "September"@
    } else if m == 10 {
        "October"@
    } else if m == 11 {
        "November"@
    } else {
        "December"@
    }
}

/// Day number of a timestamp: its date at midnight UTC.
pub open spec fn day_of_ts(t: int) -> int {
    t / 86400
}

/// "Month Day" display of a calendar date, with the year appended when it
/// differs from the reference year.
pub open spec fn month_day_str(c: (int, int, int), ref_year: int) -> Seq<char> {
    if c.0 == ref_year {
        month_name(c.1) + seq![' '] + dec_str(c.2)
    } else {
        month_name(c.1) + seq![' '] + dec_str(c.2) + seq![',', ' '] + int_str(c.0)
    }
}

/// The contextual phrase for the date of `t` seen from the date of `rf`:
/// "Today"/"Yesterday"/"Tomorrow" at distance zero or one, a weekday
/// phrase within six days either way, else the calendar display.
pub open spec fn human_date_str(t: int, rf: int) -> Seq<char> {
    let dt = day_of_ts(t);
    let dr = day_of_ts(rf);
    let diff = dt - dr;
    if diff == 0 {
        "Today"@
    } else if diff == -1 {
        "Yesterday"@
    } else if diff == 1 {
        "Tomorrow"@
    } else if -7 < diff && diff < 0 {
        "Last "@ + weekday_name(weekday_index(dt))
    } else if 0 < diff && diff < 7 {
        "This "@ + weekday_name(weekday_index(dt))
    } else {
        month_day_str(civil_of_day(dt), civil_of_day(dr).0)
    }
}

/// The smartly abbreviated range text for the (chronologically ordered)
/// dates of the two timestamps: one date when they share a day, a
/// day-to-day form within one month, a date-to-date form within one year,
/// and two full dates otherwise; the separator is an en dash.
pub open spec fn date_range_str(a: int, b: int) -> Seq<char> {
    let s = if a <= b {
        a
    } else {
        b
    };
    let e = if a <= b {
        b
    } else {
        a
    };
    let ds = day_of_ts(s);
    let de = day_of_ts(e);
    let cs = civil_of_day(ds);
    let ce = civil_of_day(de);
    if ds == de {
        month_name(cs.1) + seq![' '] + dec_str(cs.2) + seq![',', ' '] + int_str(cs.0)
    } else if cs.0 == ce.0 && cs.1 == ce.1 {
        month_name(cs.1) + seq![' '] + dec_str(cs.2) + seq!['\u{2013}'] + dec_str(ce.2) + seq![
            ',',
            ' ',
        ] + int_str(cs.0)
    } else if cs.0 == ce.0 {
        month_name(cs.1) + seq![' '] + dec_str(cs.2) + seq![' ', '\u{2013}', ' '] + month_name(
            ce.1,
        ) + seq![' '] + dec_str(ce.2) + seq![',', ' '] + int_str(cs.0)
    } else {
        month_name(cs.1) + seq![' '] + dec_str(cs.2) + seq![',', ' '] + int_str(cs.0) + seq![
            ' ',
            '\u{2013}',
            ' ',
        ] + month_name(ce.1) + seq![' '] + dec_str(ce.2) + seq![',', ' '] + int_str(ce.0)
    }
}

/// Swapping the two ends of a range changes nothing: the range is always
/// rendered smallest-first.
pub proof fn lemma_date_range_swap(a: int, b: int)
    ensures
        date_range_str(a, b) == date_range_str(b, a),
{
}

fn append_weekday_name(out: &mut String, w: u8)
    requires
        w < 7,
    ensures
        final (out)@ == old(out)@ + weekday_name(w as int),
{
    if w == 0 {
        out.append("Monday");
    } else if w == 1 {
        out.append("Tuesday");
    } else if w == 2 {
        out.append("Wednesday");
    } else if w == 3 {
        out.append("Thursday");
    } else if w == 4 {
        out.append("Friday");
    } else if w == 5 {
        out.append("Saturday");
    } else {
        out.append("Sunday");
    }
}

fn append_month_name(out: &mut String, m: u8)
    requires
        1 <= m <= 12,
    ensures
        final (out)@ == old(out)@ + month_name(m as int),
{
    if m == 1 {
        out.append("January");
    } else if m == 2 {
        out.append("February");
    } else if m == 3 {
        out.append("March");
    } else if m == 4 {
        out.append("April");
    } else if m == 5 {
        out.append("May");
    } else if m == 6 {
        out.append("June");
    } else if m == 7 {
        out.append("July");
    } else if m == 8 {
        out.append("August");
    } else if m == 9 {
        out.append("September");
    } else if m == 10 {
        out.append("October");
    } else if m == 11 {
        out.append("November");
    } else {
        out.append("December");
    }
}

/// Day number of a timestamp, exec side.
pub(crate) fn day_number(t: i64) -> (z: i64)
    ensures
        z as int == day_of_ts(t as int),
        -200_000_000_000_000 <= z <= 200_000_000_000_000,
{
    broadcast use vstd::arithmetic::div_mod::lemma_div_is_ordered;

    let q = crate::calendar::floor_div_i128(t as i128, 86400);
    proof {
        vstd::arithmetic::div_mod::lemma_fundamental_div_mod_converse(
            -0x8000000000000000,
            86400,
            -106751991167301,
            30592,
        );
        vstd::arithmetic::div_mod::lemma_fundamental_div_mod_converse(
            0x7fffffffffffffff,
            86400,
            106751991167300,
            55807,
        );
    }
    q as i64
}

/// Appends "Month Day" and, when the year differs from `ref_year`, the
/// ", Year" suffix.
fn append_month_day(out: &mut String, c: (i64, u8, u8), ref_year: i64)
    requires
        1 <= c.1 <= 12,
    ensures
        final (out)@ == old(out)@ + month_day_str(
            (c.0 as int, c.1 as int, c.2 as int),
            ref_year as int,
        ),
{
    append_month_name(out, c.1);
    out.append(" ");
    proof {
        reveal_strlit(" ");
        assert(" "@ =~= seq![' ']);
    }
    push_decimal(out, c.2 as u128);
    if c.0 != ref_year {
        out.append(", ");
        proof {
            reveal_strlit(", ");
            assert(", "@ =~= seq![',', ' ']);
        }
        push_signed(out, c.0);
    }
    proof {
        assert(final (out)@ =~= old(out)@ + month_day_str(
            (c.0 as int, c.1 as int, c.2 as int),
            ref_year as int,
        ));
    }
}

/// Returns a contextual date phrase, such as "Today", "Last Friday" or
/// "March 5", for the date of `timestamp` seen from the date of
/// `reference` (both in seconds since the epoch, dates taken at midnight
/// UTC).
pub fn human_date(timestamp: i64, reference: i64) -> (r: String)
    ensures
        r@ == human_date_str(timestamp as int, reference as int),
{
    let dt = day_number(timestamp);
    let dr = day_number(reference);
    let diff: i64 = dt - dr;
    if diff == 0 {
        String::from_str("Today")
    } else if diff == -1 {
        String::from_str("Yesterday")
    } else if diff == 1 {
        String::from_str("Tomorrow")
    } else if -7 < diff && diff < 0 {
        let mut out = String::from_str("Last ");
        let w = weekday_from_days(dt);
        append_weekday_name(&mut out, w);
        out
    } else if 0 < diff && diff < 7 {
        let mut out = String::from_str("This ");
        let w = weekday_from_days(dt);
        append_weekday_name(&mut out, w);
        out
    } else {
        let c = civil_from_days(dt);
        let cr = civil_from_days(dr);
        let mut out = String::new();
        append_month_day(&mut out, c, cr.0);
        proof {
            assert(out@ =~= human_date_str(timestamp as int, reference as int));
        }
        out
    }
}

/// Formats a date range with smart abbreviation, always smallest-first;
/// both ends are in seconds since the epoch and are read as dates at
/// midnight UTC.
pub fn date_range(start: i64, end: i64) -> (r: String)
    ensures
        r@ == date_range_str(start as int, end as int),
{
    let (s, e): (i64, i64) = if start <= end {
        (start, end)
    } else {
        (end, start)
    };
    let ds = day_number(s);
    let de = day_number(e);
    let cs = civil_from_days(ds);
    let ce = civil_from_days(de);
    let mut out = String::new();
    append_month_name(&mut out, cs.1);
    out.append(" ");
    proof {
        reveal_strlit(" ");
        assert(" "@ =~= seq![' ']);
    }
    push_decimal(&mut out, cs.2 as u128);
    if ds == de {
        out.append(", ");
        proof {
            reveal_strlit(", ");
            assert(", "@ =~= seq![',', ' ']);
        }
        push_signed(&mut out, cs.0);
        proof {
            assert(out@ =~= date_range_str(start as int, end as int));
        }
        out
    } else if cs.0 == ce.0 && cs.1 == ce.1 {
        push_char(&mut out, '\u{2013}');
        push_decimal(&mut out, ce.2 as u128);
        out.append(", ");
        proof {
            reveal_strlit(", ");
            assert(", "@ =~= seq![',', ' ']);
        }
        push_signed(&mut out, cs.0);
        proof {
            assert(out@ =~= date_range_str(start as int, end as int));
        }
        out
    } else if cs.0 == ce.0 {
        out.append(" ");
        push_char(&mut out, '\u{2013}');
        out.append(" ");
        append_month_name(&mut out, ce.1);
        out.append(" ");
        push_decimal(&mut out, ce.2 as u128);
        out.append(", ");
        proof {
            reveal_strlit(" ");
            reveal_strlit(", ");
            assert(" "@ =~= seq![' ']);
            assert(", "@ =~= seq![',', ' ']);
        }
        push_signed(&mut out, cs.0);
        proof {
            assert(out@ =~= date_range_str(start as int, end as int));
        }
        out
    } else {
        out.append(", ");
        push_signed(&mut out, cs.0);
        out.append(" ");
        push_char(&mut out, '\u{2013}');
        out.append(" ");
        append_month_name(&mut out, ce.1);
        out.append(" ");
        push_decimal(&mut out, ce.2 as u128);
        out.append(", ");
        proof {
            reveal_strlit(" ");
            reveal_strlit(", ");
            assert(" "@ =~= seq![' ']);
            assert(", "@ =~= seq![',', ' ']);
        }
        push_signed(&mut out, ce.0);
        proof {
            assert(out@ =~= date_range_str(start as int, end as int));
        }
        out
    }
}

} // verus!
