//! Relative time description: one elapsed or remaining span becomes one
//! human phrase, picked by a non-uniform threshold ladder.

use vstd::prelude::*;

verus! {

use vstd::string::StringExecFns;
use crate::text::{dec_str, push_decimal};

/// `a / u` rounded to the nearest integer, halves away from zero,
/// for `a >= 0` and `u > 0`.
pub open spec fn round_div(a: int, u: int) -> int {
    (2 * a + u) / (2 * u)
}

pub open spec fn abs_int(x: int) -> int {
    if x < 0 {
        -x
    } else {
        x
    }
}

pub open spec fn ago_singular(i: int) -> Seq<char> {
    if i == 0 {
        "minute"@
    } else if i == 1 {
        "hour"@
    } else if i == 2 {
        "day"@
    } else if i == 3 {
        "month"@
    } else {
        "year"@
    }
}

pub open spec fn ago_plural(i: int) -> Seq<char> {
    if i == 0 {
        "minutes"@
    } else if i == 1 {
        "hours"@
    } else if i == 2 {
        "days"@
    } else if i == 3 {
        "months"@
    } else {
        "years"@
    }
}

/// The threshold ladder, first match wins, on the absolute difference `a`
/// in seconds (`a >= 45`). Returns the count and the unit index
/// (minute, hour, day, month, year). A month is 30.44 days, or 2630016
/// seconds; a year is 365 days.
pub open spec fn ago_count_unit(a: int) -> (int, int) {
    if a < 90 {
        (1, 0)
    } else if a < 2700 {
        (round_div(a, 60), 0)
    } else if a < 5400 {
        (1, 1)
    } else if a < 79200 {
        (round_div(a, 3600), 1)
    } else if a < 129600 {
        (1, 2)
    } else if a < 2246400 {
        (round_div(a, 86400), 2)
    } else if a < 3974400 {
        (1, 3)
    } else if a < 27648000 {
        (round_div(a, 2630016), 3)
    } else if a < 47347200 {
        (1, 4)
    } else {
        (round_div(a, 31536000), 4)
    }
}

/// The full relative phrase for a timestamp seen from a reference point:
/// "just now" below 45 seconds either way, else the ladder's count and
/// unit wrapped as past ("... ago") or future ("in ...").
pub open spec fn timeago_str(ts: int, rf: int) -> Seq<char> {
    let diff = rf - ts;
    let a = abs_int(diff);
    if a < 45 {
        "just now"@
    } else {
        let p = ago_count_unit(a);
        let unit = if p.0 == 1 {
            ago_singular(p.1)
        } else {
            ago_plural(p.1)
        };
        if diff < 0 {
            "in "@ + dec_str(p.0) + seq![' '] + unit
        } else {
            dec_str(p.0) + seq![' '] + unit + " ago"@
        }
    }
}

fn append_ago_unit(out: &mut String, i: usize, n: u128)
    requires
        i < 5,
    ensures
        final (out)@ == old(out)@ + (if n == 1 {
            ago_singular(i as int)
        } else {
            ago_plural(i as int)
        }),
{
    if n == 1 {
        if i == 0 {
            out.append("minute");
        } else if i == 1 {
            out.append("hour");
        } else if i == 2 {
            out.append("day");
        } else if i == 3 {
            out.append("month");
        } else {
            out.append("year");
        }
    } else {
        if i == 0 {
            out.append("minutes");
        } else if i == 1 {
            out.append("hours");
        } else if i == 2 {
            out.append("days");
        } else if i == 3 {
            out.append("months");
        } else {
            out.append("years");
        }
    }
}

/// Returns a human-readable relative time phrase, such as "3 hours ago"
/// or "in 2 days", for `timestamp` seen from `reference` (both in seconds
/// since the epoch).
pub fn timeago(timestamp: i64, reference: i64) -> (r: String)
    ensures
        r@ == timeago_str(timestamp as int, reference as int),
{
    let diff: i128 = reference as i128 - timestamp as i128;
    let a: u128 = if diff < 0 {
        (-diff) as u128
    } else {
        diff as u128
    };
    assert(a as int == abs_int(diff as int));
    if a < 45 {
        return String::from_str("just now");
    }
    let (n, unit): (u128, usize) = if a < 90 {
        (1, 0)
    } else if a < 2700 {
        ((2 * a + 60) / 120, 0)
    } else if a < 5400 {
        (1, 1)
    } else if a < 79200 {
        ((2 * a + 3600) / 7200, 1)
    } else if a < 129600 {
        (1, 2)
    } else if a < 2246400 {
        ((2 * a + 86400) / 172800, 2)
    } else if a < 3974400 {
        (1, 3)
    } else if a < 27648000 {
        ((2 * a + 2630016) / 5260032, 3)
    } else if a < 47347200 {
        (1, 4)
    } else {
        ((2 * a + 31536000) / 63072000, 4)
    };
    proof {
        assert((n as int, unit as int) == ago_count_unit(a as int));
    }
    let mut out = String::new();
    if diff < 0 {
        out.append("in ");
        push_decimal(&mut out, n);
        out.append(" ");
        proof {
            reveal_strlit(" ");
            assert(" "@ =~= seq![' ']);
        }
        append_ago_unit(&mut out, unit, n);
        proof {
            assert(out@ =~= timeago_str(timestamp as int, reference as int));
        }
    } else {
        push_decimal(&mut out, n);
        out.append(" ");
        proof {
            reveal_strlit(" ");
            assert(" "@ =~= seq![' ']);
        }
        append_ago_unit(&mut out, unit, n);
        out.append(" ago");
        proof {
            assert(out@ =~= timeago_str(timestamp as int, reference as int));
        }
    }
    out
}

/// A timestamp compared with itself always reads as the present moment.
pub proof fn lemma_timeago_self(t: int)
    ensures
        timeago_str(t, t) == "just now"@,
{
}

} // verus!
