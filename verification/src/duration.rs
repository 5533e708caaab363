//! Duration decomposition: a non-negative second count becomes an ordered,
//! largest-first list of calendar-approximate units, rendered as text.

use vstd::prelude::*;

verus! {

use vstd::string::StringExecFns;
use crate::error::ParseError;
use crate::options::DurationOptions;
use crate::text::{dec_str, push_decimal};

/// Seconds in each decomposition unit, largest first: year (365 days),
/// month (30 days), day, hour, minute, second. The approximations are fixed
/// and deliberately not calendar-accurate.
pub open spec fn unit_secs(i: int) -> int {
    if i == 0 {
        31536000
    } else if i == 1 {
        2592000
    } else if i == 2 {
        86400
    } else if i == 3 {
        3600
    } else if i == 4 {
        60
    } else {
        1
    }
}

pub open spec fn unit_singular(i: int) -> Seq<char> {
    if i == 0 {
        "year"@
    } else if i == 1 {
        "month"@
    } else if i == 2 {
        "day"@
    } else if i == 3 {
        "hour"@
    } else if i == 4 {
        "minute"@
    } else {
        "second"@
    }
}

pub open spec fn unit_plural(i: int) -> Seq<char> {
    if i == 0 {
        "years"@
    } else if i == 1 {
        "months"@
    } else if i == 2 {
        "days"@
    } else if i == 3 {
        "hours"@
    } else if i == 4 {
        "minutes"@
    } else {
        "seconds"@
    }
}

/// Short unit codes for the compact form.
pub open spec fn unit_short(i: int) -> Seq<char> {
    if i == 0 {
        seq!['y']
    } else if i == 1 {
        seq!['m', 'o']
    } else if i == 2 {
        seq!['d']
    } else if i == 3 {
        seq!['h']
    } else if i == 4 {
        seq!['m']
    } else {
        seq!['s']
    }
}

/// What remains of `s` after greedily extracting units `0..=i`.
pub open spec fn rem_after(s: int, i: int) -> int
    decreases i + 1,
{
    if i < 0 {
        s
    } else {
        rem_after(s, i - 1) % unit_secs(i)
    }
}

/// The count greedily extracted for unit `i`.
pub open spec fn unit_value(s: int, i: int) -> int {
    rem_after(s, i - 1) / unit_secs(i)
}

/// The decomposition restricted to units `0..i`: (value, unit index) pairs
/// for every unit with a positive value, largest unit first.
pub open spec fn parts_upto(s: int, i: int) -> Seq<(int, int)>
    decreases i,
{
    if i <= 0 {
        Seq::empty()
    } else if unit_value(s, i - 1) > 0 {
        parts_upto(s, i - 1) + seq![(unit_value(s, i - 1), i - 1)]
    } else {
        parts_upto(s, i - 1)
    }
}

/// The full greedy decomposition of `s`.
pub open spec fn duration_parts(s: int) -> Seq<(int, int)> {
    parts_upto(s, 6)
}

/// Singular name exactly when the value is one.
pub open spec fn unit_word(v: int, i: int) -> Seq<char> {
    if v == 1 {
        unit_singular(i)
    } else {
        unit_plural(i)
    }
}

pub open spec fn render_part(p: (int, int), compact: bool) -> Seq<char> {
    if compact {
        dec_str(p.0) + unit_short(p.1)
    } else {
        dec_str(p.0) + seq![' '] + unit_word(p.0, p.1)
    }
}

pub open spec fn part_sep(compact: bool) -> Seq<char> {
    if compact {
        seq![' ']
    } else {
        seq![',', ' ']
    }
}

/// The parts joined by the separator of the chosen style.
pub open spec fn render_parts(ps: Seq<(int, int)>, compact: bool) -> Seq<char>
    decreases ps.len(),
{
    if ps.len() == 0 {
        Seq::empty()
    } else if ps.len() == 1 {
        render_part(ps[0], compact)
    } else {
        render_part(ps[0], compact) + part_sep(compact) + render_parts(ps.skip(1), compact)
    }
}

pub proof fn lemma_render_parts_snoc(ps: Seq<(int, int)>, p: (int, int), compact: bool)
    requires
        ps.len() >= 1,
    ensures
        render_parts(ps.push(p), compact) == render_parts(ps, compact) + part_sep(compact)
            + render_part(p, compact),
    decreases ps.len(),
{
    let q = ps.push(p);
    assert(q.len() == ps.len() + 1);
    assert(q[0] == ps[0]);
    if ps.len() == 1 {
        assert(q.skip(1) =~= seq![p]);
        assert(seq![p].len() == 1 && seq![p][0] == p);
        assert(render_parts(q.skip(1), compact) == render_part(p, compact));
        assert(render_parts(q, compact) == render_part(q[0], compact) + part_sep(compact)
            + render_parts(q.skip(1), compact));
        assert(render_parts(ps, compact) == render_part(ps[0], compact));
        assert(render_parts(q, compact) =~= render_parts(ps, compact) + part_sep(compact)
            + render_part(p, compact));
    } else {
        lemma_render_parts_snoc(ps.skip(1), p, compact);
        assert(q.skip(1) =~= ps.skip(1).push(p));
        assert(render_parts(q, compact) == render_part(q[0], compact) + part_sep(compact)
            + render_parts(q.skip(1), compact));
        assert(render_parts(ps, compact) == render_part(ps[0], compact) + part_sep(compact)
            + render_parts(ps.skip(1), compact));
        assert(render_parts(q, compact) =~= render_parts(ps, compact) + part_sep(compact)
            + render_part(p, compact));
    }
}

/// The lesser of two values.
pub open spec fn min_int(a: int, b: int) -> int {
    if a < b {
        a
    } else {
        b
    }
}

/// The rendered duration text for `s` seconds: the literal zero text for
/// zero, else the first `mu` parts of the greedy decomposition.
pub open spec fn duration_str(s: int, compact: bool, mu: int) -> Seq<char> {
    if s == 0 {
        if compact {
            "0s"@
        } else {
            "0 seconds"@
        }
    } else {
        let ps = duration_parts(s);
        render_parts(ps.take(min_int(mu, ps.len() as int)), compact)
    }
}

/// The compact flag an options argument carries; false when absent.
pub open spec fn opts_compact(options: Option<DurationOptions>) -> bool {
    match options {
        Some(o) => o.compact,
        None => false,
    }
}

/// The unit cap an options argument carries; two when absent.
pub open spec fn opts_max_units(options: Option<DurationOptions>) -> int {
    match options {
        Some(o) => match o.max_units {
            Some(m) => m as int,
            None => 2,
        },
        None => 2,
    }
}

fn unit_secs_exec(i: usize) -> (r: u64)
    requires
        i < 6,
    ensures
        r as int == unit_secs(i as int),
        r >= 1,
{
    if i == 0 {
        31536000
    } else if i == 1 {
        2592000
    } else if i == 2 {
        86400
    } else if i == 3 {
        3600
    } else if i == 4 {
        60
    } else {
        1
    }
}

/// The singular name exactly when the count is one, as an owned string.
fn pluralize(n: i64, singular: &str, plural: &str) -> (r: String)
    ensures
        r@ == (if n == 1 {
            singular@
        } else {
            plural@
        }),
{
    if n == 1 {
        String::from_str(singular)
    } else {
        String::from_str(plural)
    }
}

fn append_unit_name(out: &mut String, i: usize, v: u64, compact: bool)
    requires
        i < 6,
        v <= 0x7fffffffffffffff,
    ensures
        final (out)@ == old(out)@ + (if compact {
            unit_short(i as int)
        } else {
            unit_word(v as int, i as int)
        }),
{
    if compact {
        if i == 0 {
            out.append("y");
            proof {
                reveal_strlit("y");
                assert("y"@ =~= unit_short(0));
            }
        } else if i == 1 {
            out.append("mo");
            proof {
                reveal_strlit("mo");
                assert("mo"@ =~= unit_short(1));
            }
        } else if i == 2 {
            out.append("d");
            proof {
                reveal_strlit("d");
                assert("d"@ =~= unit_short(2));
            }
        } else if i == 3 {
            out.append("h");
            proof {
                reveal_strlit("h");
                assert("h"@ =~= unit_short(3));
            }
        } else if i == 4 {
            out.append("m");
            proof {
                reveal_strlit("m");
                assert("m"@ =~= unit_short(4));
            }
        } else {
            out.append("s");
            proof {
                reveal_strlit("s");
                assert("s"@ =~= unit_short(5));
            }
        }
    } else {
        let name = if i == 0 {
            pluralize(v as i64, "year", "years")
        } else if i == 1 {
            pluralize(v as i64, "month", "months")
        } else if i == 2 {
            pluralize(v as i64, "day", "days")
        } else if i == 3 {
            pluralize(v as i64, "hour", "hours")
        } else if i == 4 {
            pluralize(v as i64, "minute", "minutes")
        } else {
            pluralize(v as i64, "second", "seconds")
        };
        out.append(name.as_str());
    }
}

/// Formats a duration of `seconds` as human-readable text.
///
/// Fails exactly when `seconds` is negative. Otherwise the result is the
/// greedy largest-first decomposition over the fixed unit table, capped at
/// the requested number of units, with singular names exactly for the
/// value one; zero seconds yields the literal zero text.
pub fn duration(seconds: i64, options: Option<DurationOptions>) -> (r: Result<String, ParseError>)
    ensures
        seconds >= 0 <==> r is Ok,
        r matches Err(e) ==> e.message@ == "Duration cannot be negative"@,
        r matches Ok(out) ==> out@ == duration_str(
            seconds as int,
            opts_compact(options),
            opts_max_units(options),
        ),
{
    broadcast use vstd::arithmetic::div_mod::lemma_div_pos_is_pos, vstd::arithmetic::div_mod::lemma_basic_div, vstd::arithmetic::div_mod::lemma_mod_bound, vstd::arithmetic::div_mod::lemma_div_nonincreasing;

    if seconds < 0 {
        return Err(ParseError { message: String::from_str("Duration cannot be negative") });
    }
    let (compact, max_units): (bool, usize) = match &options {
        Some(o) => (
            o.compact,
            match o.max_units {
                Some(m) => m,
                None => 2,
            },
        ),
        None => (false, 2),
    };
    assert(compact == opts_compact(options));
    assert(max_units as int == opts_max_units(options));
    if seconds == 0 {
        let out = if compact {
            String::from_str("0s")
        } else {
            String::from_str("0 seconds")
        };
        return Ok(out);
    }
    let ghost s: int = seconds as int;
    let ghost mu: int = max_units as int;
    let mut remaining: u64 = seconds as u64;
    let mut out = String::new();
    let mut count: usize = 0;
    let mut i: usize = 0;
    while i < 6
        invariant
            i <= 6,
            s == seconds as int,
            mu == max_units as int,
            s > 0,
            compact == opts_compact(options),
            mu == opts_max_units(options),
            remaining as int == rem_after(s, i as int - 1),
            remaining <= 0x7fffffffffffffff,
            count as int == min_int(parts_upto(s, i as int).len() as int, mu),
            out@ == render_parts(
                parts_upto(s, i as int).take(
                    min_int(mu, parts_upto(s, i as int).len() as int),
                ),
                compact,
            ),
        decreases 6 - i,
    {
        let ghost ii: int = i as int;
        let ghost old_parts = parts_upto(s, ii);
        let u = unit_secs_exec(i);
        assert(rem_after(s, ii) == rem_after(s, ii - 1) % unit_secs(ii));
        assert(unit_value(s, ii) == rem_after(s, ii - 1) / unit_secs(ii));
        if remaining >= u {
            let ghost before: int = remaining as int;
            let value = remaining / u;
            remaining = remaining % u;
            proof {
                vstd::arithmetic::div_mod::lemma_div_non_zero(before, u as int);
            }
            assert(value as int == unit_value(s, ii));
            assert(value as int >= 1);
            if count < max_units {
                proof {
                    assert(old_parts.len() < mu || old_parts.len() == count);
                    assert(count as int == old_parts.len() as int);
                }
                if count > 0 {
                    if compact {
                        out.append(" ");
                        proof {
                            reveal_strlit(" ");
                            assert(" "@ =~= part_sep(true));
                        }
                    } else {
                        out.append(", ");
                        proof {
                            reveal_strlit(", ");
                            assert(", "@ =~= part_sep(false));
                        }
                    }
                }
                push_decimal(&mut out, value as u128);
                if !compact {
                    out.append(" ");
                    proof {
                        reveal_strlit(" ");
                        assert(" "@ =~= seq![' ']);
                    }
                }
                append_unit_name(&mut out, i, value, compact);
                count = count + 1;
                proof {
                    let p = (value as int, ii);
                    let new_parts = parts_upto(s, ii + 1);
                    assert(new_parts =~= old_parts.push(p));
                    let old_taken = old_parts.take(min_int(mu, old_parts.len() as int));
                    let new_taken = new_parts.take(min_int(mu, new_parts.len() as int));
                    assert(old_parts.len() < mu);
                    assert(old_taken =~= old_parts);
                    assert(new_taken =~= old_parts.push(p));
                    if old_parts.len() == 0 {
                        assert(render_parts(old_taken, compact) =~= Seq::<char>::empty());
                        assert(new_taken =~= seq![p]);
                        assert(render_parts(new_taken, compact) == render_part(p, compact));
                        assert(out@ =~= render_parts(new_taken, compact));
                    } else {
                        lemma_render_parts_snoc(old_parts, p, compact);
                        assert(out@ =~= render_parts(new_taken, compact));
                    }
                }
            } else {
                proof {
                    let p = (value as int, ii);
                    let new_parts = parts_upto(s, ii + 1);
                    assert(new_parts =~= old_parts.push(p));
                    assert(count as int == mu);
                    assert(old_parts.len() >= mu);
                    assert(new_parts.take(min_int(mu, new_parts.len() as int)) =~= old_parts.take(
                        min_int(mu, old_parts.len() as int),
                    ));
                }
            }
        } else {
            proof {
                assert(unit_value(s, ii) == 0);
                assert(parts_upto(s, ii + 1) =~= old_parts);
            }
        }
        i += 1;
    }
    proof {
        assert(parts_upto(s, 6) == duration_parts(s));
    }
    Ok(out)
}

} // verus!
