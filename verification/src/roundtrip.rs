//! The compact round trip: below one month, the compact duration text
//! with no unit cap parses back to exactly its second count.

use vstd::prelude::*;

verus! {

use crate::text::{is_ws_char, is_alpha_char, is_digit_char, lower_char, digits_value, dec_str,
    lemma_dec_str_digits, lemma_dec_str_value};
use crate::duration::{unit_secs, unit_short, render_parts, render_part, part_sep, parts_upto,
    duration_parts, rem_after, unit_value, duration_str, min_int};
use crate::parse::{parse_duration_spec, scan_tokens, Scan, num_run_len, ws_run_len,
    alpha_run_len, count_dots, count_digits, token_valid, token_scaled, dot_pos, int_sat,
    unit_factor, sat_add, round_total, clamp64, spec_scale, spec_int_sat, spec_total_cap,
    trim_spec, trim_start, trim_end, split_colon, colon_applicable, lemma_split_colon_whole,
    cleaned, lower_seq, replace_and, comma_to_space, collapse_start, collapse_mid, and_pattern,
    is_num_char};

/// The characters that compact renderings are made of.
pub open spec fn compact_char(c: char) -> bool {
    is_digit_char(c) || c == 'd' || c == 'h' || c == 'm' || c == 's' || c == ' '
}

/// Seconds of a list of (value, unit index) parts.
pub open spec fn parts_secs(ps: Seq<(int, int)>) -> int
    decreases ps.len(),
{
    if ps.len() == 0 {
        0
    } else {
        ps[0].0 * unit_secs(ps[0].1) + parts_secs(ps.skip(1))
    }
}

/// A part below the month unit with a small positive value.
pub open spec fn part_wf(p: (int, int)) -> bool {
    2 <= p.1 <= 5 && 1 <= p.0 <= 1000000
}

pub open spec fn parts_wf(ps: Seq<(int, int)>) -> bool {
    forall|i: int| 0 <= i < ps.len() ==> part_wf(#[trigger] ps[i])
}

proof fn lemma_parts_secs_snoc(ps: Seq<(int, int)>, p: (int, int))
    ensures
        parts_secs(ps.push(p)) == parts_secs(ps) + p.0 * unit_secs(p.1),
    decreases ps.len(),
{
    let q = ps.push(p);
    assert(q.len() == ps.len() + 1);
    if ps.len() == 0 {
        assert(q.skip(1) =~= Seq::<(int, int)>::empty());
        assert(q[0] == p);
        assert(parts_secs(Seq::<(int, int)>::empty()) == 0);
        assert(parts_secs(q) == q[0].0 * unit_secs(q[0].1) + parts_secs(q.skip(1)));
    } else {
        lemma_parts_secs_snoc(ps.skip(1), p);
        assert(q.skip(1) =~= ps.skip(1).push(p));
        assert(q[0] == ps[0]);
        assert(parts_secs(q) == q[0].0 * unit_secs(q[0].1) + parts_secs(q.skip(1)));
        assert(parts_secs(ps) == ps[0].0 * unit_secs(ps[0].1) + parts_secs(ps.skip(1)));
    }
}

proof fn lemma_parts_secs_nonneg(ps: Seq<(int, int)>)
    requires
        parts_wf(ps),
    ensures
        parts_secs(ps) >= 0,
        ps.len() > 0 ==> parts_secs(ps) >= ps[0].0 * unit_secs(ps[0].1) >= 0,
    decreases ps.len(),
{
    if ps.len() > 0 {
        assert(part_wf(ps[0]));
        assert(parts_wf(ps.skip(1))) by {
            assert(forall|i: int|
                0 <= i < ps.skip(1).len() ==> ps.skip(1)[i] == #[trigger] ps[i + 1]);
        }
        lemma_parts_secs_nonneg(ps.skip(1));
        assert(ps[0].0 * unit_secs(ps[0].1) >= 1) by (nonlinear_arith)
            requires
                ps[0].0 >= 1,
                unit_secs(ps[0].1) >= 1,
        ;
    }
}

proof fn lemma_digits_value_nonneg(ds: Seq<char>)
    requires
        forall|i: int| 0 <= i < ds.len() ==> is_digit_char(#[trigger] ds[i]),
    ensures
        digits_value(ds) >= 0,
    decreases ds.len(),
{
    if ds.len() > 0 {
        lemma_digits_value_nonneg(ds.drop_last());
    }
}

/// Saturated digit reading agrees with the exact value below the bound.
proof fn lemma_int_sat_exact(ds: Seq<char>)
    requires
        forall|i: int| 0 <= i < ds.len() ==> is_digit_char(#[trigger] ds[i]),
        digits_value(ds) <= spec_int_sat(),
    ensures
        int_sat(ds) == digits_value(ds),
    decreases ds.len(),
{
    if ds.len() > 0 {
        lemma_digits_value_nonneg(ds.drop_last());
        lemma_int_sat_exact(ds.drop_last());
    }
}

/// A run of digits followed by a non-numeric character is one numeric run.
proof fn lemma_num_run_of_digits(ds: Seq<char>, r: Seq<char>)
    requires
        forall|i: int| 0 <= i < ds.len() ==> is_digit_char(#[trigger] ds[i]),
        r.len() == 0 || !is_num_char(r[0]),
    ensures
        num_run_len(ds + r) == ds.len(),
    decreases ds.len(),
{
    let s = ds + r;
    if ds.len() == 0 {
        assert(s =~= r);
    } else {
        assert(s[0] == ds[0]);
        assert(s.skip(1) =~= ds.skip(1) + r);
        assert(forall|i: int|
            0 <= i < ds.skip(1).len() ==> is_digit_char(#[trigger] ds.skip(1)[i])) by {
            assert(forall|i: int| 0 <= i < ds.skip(1).len() ==> ds.skip(1)[i] == ds[i + 1]);
        }
        lemma_num_run_of_digits(ds.skip(1), r);
    }
}

proof fn lemma_counts_of_digits(ds: Seq<char>)
    requires
        forall|i: int| 0 <= i < ds.len() ==> is_digit_char(#[trigger] ds[i]),
    ensures
        count_digits(ds) == ds.len(),
        count_dots(ds) == 0,
        dot_pos(ds) == ds.len(),
    decreases ds.len(),
{
    if ds.len() > 0 {
        assert(forall|i: int|
            0 <= i < ds.skip(1).len() ==> is_digit_char(#[trigger] ds.skip(1)[i])) by {
            assert(forall|i: int| 0 <= i < ds.skip(1).len() ==> ds.skip(1)[i] == ds[i + 1]);
        }
        lemma_counts_of_digits(ds.skip(1));
    }
}

/// The scaled value of a plain integer token is its value at the scale.
proof fn lemma_token_scaled_int(v: int)
    requires
        0 <= v <= spec_int_sat(),
    ensures
        token_valid(dec_str(v)),
        token_scaled(dec_str(v)) == v * spec_scale(),
{
    let ds = dec_str(v);
    lemma_dec_str_digits(v);
    lemma_dec_str_value(v);
    lemma_counts_of_digits(ds);
    assert(ds.take(ds.len() as int) =~= ds);
    lemma_int_sat_exact(ds);
}

/// Scanning one compact token adds its contribution and recurses.
proof fn lemma_scan_one(v: int, idx: int, r: Seq<char>, total: int, found: bool)
    requires
        2 <= idx <= 5,
        0 <= v <= 1000000,
        r.len() == 0 || r[0] == ' ',
        0 <= total,
        total + v * unit_secs(idx) * spec_scale() <= spec_total_cap(),
    ensures
        scan_tokens(dec_str(v) + unit_short(idx) + r, total, found) == scan_tokens(
            r,
            total + v * unit_secs(idx) * spec_scale(),
            true,
        ),
{
    let ds = dec_str(v);
    let code = unit_short(idx);
    let cc = code[0];
    assert(code =~= seq![cc]);
    assert(cc == 'd' || cc == 'h' || cc == 'm' || cc == 's');
    let s = ds + code + r;
    lemma_dec_str_digits(v);
    assert(s[0] == ds[0]);
    assert(is_digit_char(s[0]));
    assert(!is_ws_char(s[0]));
    assert(s =~= ds + (code + r));
    assert(!is_num_char(cc));
    assert((code + r)[0] == cc);
    lemma_num_run_of_digits(ds, code + r);
    let nl = num_run_len(s);
    assert(nl == ds.len());
    assert(nl > 0);
    assert(s.take(nl) =~= ds);
    lemma_token_scaled_int(v);
    let rest = s.skip(nl);
    assert(rest =~= code + r);
    assert(rest[0] == cc);
    assert(!is_ws_char(cc));
    assert(ws_run_len(rest) == 0);
    assert(rest.skip(0) =~= rest);
    assert(is_alpha_char(cc));
    assert(rest.skip(1) =~= r);
    if r.len() == 0 {
        assert(alpha_run_len(rest.skip(1)) == 0);
    } else {
        assert(!is_alpha_char(r[0]));
        assert(alpha_run_len(rest.skip(1)) == 0);
    }
    assert(alpha_run_len(rest) == 1);
    let unit = rest.take(1);
    assert(unit =~= seq![cc]);
    assert(unit.len() == 1 && unit[0] == cc);
    assert(unit_factor(unit) == Some(unit_secs(idx)));
    let f = unit_secs(idx);
    assert(token_scaled(ds) * f == v * f * spec_scale()) by (nonlinear_arith)
        requires
            token_scaled(ds) == v * spec_scale(),
            f == unit_secs(idx),
    ;
    assert(v * f * spec_scale() >= 0) by (nonlinear_arith)
        requires
            v >= 0,
            f >= 1,
            spec_scale() > 0,
    ;
    assert(sat_add(total, token_scaled(ds) * f) == total + v * f * spec_scale());
    assert(scan_tokens(s, total, found) == scan_tokens(r, total + v * f * spec_scale(), true));
}

/// Scanning skips a single leading space.
proof fn lemma_scan_sep(r: Seq<char>, total: int, found: bool)
    ensures
        scan_tokens(seq![' '] + r, total, found) == scan_tokens(r, total, found),
{
    let s = seq![' '] + r;
    assert(s[0] == ' ');
    assert(is_ws_char(' '));
    assert(s.skip(1) =~= r);
}

/// Scanning a compact rendering accumulates exactly its seconds, scaled.
proof fn lemma_scan_parts(ps: Seq<(int, int)>, total: int, found: bool)
    requires
        parts_wf(ps),
        0 <= total,
        total + spec_scale() * parts_secs(ps) <= spec_total_cap(),
    ensures
        scan_tokens(render_parts(ps, true), total, found) == (Scan::Done {
            total: total + spec_scale() * parts_secs(ps),
            found: found || ps.len() > 0,
        }),
    decreases ps.len(),
{
    lemma_parts_secs_nonneg(ps);
    if ps.len() == 0 {
        assert(render_parts(ps, true) =~= Seq::<char>::empty());
        assert(scan_tokens(Seq::<char>::empty(), total, found) == (Scan::Done { total, found }));
    } else {
        let p = ps[0];
        assert(part_wf(p));
        let v = p.0;
        let idx = p.1;
        assert(parts_wf(ps.skip(1))) by {
            assert(forall|i: int|
                0 <= i < ps.skip(1).len() ==> ps.skip(1)[i] == #[trigger] ps[i + 1]);
        }
        lemma_parts_secs_nonneg(ps.skip(1));
        assert(parts_secs(ps) == v * unit_secs(idx) + parts_secs(ps.skip(1)));
        assert(spec_scale() * parts_secs(ps) == spec_scale() * (v * unit_secs(idx)) + spec_scale()
            * parts_secs(ps.skip(1))) by (nonlinear_arith)
            requires
                parts_secs(ps) == v * unit_secs(idx) + parts_secs(ps.skip(1)),
        ;
        assert(v * unit_secs(idx) * spec_scale() == spec_scale() * (v * unit_secs(idx)))
            by (nonlinear_arith);
        if ps.len() == 1 {
            assert(render_parts(ps, true) == render_part(p, true));
            assert(render_part(p, true) =~= dec_str(v) + unit_short(idx) + Seq::<char>::empty());
            lemma_scan_one(v, idx, Seq::empty(), total, found);
            assert(ps.skip(1) =~= Seq::<(int, int)>::empty());
            assert(scan_tokens(
                Seq::<char>::empty(),
                total + v * unit_secs(idx) * spec_scale(),
                true,
            ) == (Scan::Done { total: total + spec_scale() * parts_secs(ps), found: true }));
        } else {
            let tail = render_parts(ps.skip(1), true);
            assert(render_parts(ps, true) == render_part(p, true) + part_sep(true) + tail);
            assert(part_sep(true) =~= seq![' ']);
            let r = seq![' '] + tail;
            assert(render_parts(ps, true) =~= dec_str(v) + unit_short(idx) + r);
            assert(r[0] == ' ');
            lemma_scan_one(v, idx, r, total, found);
            let total2 = total + v * unit_secs(idx) * spec_scale();
            lemma_scan_sep(tail, total2, true);
            lemma_scan_parts(ps.skip(1), total2, true);
            assert(ps.skip(1).len() > 0);
        }
    }
}

/// Every character of a compact rendering is a digit, a short unit code
/// letter, or a single separating space; it starts with a digit, ends
/// with a code letter, and never has two spaces in a row.
proof fn lemma_render_chars(ps: Seq<(int, int)>)
    requires
        parts_wf(ps),
        ps.len() >= 1,
    ensures
        render_parts(ps, true).len() >= 2,
        is_digit_char(render_parts(ps, true)[0]),
        is_alpha_char(render_parts(ps, true).last()),
        !is_ws_char(render_parts(ps, true).last()),
        forall|i: int|
            0 <= i < render_parts(ps, true).len() ==> compact_char(
                #[trigger] render_parts(ps, true)[i],
            ),
        forall|i: int|
            0 <= i < render_parts(ps, true).len() - 1 ==> !(#[trigger] render_parts(ps, true)[i]
                == ' ' && render_parts(ps, true)[i + 1] == ' '),
    decreases ps.len(),
{
    let out = render_parts(ps, true);
    let p = ps[0];
    assert(part_wf(p));
    let ds = dec_str(p.0);
    let code = unit_short(p.1);
    let cc = code[0];
    assert(code =~= seq![cc]);
    assert(cc == 'd' || cc == 'h' || cc == 'm' || cc == 's');
    lemma_dec_str_digits(p.0);
    let head = render_part(p, true);
    assert(head == ds + code);
    assert(head.len() == ds.len() + 1);
    assert(forall|i: int| 0 <= i < ds.len() ==> head[i] == ds[i]);
    assert(head.last() == cc);
    assert(forall|i: int| 0 <= i < head.len() ==> compact_char(#[trigger] head[i])) by {
        assert(forall|i: int| 0 <= i < ds.len() ==> is_digit_char(#[trigger] ds[i]));
    }
    assert(forall|i: int| 0 <= i < head.len() ==> head[i] != ' ');
    if ps.len() == 1 {
        assert(out == head);
        assert(out[0] == ds[0]);
    } else {
        assert(parts_wf(ps.skip(1))) by {
            assert(forall|i: int|
                0 <= i < ps.skip(1).len() ==> ps.skip(1)[i] == #[trigger] ps[i + 1]);
        }
        lemma_render_chars(ps.skip(1));
        let tail = render_parts(ps.skip(1), true);
        assert(out == head + part_sep(true) + tail);
        assert(part_sep(true) =~= seq![' ']);
        let hl = head.len() as int;
        assert(out.len() == hl + 1 + tail.len());
        assert(forall|i: int| 0 <= i < hl ==> out[i] == head[i]);
        assert(out[hl] == ' ');
        assert(forall|i: int| hl + 1 <= i < out.len() ==> out[i] == tail[i - hl - 1]);
        assert(out[0] == head[0]);
        assert(out[0] == ds[0]);
        assert(out.last() == tail.last());
        assert(forall|i: int| 0 <= i < out.len() ==> compact_char(#[trigger] out[i]));
        assert forall|i: int| 0 <= i < out.len() - 1 implies !(#[trigger] out[i] == ' ' && out[i
            + 1] == ' ') by {
            if i < hl - 1 {
                assert(out[i] == head[i] && head[i] != ' ');
            } else if i == hl - 1 {
                assert(out[i] == head.last());
            } else if i == hl {
                assert(out[i + 1] == tail[0] && is_digit_char(tail[0]));
            } else {
                assert(out[i] == tail[i - hl - 1] && out[i + 1] == tail[i - hl]);
            }
        }
    }
}

/// Lower-casing, the " and " and comma replacements, and whitespace
/// collapsing all leave a compact rendering unchanged.
proof fn lemma_lower_id(s: Seq<char>)
    requires
        forall|i: int| 0 <= i < s.len() ==> compact_char(#[trigger] s[i]),
    ensures
        lower_seq(s) == s,
{
    assert(forall|c: char| compact_char(c) ==> lower_char(c) == c);
    assert(lower_seq(s) =~= s);
}

proof fn lemma_comma_id(s: Seq<char>)
    requires
        forall|i: int| 0 <= i < s.len() ==> compact_char(#[trigger] s[i]),
    ensures
        comma_to_space(s) == s,
{
    assert(comma_to_space(s) =~= s);
}

proof fn lemma_replace_and_id(s: Seq<char>)
    requires
        forall|i: int| 0 <= i < s.len() ==> s[i] != 'a',
    ensures
        replace_and(s) == s,
    decreases s.len(),
{
    if s.len() >= 5 && s.subrange(0, 5) == and_pattern() {
        assert(s.subrange(0, 5)[1] == s[1]);
        assert(false);
    }
    if s.len() > 0 {
        assert(forall|i: int| 0 <= i < s.skip(1).len() ==> s.skip(1)[i] == s[i + 1]);
        lemma_replace_and_id(s.skip(1));
        assert(seq![s[0]] + s.skip(1) =~= s);
    }
}

/// Tidy text: no whitespace at either end, never two in a row, and every
/// whitespace character is a plain space.
pub open spec fn tidy(s: Seq<char>) -> bool {
    &&& (s.len() > 0 ==> !is_ws_char(s[0]) && !is_ws_char(s.last()))
    &&& (forall|i: int| 0 <= i < s.len() - 1 ==> !(is_ws_char(#[trigger] s[i]) && is_ws_char(
        s[i + 1],
    )))
    &&& (forall|i: int| 0 <= i < s.len() && is_ws_char(#[trigger] s[i]) ==> s[i] == ' ')
}

/// Mid-state tidy: possibly one leading space, then tidy.
spec fn tidy_mid(s: Seq<char>) -> bool {
    &&& (s.len() > 0 ==> !is_ws_char(s.last()))
    &&& (forall|i: int| 0 <= i < s.len() - 1 ==> !(is_ws_char(#[trigger] s[i]) && is_ws_char(
        s[i + 1],
    )))
    &&& (forall|i: int| 0 <= i < s.len() && is_ws_char(#[trigger] s[i]) ==> s[i] == ' ')
}

proof fn lemma_collapse_start_id(s: Seq<char>)
    requires
        tidy(s),
    ensures
        collapse_start(s) == s,
    decreases s.len(), 0int,
{
    if s.len() > 0 {
        assert(!is_ws_char(s[0]));
        assert(tidy_mid(s.skip(1))) by {
            assert(forall|i: int| 0 <= i < s.skip(1).len() ==> s.skip(1)[i] == s[i + 1]);
        }
        lemma_collapse_mid_id(s.skip(1));
        assert(seq![s[0]] + s.skip(1) =~= s);
    }
}

proof fn lemma_collapse_mid_id(s: Seq<char>)
    requires
        tidy_mid(s),
    ensures
        collapse_mid(s) == s,
    decreases s.len(), 1int,
{
    if s.len() > 0 {
        if !is_ws_char(s[0]) {
            assert(tidy_mid(s.skip(1))) by {
                assert(forall|i: int| 0 <= i < s.skip(1).len() ==> s.skip(1)[i] == s[i + 1]);
            }
            lemma_collapse_mid_id(s.skip(1));
            assert(seq![s[0]] + s.skip(1) =~= s);
        } else {
            assert(s[0] == ' ');
            assert(s.len() >= 2) by {
                assert(!is_ws_char(s.last()));
            }
            assert(!is_ws_char(s[1]));
            assert(tidy(s.skip(1))) by {
                assert(forall|i: int| 0 <= i < s.skip(1).len() ==> s.skip(1)[i] == s[i + 1]);
            }
            lemma_collapse_start_id(s.skip(1));
            assert(collapse_start(s.skip(1)).len() > 0);
            assert(seq![' '] + s.skip(1) =~= s);
        }
    }
}

/// Seconds of the part lists that greedy decomposition builds.
proof fn lemma_parts_secs_upto(s: int, i: int)
    requires
        s >= 0,
        0 <= i <= 6,
    ensures
        parts_secs(parts_upto(s, i)) == s - rem_after(s, i - 1),
        rem_after(s, i - 1) >= 0,
    decreases i,
{
    if i == 0 {
        assert(parts_upto(s, 0) =~= Seq::<(int, int)>::empty());
    } else {
        lemma_parts_secs_upto(s, i - 1);
        let prev = rem_after(s, i - 2);
        let u = unit_secs(i - 1);
        assert(u >= 1);
        vstd::arithmetic::div_mod::lemma_fundamental_div_mod(prev, u);
        vstd::arithmetic::div_mod::lemma_mod_bound(prev, u);
        let v = unit_value(s, i - 1);
        assert(rem_after(s, i - 1) == prev % u);
        assert(u * v + prev % u == prev);
        assert(v * u == u * v) by (nonlinear_arith);
        if v > 0 {
            lemma_parts_secs_snoc(parts_upto(s, i - 1), (v, i - 1));
            assert(parts_upto(s, i) == parts_upto(s, i - 1).push((v, i - 1)));
        } else {
            if prev >= u {
                vstd::arithmetic::div_mod::lemma_div_non_zero(prev, u);
                assert(false);
            }
            vstd::arithmetic::div_mod::lemma_fundamental_div_mod_converse(prev, u, 0, prev);
            assert(rem_after(s, i - 1) == prev);
            assert(parts_upto(s, i) == parts_upto(s, i - 1));
        }
    }
}

/// For totals below one month the decomposition uses only day, hour,
/// minute and second parts, in full.
proof fn lemma_parts_small(s: int)
    requires
        0 < s < 2592000,
    ensures
        parts_wf(duration_parts(s)),
        parts_secs(duration_parts(s)) == s,
        duration_parts(s).len() >= 1,
{
    broadcast use vstd::arithmetic::div_mod::lemma_basic_div, vstd::arithmetic::div_mod::lemma_mod_bound, vstd::arithmetic::div_mod::lemma_div_pos_is_pos, vstd::arithmetic::div_mod::lemma_remainder_upper;

    assert(rem_after(s, -1) == s);
    assert(unit_value(s, 0) == s / 31536000);
    assert(s / 31536000 == 0);
    vstd::arithmetic::div_mod::lemma_small_mod(s as nat, 31536000);
    assert(rem_after(s, 0) == s);
    assert(unit_value(s, 1) == s / 2592000);
    assert(s / 2592000 == 0);
    vstd::arithmetic::div_mod::lemma_small_mod(s as nat, 2592000);
    assert(rem_after(s, 1) == s);
    let d = unit_value(s, 2);
    let r2 = rem_after(s, 2);
    vstd::arithmetic::div_mod::lemma_fundamental_div_mod(s, 86400);
    assert(d == s / 86400 && r2 == s % 86400);
    assert(0 <= r2 < 86400);
    assert(d <= 29);
    assert(d >= 0);
    let h = unit_value(s, 3);
    let r3 = rem_after(s, 3);
    vstd::arithmetic::div_mod::lemma_fundamental_div_mod(r2, 3600);
    assert(h == r2 / 3600 && r3 == r2 % 3600);
    assert(0 <= r3 < 3600);
    assert(0 <= h <= 23);
    let mn = unit_value(s, 4);
    let r4 = rem_after(s, 4);
    vstd::arithmetic::div_mod::lemma_fundamental_div_mod(r3, 60);
    assert(mn == r3 / 60 && r4 == r3 % 60);
    assert(0 <= r4 < 60);
    assert(0 <= mn <= 59);
    let sc = unit_value(s, 5);
    assert(sc == r4 / 1);
    assert(sc == r4) by {
        vstd::arithmetic::div_mod::lemma_fundamental_div_mod_converse(r4, 1, r4, 0);
    }
    lemma_parts_secs_upto(s, 6);
    assert(rem_after(s, 5) == r4 % 1);
    assert(r4 % 1 == 0) by {
        vstd::arithmetic::div_mod::lemma_fundamental_div_mod_converse(r4, 1, r4, 0);
    }
    assert(parts_secs(duration_parts(s)) == s);
    // structure: only indexes two to five appear, each with its value
    reveal_with_fuel(parts_upto, 8);
    assert(parts_upto(s, 1) =~= Seq::<(int, int)>::empty());
    assert(parts_upto(s, 2) =~= Seq::<(int, int)>::empty());
    let p2 = parts_upto(s, 2);
    let p3 = parts_upto(s, 3);
    let p4 = parts_upto(s, 4);
    let p5 = parts_upto(s, 5);
    let p6 = parts_upto(s, 6);
    assert(forall|i: int| 0 <= i < p3.len() ==> part_wf(#[trigger] p3[i]));
    assert(forall|i: int| 0 <= i < p4.len() ==> part_wf(#[trigger] p4[i]));
    assert(forall|i: int| 0 <= i < p5.len() ==> part_wf(#[trigger] p5[i]));
    assert(forall|i: int| 0 <= i < p6.len() ==> part_wf(#[trigger] p6[i]));
    if p6.len() == 0 {
        assert(parts_secs(p6) == 0);
        assert(false);
    }
}

/// Evaluating whole-pipeline facts for a tidy compact text.
proof fn lemma_parse_compact(text: Seq<char>, s: int)
    requires
        text.len() >= 1,
        is_digit_char(text[0]),
        !is_ws_char(text[0]),
        !is_ws_char(text.last()),
        tidy(text),
        forall|i: int| 0 <= i < text.len() ==> compact_char(#[trigger] text[i]),
        scan_tokens(text, 0, false) == (Scan::Done { total: spec_scale() * s, found: true }),
        0 <= s <= 0x7fffffffffffffff,
    ensures
        parse_duration_spec(text) == Ok::<int, Seq<char>>(s),
{
    // trimming leaves it unchanged
    assert(trim_start(text) == text);
    assert(trim_end(text) == text);
    assert(trim_spec(text) == text);
    // neither empty nor negative
    assert(text[0] != '-');
    // no colon, so colon notation does not apply
    assert(forall|i: int| 0 <= i < text.len() ==> text[i] != ':');
    lemma_split_colon_whole(text);
    assert(split_colon(text).len() == 1);
    assert(!colon_applicable(text));
    // cleaning leaves it unchanged
    assert(forall|i: int| 0 <= i < text.len() ==> text[i] != 'a');
    lemma_lower_id(text);
    lemma_replace_and_id(text);
    lemma_comma_id(text);
    lemma_collapse_start_id(text);
    assert(cleaned(text) == text);
    // rounding the scaled total returns the seconds themselves
    assert(round_total(spec_scale() * s) == s) by {
        vstd::arithmetic::div_mod::lemma_fundamental_div_mod_converse(
            2 * (spec_scale() * s) + spec_scale(),
            2 * spec_scale(),
            s,
            spec_scale(),
        );
    }
    assert(clamp64(s) == s);
}

/// The compact round trip below one month: rendering `s` seconds in the
/// compact style with no unit cap, then parsing the text back, returns
/// exactly `s`. (The month and year short codes are not recognized
/// units, so counts of a month or more do not round-trip.)
pub proof fn lemma_compact_round_trip(s: int)
    requires
        0 <= s < 2592000,
    ensures
        parse_duration_spec(duration_str(s, true, 6)) == Ok::<int, Seq<char>>(s),
{
    if s == 0 {
        let text = duration_str(0, true, 6);
        reveal_strlit("0s");
        assert(text =~= seq!['0', 's']);
        assert(is_digit_char('0') && !is_ws_char('0') && !is_ws_char('s'));
        assert(compact_char('0') && compact_char('s'));
        assert(tidy(text));
        // scan: the zero token with the seconds code
        assert(text =~= dec_str(0) + unit_short(5) + Seq::<char>::empty()) by {
            assert(dec_str(0) =~= seq!['0']);
            assert(unit_short(5) =~= seq!['s']);
        }
        assert(0 * unit_secs(5) * spec_scale() == 0);
        lemma_scan_one(0, 5, Seq::empty(), 0, false);
        assert(scan_tokens(Seq::<char>::empty(), 0, true) == (Scan::Done {
            total: 0,
            found: true,
        }));
        assert(scan_tokens(text, 0, false) == (Scan::Done { total: 0, found: true }));
        assert(spec_scale() * 0 == 0);
        lemma_parse_compact(text, 0);
    } else {
        lemma_parts_small(s);
        let ps = duration_parts(s);
        let text = duration_str(s, true, 6);
        assert(ps.len() <= 6) by {
            lemma_parts_upto_len(s, 6);
        }
        assert(min_int(6, ps.len() as int) == ps.len() as int);
        assert(ps.take(ps.len() as int) =~= ps);
        assert(text == render_parts(ps, true));
        lemma_render_chars(ps);
        assert(tidy(text)) by {
            assert(forall|i: int|
                0 <= i < text.len() && is_ws_char(#[trigger] text[i]) ==> text[i] == ' ') by {
                assert(forall|i: int| 0 <= i < text.len() ==> compact_char(#[trigger] text[i]));
            }
            assert(forall|i: int|
                0 <= i < text.len() - 1 ==> !(is_ws_char(#[trigger] text[i]) && is_ws_char(
                    text[i + 1],
                ))) by {
                assert(forall|i: int|
                    0 <= i < text.len() - 1 ==> !(#[trigger] text[i] == ' ' && text[i + 1]
                        == ' '));
                assert(forall|i: int| 0 <= i < text.len() ==> compact_char(#[trigger] text[i]));
            }
        }
        lemma_scan_parts(ps, 0, false);
        assert(scan_tokens(text, 0, false) == (Scan::Done {
            total: spec_scale() * s,
            found: true,
        }));
        lemma_parse_compact(text, s);
    }
}

/// The decomposition never has more parts than units.
proof fn lemma_parts_upto_len(s: int, i: int)
    requires
        0 <= i <= 6,
    ensures
        parts_upto(s, i).len() <= i,
    decreases i,
{
    if i > 0 {
        lemma_parts_upto_len(s, i - 1);
    }
}

} // verus!
