//! Free-form duration parsing: colon notation and a two-phase
//! (number-run, unit-run) scanner over cleaned text, accumulating exact
//! seconds scaled by a fixed power of ten before one final rounding.

use vstd::prelude::*;

verus! {

use vstd::string::StringExecFns;
use crate::error::ParseError;
use crate::text::{
    is_ws_char,
    is_alpha_char,
    is_digit_char,
    lower_char,
    digits_value,
    ws_char,
    alpha_char,
    digit_char_test,
    to_lower_char,
    str_to_chars,
    push_chars_range,
};

/// Scale of the accumulated total: the parser works in units of
/// one trillionth of a second so that decimal values stay exact.
pub open spec fn spec_scale() -> int {
    1_000_000_000_000
}

/// Saturation bound of a single numeric token's integer part.
pub open spec fn spec_int_sat() -> int {
    20_000_000_000_000_000_000
}

/// Saturation bound of the scaled running total.
pub open spec fn spec_total_cap() -> int {
    20_000_000_000_000_000_000_000_000_000_000_000_000
}

// ---------------------------------------------------------------------
// trimming

pub open spec fn trim_start(s: Seq<char>) -> Seq<char>
    decreases s.len(),
{
    if s.len() == 0 {
        s
    } else if is_ws_char(s[0]) {
        trim_start(s.skip(1))
    } else {
        s
    }
}

pub open spec fn trim_end(s: Seq<char>) -> Seq<char>
    decreases s.len(),
{
    if s.len() == 0 {
        s
    } else if is_ws_char(s.last()) {
        trim_end(s.drop_last())
    } else {
        s
    }
}

/// The input with leading and trailing whitespace removed.
pub open spec fn trim_spec(s: Seq<char>) -> Seq<char> {
    trim_end(trim_start(s))
}

// ---------------------------------------------------------------------
// colon notation

/// Fields of the input split on every colon.
pub open spec fn split_colon(s: Seq<char>) -> Seq<Seq<char>>
    decreases s.len(),
{
    if s.len() == 0 {
        seq![Seq::empty()]
    } else if s[0] == ':' {
        seq![Seq::<char>::empty()] + split_colon(s.skip(1))
    } else {
        let rest = split_colon(s.skip(1));
        seq![seq![s[0]] + rest[0]] + rest.skip(1)
    }
}

pub open spec fn count_colons(s: Seq<char>) -> int
    decreases s.len(),
{
    if s.len() == 0 {
        0
    } else {
        (if s[0] == ':' {
            1int
        } else {
            0int
        }) + count_colons(s.skip(1))
    }
}

pub proof fn lemma_split_colon_shape(s: Seq<char>)
    ensures
        split_colon(s).len() == count_colons(s) + 1,
    decreases s.len(),
{
    if s.len() > 0 {
        lemma_split_colon_shape(s.skip(1));
    }
}

/// A colon-free prefix before a colon contributes one whole field.
pub proof fn lemma_split_colon_head(f: Seq<char>, rest: Seq<char>)
    requires
        forall|i: int| 0 <= i < f.len() ==> f[i] != ':',
    ensures
        split_colon(f + seq![':'] + rest) == seq![f] + split_colon(rest),
    decreases f.len(),
{
    let s = f + seq![':'] + rest;
    if f.len() == 0 {
        assert(s[0] == ':');
        assert(s.skip(1) =~= rest);
        assert(seq![Seq::<char>::empty()] + split_colon(rest) =~~= seq![f] + split_colon(rest));
    } else {
        assert(s[0] == f[0]);
        assert(s[0] != ':');
        assert(s.skip(1) =~= f.skip(1) + seq![':'] + rest);
        lemma_split_colon_head(f.skip(1), rest);
        let r = split_colon(s.skip(1));
        assert(r == seq![f.skip(1)] + split_colon(rest));
        assert(r[0] == f.skip(1));
        assert(seq![s[0]] + r[0] =~= f);
        assert(r.skip(1) =~= split_colon(rest));
        assert(split_colon(s) =~~= seq![f] + split_colon(rest));
    }
}

/// A colon-free input is one single field.
pub proof fn lemma_split_colon_whole(s: Seq<char>)
    requires
        forall|i: int| 0 <= i < s.len() ==> s[i] != ':',
    ensures
        split_colon(s) == seq![s],
    decreases s.len(),
{
    if s.len() == 0 {
        assert(split_colon(s) =~~= seq![s]);
    } else {
        lemma_split_colon_whole(s.skip(1));
        let r = split_colon(s.skip(1));
        assert(r[0] == s.skip(1));
        assert(seq![s[0]] + r[0] =~= s);
        assert(r.skip(1) =~= Seq::<Seq<char>>::empty());
        assert(split_colon(s) =~~= seq![s]);
    }
}

/// A non-empty run of ASCII digits.
pub open spec fn all_digit_field(f: Seq<char>) -> bool {
    f.len() > 0 && forall|i: int| 0 <= i < f.len() ==> is_digit_char(#[trigger] f[i])
}

/// Colon notation applies to two or three digit-only, non-empty fields.
pub open spec fn colon_applicable(t: Seq<char>) -> bool {
    let sc = split_colon(t);
    (sc.len() == 2 || sc.len() == 3) && (forall|i: int|
        0 <= i < sc.len() ==> all_digit_field(#[trigger] sc[i]))
}

/// A field's numeric value; a value too large for a 64-bit count reads
/// as zero.
pub open spec fn field_value(f: Seq<char>) -> int {
    if digits_value(f) > 0x7fffffffffffffff {
        0
    } else {
        digits_value(f)
    }
}

/// hours:minutes[:seconds] of applicable colon notation.
pub open spec fn colon_value(t: Seq<char>) -> int {
    let sc = split_colon(t);
    field_value(sc[0]) * 3600 + field_value(sc[1]) * 60 + (if sc.len() == 3 {
        field_value(sc[2])
    } else {
        0
    })
}

/// Clamp a non-negative count into the 64-bit range.
pub open spec fn clamp64(v: int) -> int {
    if v > 0x7fffffffffffffff {
        0x7fffffffffffffff
    } else {
        v
    }
}

// ---------------------------------------------------------------------
// cleaning

pub open spec fn lower_seq(s: Seq<char>) -> Seq<char> {
    s.map_values(|c: char| lower_char(c))
}

pub open spec fn and_pattern() -> Seq<char> {
    seq![' ', 'a', 'n', 'd', ' ']
}

/// Each literal " and " becomes a single space, left to right without
/// overlap.
pub open spec fn replace_and(s: Seq<char>) -> Seq<char>
    decreases s.len(),
{
    if s.len() >= 5 && s.subrange(0, 5) == and_pattern() {
        seq![' '] + replace_and(s.skip(5))
    } else if s.len() == 0 {
        s
    } else {
        seq![s[0]] + replace_and(s.skip(1))
    }
}

/// Every comma becomes a space.
pub open spec fn comma_to_space(s: Seq<char>) -> Seq<char> {
    s.map_values(
        |c: char|
            if c == ',' {
                ' '
            } else {
                c
            },
    )
}

/// Whitespace runs collapse to single spaces, ends trimmed: the first
/// state, before any token was emitted.
pub open spec fn collapse_start(s: Seq<char>) -> Seq<char>
    decreases s.len(), 0int,
{
    if s.len() == 0 {
        s
    } else if is_ws_char(s[0]) {
        collapse_start(s.skip(1))
    } else {
        seq![s[0]] + collapse_mid(s.skip(1))
    }
}

/// Collapsing state inside or after a token.
pub open spec fn collapse_mid(s: Seq<char>) -> Seq<char>
    decreases s.len(), 1int,
{
    if s.len() == 0 {
        s
    } else if !is_ws_char(s[0]) {
        seq![s[0]] + collapse_mid(s.skip(1))
    } else {
        let rest = collapse_start(s.skip(1));
        if rest.len() == 0 {
            rest
        } else {
            seq![' '] + rest
        }
    }
}

/// The cleaned form of trimmed input: lower-cased, " and " and commas
/// spaced out, whitespace collapsed.
pub open spec fn cleaned(t: Seq<char>) -> Seq<char> {
    collapse_start(comma_to_space(replace_and(lower_seq(t))))
}

// ---------------------------------------------------------------------
// token scanning

/// A numeric token character: an ASCII digit or a decimal point.
pub open spec fn is_num_char(c: char) -> bool {
    is_digit_char(c) || c == '.'
}

pub open spec fn num_run_len(s: Seq<char>) -> int
    decreases s.len(),
{
    if s.len() > 0 && is_num_char(s[0]) {
        1 + num_run_len(s.skip(1))
    } else {
        0
    }
}

pub open spec fn ws_run_len(s: Seq<char>) -> int
    decreases s.len(),
{
    if s.len() > 0 && is_ws_char(s[0]) {
        1 + ws_run_len(s.skip(1))
    } else {
        0
    }
}

pub open spec fn alpha_run_len(s: Seq<char>) -> int
    decreases s.len(),
{
    if s.len() > 0 && is_alpha_char(s[0]) {
        1 + alpha_run_len(s.skip(1))
    } else {
        0
    }
}

pub proof fn lemma_num_run_le(s: Seq<char>)
    ensures
        0 <= num_run_len(s) <= s.len(),
    decreases s.len(),
{
    if s.len() > 0 && is_num_char(s[0]) {
        lemma_num_run_le(s.skip(1));
    }
}

pub proof fn lemma_ws_run_le(s: Seq<char>)
    ensures
        0 <= ws_run_len(s) <= s.len(),
    decreases s.len(),
{
    if s.len() > 0 && is_ws_char(s[0]) {
        lemma_ws_run_le(s.skip(1));
    }
}

pub proof fn lemma_alpha_run_le(s: Seq<char>)
    ensures
        0 <= alpha_run_len(s) <= s.len(),
    decreases s.len(),
{
    if s.len() > 0 && is_alpha_char(s[0]) {
        lemma_alpha_run_le(s.skip(1));
    }
}

pub open spec fn count_dots(s: Seq<char>) -> int
    decreases s.len(),
{
    if s.len() == 0 {
        0
    } else {
        (if s[0] == '.' {
            1int
        } else {
            0int
        }) + count_dots(s.skip(1))
    }
}

pub open spec fn count_digits(s: Seq<char>) -> int
    decreases s.len(),
{
    if s.len() == 0 {
        0
    } else {
        (if is_digit_char(s[0]) {
            1int
        } else {
            0int
        }) + count_digits(s.skip(1))
    }
}

/// A numeric token is well-formed when it has at least one digit and at
/// most one decimal point.
pub open spec fn token_valid(tok: Seq<char>) -> bool {
    count_digits(tok) >= 1 && count_dots(tok) <= 1
}

/// Index of the first decimal point, or the length when there is none.
pub open spec fn dot_pos(s: Seq<char>) -> int
    decreases s.len(),
{
    if s.len() == 0 {
        0
    } else if s[0] == '.' {
        0
    } else {
        1 + dot_pos(s.skip(1))
    }
}

pub proof fn lemma_dot_pos_le(s: Seq<char>)
    ensures
        0 <= dot_pos(s) <= s.len(),
    decreases s.len(),
{
    if s.len() > 0 && s[0] != '.' {
        lemma_dot_pos_le(s.skip(1));
    }
}

/// Digits read most significant first, saturating at the integer bound.
pub open spec fn int_sat(ds: Seq<char>) -> int
    decreases ds.len(),
{
    if ds.len() == 0 {
        0
    } else {
        let p = int_sat(ds.drop_last());
        let v = p * 10 + (ds.last() as u32 - 0x30);
        if v > spec_int_sat() {
            spec_int_sat()
        } else {
            v
        }
    }
}

pub open spec fn pow10(k: int) -> int
    decreases k,
{
    if k <= 0 {
        1
    } else {
        10 * pow10(k - 1)
    }
}

/// The first twelve fractional digits, scaled to one trillion.
pub open spec fn frac12(ds: Seq<char>) -> int {
    let k = if ds.len() < 12 {
        ds.len() as int
    } else {
        12
    };
    digits_value(ds.take(k)) * pow10(12 - k)
}

/// Scaled value of a well-formed numeric token: its integer part,
/// saturated, in units of the scale, plus its fractional part truncated
/// to the scale's precision.
pub open spec fn token_scaled(tok: Seq<char>) -> int {
    let dp = dot_pos(tok);
    let ip = int_sat(tok.take(dp));
    let fr = if dp < tok.len() {
        frac12(tok.skip(dp + 1))
    } else {
        0
    };
    ip * spec_scale() + fr
}

/// Seconds of one unit token, by its recognized synonym groups; `None`
/// for anything else.
pub open spec fn unit_factor(u: Seq<char>) -> Option<int> {
    if u.len() == 1 {
        if u[0] == 's' {
            Some(1)
        } else if u[0] == 'm' {
            Some(60)
        } else if u[0] == 'h' {
            Some(3600)
        } else if u[0] == 'd' {
            Some(86400)
        } else if u[0] == 'w' {
            Some(604800)
        } else {
            None
        }
    } else if u.len() == 2 {
        if u[0] == 'h' && u[1] == 'r' {
            Some(3600)
        } else if u[0] == 'w' && u[1] == 'k' {
            Some(604800)
        } else {
            None
        }
    } else if u.len() == 3 {
        if u[0] == 's' && u[1] == 'e' && u[2] == 'c' {
            Some(1)
        } else if u[0] == 'm' && u[1] == 'i' && u[2] == 'n' {
            Some(60)
        } else if u[0] == 'h' && u[1] == 'r' && u[2] == 's' {
            Some(3600)
        } else if u[0] == 'd' && u[1] == 'a' && u[2] == 'y' {
            Some(86400)
        } else if u[0] == 'w' && u[1] == 'k' && u[2] == 's' {
            Some(604800)
        } else {
            None
        }
    } else if u.len() == 4 {
        if u[0] == 's' && u[1] == 'e' && u[2] == 'c' && u[3] == 's' {
            Some(1)
        } else if u[0] == 'm' && u[1] == 'i' && u[2] == 'n' && u[3] == 's' {
            Some(60)
        } else if u[0] == 'h' && u[1] == 'o' && u[2] == 'u' && u[3] == 'r' {
            Some(3600)
        } else if u[0] == 'd' && u[1] == 'a' && u[2] == 'y' && u[3] == 's' {
            Some(86400)
        } else if u[0] == 'w' && u[1] == 'e' && u[2] == 'e' && u[3] == 'k' {
            Some(604800)
        } else {
            None
        }
    } else if u.len() == 5 {
        if u[0] == 'h' && u[1] == 'o' && u[2] == 'u' && u[3] == 'r' && u[4] == 's' {
            Some(3600)
        } else if u[0] == 'w' && u[1] == 'e' && u[2] == 'e' && u[3] == 'k' && u[4] == 's' {
            Some(604800)
        } else {
            None
        }
    } else if u.len() == 6 {
        if u[0] == 's' && u[1] == 'e' && u[2] == 'c' && u[3] == 'o' && u[4] == 'n' && u[5] == 'd' {
            Some(1)
        } else if u[0] == 'm' && u[1] == 'i' && u[2] == 'n' && u[3] == 'u' && u[4] == 't' && u[5]
            == 'e' {
            Some(60)
        } else {
            None
        }
    } else if u.len() == 7 {
        if u[0] == 's' && u[1] == 'e' && u[2] == 'c' && u[3] == 'o' && u[4] == 'n' && u[5] == 'd'
            && u[6] == 's' {
            Some(1)
        } else if u[0] == 'm' && u[1] == 'i' && u[2] == 'n' && u[3] == 'u' && u[4] == 't' && u[5]
            == 'e' && u[6] == 's' {
            Some(60)
        } else {
            None
        }
    } else {
        None
    }
}

/// Add, saturating at the total's cap.
pub open spec fn sat_add(a: int, b: int) -> int {
    if a + b > spec_total_cap() {
        spec_total_cap()
    } else {
        a + b
    }
}

/// Outcome of the scanner: a final total with a flag telling whether any
/// (number, unit) pair was recognized, or an unknown unit token.
pub enum Scan {
    Done { total: int, found: bool },
    BadUnit { unit: Seq<char> },
}

/// The scanner over cleaned text: skip whitespace; read a maximal
/// numeric run; on a malformed or missing number, skip and continue; on
/// a number, skip whitespace, read a maximal alphabetic run; a missing
/// unit discards the number, an unknown one stops the scan, a known one
/// adds the scaled contribution.
pub open spec fn scan_tokens(s: Seq<char>, total: int, found: bool) -> Scan
    decreases s.len(),
    via scan_tokens_dec
{
    if s.len() == 0 {
        Scan::Done { total, found }
    } else if is_ws_char(s[0]) {
        scan_tokens(s.skip(1), total, found)
    } else if num_run_len(s) == 0 {
        scan_tokens(s.skip(1), total, found)
    } else {
        let nl = num_run_len(s);
        let tok = s.take(nl);
        let rest = s.skip(nl);
        if !token_valid(tok) {
            scan_tokens(rest, total, found)
        } else {
            let rest2 = rest.skip(ws_run_len(rest));
            let al = alpha_run_len(rest2);
            if al == 0 {
                scan_tokens(rest2, total, found)
            } else {
                let unit = rest2.take(al);
                match unit_factor(unit) {
                    Some(f) => scan_tokens(
                        rest2.skip(al),
                        sat_add(total, token_scaled(tok) * f),
                        true,
                    ),
                    None => Scan::BadUnit { unit },
                }
            }
        }
    }
}

#[via_fn]
proof fn scan_tokens_dec(s: Seq<char>, total: int, found: bool) {
    lemma_num_run_le(s);
    if num_run_len(s) > 0 {
        let rest = s.skip(num_run_len(s));
        lemma_ws_run_le(rest);
        let rest2 = rest.skip(ws_run_len(rest));
        lemma_alpha_run_le(rest2);
    }
}

/// The total, rounded to whole seconds, halves away from zero.
pub open spec fn round_total(total: int) -> int {
    (2 * total + spec_scale()) / (2 * spec_scale())
}

pub proof fn lemma_pow10_mono(a: int, b: int)
    requires
        a <= b,
    ensures
        pow10(a) <= pow10(b),
    decreases b - a,
{
    if a < b {
        lemma_pow10_mono(a, b - 1);
        lemma_pow10_pos(b - 1);
    }
}

proof fn lemma_count_dots_nonneg(s: Seq<char>)
    ensures
        count_dots(s) >= 0,
    decreases s.len(),
{
    if s.len() > 0 {
        lemma_count_dots_nonneg(s.skip(1));
    }
}

proof fn lemma_count_dots_one(s: Seq<char>, a: int)
    requires
        0 <= a < s.len(),
        s[a] == '.',
    ensures
        count_dots(s) >= 1,
    decreases s.len(),
{
    lemma_count_dots_nonneg(s.skip(1));
    if a > 0 {
        lemma_count_dots_one(s.skip(1), a - 1);
    }
}

/// Two distinct decimal points make the dot count at least two.
proof fn lemma_count_dots_two(s: Seq<char>, a: int, b: int)
    requires
        0 <= a < b < s.len(),
        s[a] == '.',
        s[b] == '.',
    ensures
        count_dots(s) >= 2,
    decreases s.len(),
{
    if a == 0 {
        lemma_count_dots_one(s.skip(1), b - 1);
    } else {
        lemma_count_dots_two(s.skip(1), a - 1, b - 1);
    }
}

/// The collapsing state inside a whitespace gap that follows a token: a
/// single space will separate whatever still comes.
pub open spec fn collapse_gap(s: Seq<char>) -> Seq<char> {
    let rest = collapse_start(s);
    if rest.len() == 0 {
        rest
    } else {
        seq![' '] + rest
    }
}

pub proof fn lemma_pow10_pos(k: int)
    ensures
        pow10(k) >= 1,
    decreases k,
{
    if k > 0 {
        lemma_pow10_pos(k - 1);
    }
}

pub proof fn lemma_pow10_add(a: int, b: int)
    requires
        a >= 0,
        b >= 0,
    ensures
        pow10(a) * pow10(b) == pow10(a + b),
    decreases a,
{
    if a == 0 {
        assert(pow10(0) == 1);
    } else {
        lemma_pow10_add(a - 1, b);
        assert(pow10(a) * pow10(b) == 10 * (pow10(a - 1) * pow10(b))) by (nonlinear_arith)
            requires
                pow10(a) == 10 * pow10(a - 1),
        ;
    }
}

/// The parse of a duration text: the trimmed input must be non-empty and
/// not start with a minus sign; applicable colon notation is read as
/// hours:minutes[:seconds]; otherwise the cleaned text is scanned for
/// (number, unit) pairs, and the exact scaled sum is rounded to whole
/// seconds. Errors carry their message text.
pub open spec fn parse_duration_spec(s: Seq<char>) -> Result<int, Seq<char>> {
    let t = trim_spec(s);
    if t.len() == 0 {
        Err("Duration string cannot be empty"@)
    } else if t[0] == '-' {
        Err("Duration cannot be negative"@)
    } else if colon_applicable(t) {
        Ok(clamp64(colon_value(t)))
    } else {
        match scan_tokens(cleaned(t), 0, false) {
            Scan::BadUnit { unit } => Err("Unknown unit: "@ + unit),
            Scan::Done { total, found } => if !found {
                Err("Cannot parse duration: "@ + t)
            } else {
                Ok(clamp64(round_total(total)))
            },
        }
    }
}

// ---------------------------------------------------------------------
// executable pipeline

fn num_char_test(c: char) -> (r: bool)
    ensures
        r == is_num_char(c),
{
    digit_char_test(c) || c == '.'
}

fn trim_chars(v: &Vec<char>) -> (t: Vec<char>)
    ensures
        t@ == trim_spec(v@),
{
    let n = v.len();
    let mut lo: usize = 0;
    proof {
        assert(v@.skip(0) =~= v@);
    }
    while lo < n && ws_char(v[lo])
        invariant
            lo <= n,
            n == v@.len(),
            trim_start(v@) == trim_start(v@.skip(lo as int)),
        decreases n - lo,
    {
        proof {
            assert(v@.skip(lo as int).skip(1) =~= v@.skip(lo as int + 1));
        }
        lo += 1;
    }
    proof {
        if lo == n {
            assert(v@.skip(lo as int) =~= Seq::<char>::empty());
        }
        assert(trim_start(v@) == v@.skip(lo as int));
        assert(v@.subrange(lo as int, n as int) =~= v@.skip(lo as int));
    }
    let mut hi: usize = n;
    while hi > lo && ws_char(v[hi - 1])
        invariant
            lo <= hi <= n,
            n == v@.len(),
            trim_start(v@) == v@.skip(lo as int),
            trim_end(v@.skip(lo as int)) == trim_end(v@.subrange(lo as int, hi as int)),
        decreases hi,
    {
        proof {
            let cur = v@.subrange(lo as int, hi as int);
            assert(cur.last() == v@[hi as int - 1]);
            assert(cur.drop_last() =~= v@.subrange(lo as int, hi as int - 1));
        }
        hi -= 1;
    }
    proof {
        let cur = v@.subrange(lo as int, hi as int);
        if hi == lo {
            assert(cur =~= Seq::<char>::empty());
        }
        assert(trim_end(cur) == cur);
    }
    let mut t: Vec<char> = Vec::new();
    let mut k = lo;
    while k < hi
        invariant
            lo <= k <= hi <= n,
            n == v@.len(),
            t@ == v@.subrange(lo as int, k as int),
        decreases hi - k,
    {
        t.push(v[k]);
        proof {
            assert(v@.subrange(lo as int, k as int) + seq![v@[k as int]] =~= v@.subrange(
                lo as int,
                k as int + 1,
            ));
        }
        k += 1;
    }
    proof {
        assert(t@ =~= trim_spec(v@));
    }
    t
}

fn lower_vec(v: &Vec<char>) -> (r: Vec<char>)
    ensures
        r@ == lower_seq(v@),
{
    let n = v.len();
    let mut r: Vec<char> = Vec::new();
    let mut i: usize = 0;
    while i < n
        invariant
            i <= n,
            n == v@.len(),
            r@.len() == i,
            forall|k: int| 0 <= k < i ==> r@[k] == lower_char(v@[k]),
        decreases n - i,
    {
        r.push(to_lower_char(v[i]));
        i += 1;
    }
    proof {
        assert(r@ =~= lower_seq(v@));
    }
    r
}

fn comma_vec(v: &Vec<char>) -> (r: Vec<char>)
    ensures
        r@ == comma_to_space(v@),
{
    let n = v.len();
    let mut r: Vec<char> = Vec::new();
    let mut i: usize = 0;
    while i < n
        invariant
            i <= n,
            n == v@.len(),
            r@.len() == i,
            forall|k: int|
                0 <= k < i ==> r@[k] == (if v@[k] == ',' {
                    ' '
                } else {
                    v@[k]
                }),
        decreases n - i,
    {
        let c = v[i];
        if c == ',' {
            r.push(' ');
        } else {
            r.push(c);
        }
        i += 1;
    }
    proof {
        assert(r@ =~= comma_to_space(v@));
    }
    r
}

fn replace_and_vec(v: &Vec<char>) -> (r: Vec<char>)
    ensures
        r@ == replace_and(v@),
{
    let n = v.len();
    let mut r: Vec<char> = Vec::new();
    let mut i: usize = 0;
    proof {
        assert(v@.skip(0) =~= v@);
    }
    while i < n
        invariant
            i <= n,
            n == v@.len(),
            replace_and(v@) == r@ + replace_and(v@.skip(i as int)),
        decreases n - i,
    {
        let ghost s = v@.skip(i as int);
        let matched = n - i >= 5 && v[i] == ' ' && v[i + 1] == 'a' && v[i + 2] == 'n' && v[i + 3]
            == 'd' && v[i + 4] == ' ';
        if matched {
            r.push(' ');
            proof {
                assert(s.subrange(0, 5) =~= and_pattern());
                assert(s.skip(5) =~= v@.skip(i as int + 5));
                assert(r@ + replace_and(v@.skip(i as int + 5)) =~= (r@.drop_last() + (seq![' ']
                    + replace_and(s.skip(5)))));
            }
            i += 5;
        } else {
            r.push(v[i]);
            proof {
                if s.len() >= 5 && s.subrange(0, 5) == and_pattern() {
                    assert(s.subrange(0, 5)[0] == s[0] && s.subrange(0, 5)[1] == s[1]
                        && s.subrange(0, 5)[2] == s[2] && s.subrange(0, 5)[3] == s[3]
                        && s.subrange(0, 5)[4] == s[4]);
                    assert(false);
                }
                assert(s.skip(1) =~= v@.skip(i as int + 1));
                assert(r@ + replace_and(v@.skip(i as int + 1)) =~= (r@.drop_last() + (seq![s[0]]
                    + replace_and(s.skip(1)))));
            }
            i += 1;
        }
    }
    proof {
        assert(v@.skip(n as int) =~= Seq::<char>::empty());
        assert(r@ =~= replace_and(v@));
    }
    r
}

fn collapse_vec(v: &Vec<char>) -> (r: Vec<char>)
    ensures
        r@ == collapse_start(v@),
{
    let n = v.len();
    let mut r: Vec<char> = Vec::new();
    let mut i: usize = 0;
    let mut started = false;
    let mut pending = false;
    proof {
        assert(v@.skip(0) =~= v@);
    }
    while i < n
        invariant
            i <= n,
            n == v@.len(),
            !started ==> !pending && collapse_start(v@) == r@ + collapse_start(v@.skip(i as int)),
            started && !pending ==> collapse_start(v@) == r@ + collapse_mid(v@.skip(i as int)),
            started && pending ==> collapse_start(v@) == r@ + collapse_gap(v@.skip(i as int)),
        decreases n - i,
    {
        let ghost s = v@.skip(i as int);
        let c = v[i];
        let w = ws_char(c);
        proof {
            assert(s.skip(1) =~= v@.skip(i as int + 1));
            assert(s[0] == c);
        }
        if !started {
            if !w {
                r.push(c);
                started = true;
                proof {
                    assert(r@ + collapse_mid(v@.skip(i as int + 1)) =~= (r@.drop_last() + (seq![
                        s[0],
                    ] + collapse_mid(s.skip(1)))));
                }
            }
        } else if !pending {
            if w {
                pending = true;
            } else {
                r.push(c);
                proof {
                    assert(r@ + collapse_mid(v@.skip(i as int + 1)) =~= (r@.drop_last() + (seq![
                        s[0],
                    ] + collapse_mid(s.skip(1)))));
                }
            }
        } else {
            if !w {
                r.push(' ');
                r.push(c);
                pending = false;
                proof {
                    let rest = collapse_start(s);
                    assert(rest == seq![s[0]] + collapse_mid(s.skip(1)));
                    assert(rest.len() > 0);
                    assert(collapse_gap(s) == seq![' '] + rest);
                    assert(r@ + collapse_mid(v@.skip(i as int + 1)) =~= (r@.drop_last().drop_last()
                        + collapse_gap(s)));
                }
            }
        }
        i += 1;
    }
    proof {
        assert(v@.skip(n as int) =~= Seq::<char>::empty());
        assert(r@ =~= collapse_start(v@));
    }
    r
}

fn num_run_end(v: &Vec<char>, i: usize) -> (j: usize)
    requires
        i <= v@.len(),
    ensures
        i <= j <= v@.len(),
        j - i == num_run_len(v@.skip(i as int)),
{
    let n = v.len();
    let mut j = i;
    while j < n && num_char_test(v[j])
        invariant
            i <= j <= n,
            n == v@.len(),
            num_run_len(v@.skip(i as int)) == (j - i) + num_run_len(v@.skip(j as int)),
        decreases n - j,
    {
        proof {
            assert(v@.skip(j as int).skip(1) =~= v@.skip(j as int + 1));
        }
        j += 1;
    }
    proof {
        if j == n {
            assert(v@.skip(j as int) =~= Seq::<char>::empty());
        }
        assert(num_run_len(v@.skip(j as int)) == 0);
        lemma_num_run_le(v@.skip(i as int));
    }
    j
}

fn ws_run_end(v: &Vec<char>, i: usize) -> (j: usize)
    requires
        i <= v@.len(),
    ensures
        i <= j <= v@.len(),
        j - i == ws_run_len(v@.skip(i as int)),
{
    let n = v.len();
    let mut j = i;
    while j < n && ws_char(v[j])
        invariant
            i <= j <= n,
            n == v@.len(),
            ws_run_len(v@.skip(i as int)) == (j - i) + ws_run_len(v@.skip(j as int)),
        decreases n - j,
    {
        proof {
            assert(v@.skip(j as int).skip(1) =~= v@.skip(j as int + 1));
        }
        j += 1;
    }
    proof {
        if j == n {
            assert(v@.skip(j as int) =~= Seq::<char>::empty());
        }
        assert(ws_run_len(v@.skip(j as int)) == 0);
        lemma_ws_run_le(v@.skip(i as int));
    }
    j
}

fn alpha_run_end(v: &Vec<char>, i: usize) -> (j: usize)
    requires
        i <= v@.len(),
    ensures
        i <= j <= v@.len(),
        j - i == alpha_run_len(v@.skip(i as int)),
{
    let n = v.len();
    let mut j = i;
    while j < n && alpha_char(v[j])
        invariant
            i <= j <= n,
            n == v@.len(),
            alpha_run_len(v@.skip(i as int)) == (j - i) + alpha_run_len(v@.skip(j as int)),
        decreases n - j,
    {
        proof {
            assert(v@.skip(j as int).skip(1) =~= v@.skip(j as int + 1));
        }
        j += 1;
    }
    proof {
        if j == n {
            assert(v@.skip(j as int) =~= Seq::<char>::empty());
        }
        assert(alpha_run_len(v@.skip(j as int)) == 0);
        lemma_alpha_run_le(v@.skip(i as int));
    }
    j
}

fn pow10_exec(k: usize) -> (r: u64)
    requires
        k <= 12,
    ensures
        r as int == pow10(k as int),
{
    proof {
        reveal_with_fuel(pow10, 14);
    }
    if k == 0 {
        1
    } else if k == 1 {
        10
    } else if k == 2 {
        100
    } else if k == 3 {
        1_000
    } else if k == 4 {
        10_000
    } else if k == 5 {
        100_000
    } else if k == 6 {
        1_000_000
    } else if k == 7 {
        10_000_000
    } else if k == 8 {
        100_000_000
    } else if k == 9 {
        1_000_000_000
    } else if k == 10 {
        10_000_000_000
    } else if k == 11 {
        100_000_000_000
    } else {
        1_000_000_000_000
    }
}

/// Well-formedness and scaled value of the numeric token `v[i..j]`.
fn token_scaled_exec(v: &Vec<char>, i: usize, j: usize) -> (r: (bool, u128))
    requires
        i <= j <= v@.len(),
        forall|k: int| i <= k < j ==> is_num_char(#[trigger] v@[k]),
    ensures
        r.0 == token_valid(v@.subrange(i as int, j as int)),
        r.0 ==> r.1 as int == token_scaled(v@.subrange(i as int, j as int)),
        r.1 as int <= spec_int_sat() * spec_scale() + spec_scale(),
{
    let ghost tok = v@.subrange(i as int, j as int);
    let n = v.len();
    // count dots and digits
    let mut dots: usize = 0;
    let mut digits: usize = 0;
    let mut k = i;
    while k < j
        invariant
            i <= k <= j <= n,
            n == v@.len(),
            tok == v@.subrange(i as int, j as int),
            count_dots(tok) == dots + count_dots(v@.subrange(k as int, j as int)),
            count_digits(tok) == digits + count_digits(v@.subrange(k as int, j as int)),
            dots <= k - i,
            digits <= k - i,
        decreases j - k,
    {
        proof {
            let cur = v@.subrange(k as int, j as int);
            assert(cur[0] == v@[k as int]);
            assert(cur.skip(1) =~= v@.subrange(k as int + 1, j as int));
        }
        let c = v[k];
        if c == '.' {
            dots += 1;
        }
        if digit_char_test(c) {
            digits += 1;
        }
        k += 1;
    }
    proof {
        assert(v@.subrange(j as int, j as int) =~= Seq::<char>::empty());
    }
    if !(digits >= 1 && dots <= 1) {
        return (false, 0);
    }
    // find the dot
    let mut dp = i;
    while dp < j && v[dp] != '.'
        invariant
            i <= dp <= j <= n,
            n == v@.len(),
            tok == v@.subrange(i as int, j as int),
            dot_pos(tok) == (dp - i) + dot_pos(v@.subrange(dp as int, j as int)),
            forall|m: int| i <= m < dp ==> v@[m] != '.',
        decreases j - dp,
    {
        proof {
            let cur = v@.subrange(dp as int, j as int);
            assert(cur[0] == v@[dp as int]);
            assert(cur.skip(1) =~= v@.subrange(dp as int + 1, j as int));
        }
        dp += 1;
    }
    proof {
        if dp == j {
            assert(v@.subrange(dp as int, j as int) =~= Seq::<char>::empty());
        }
        assert(dot_pos(v@.subrange(dp as int, j as int)) == 0);
        assert(dot_pos(tok) == dp - i);
    }
    // integer part, saturating
    let ghost ipart = tok.take(dp as int - i as int);
    proof {
        assert(ipart =~= v@.subrange(i as int, dp as int));
    }
    let mut ip: u128 = 0;
    let mut k2 = i;
    while k2 < dp
        invariant
            i <= k2 <= dp <= j <= n,
            n == v@.len(),
            forall|m: int| i <= m < j ==> is_num_char(#[trigger] v@[m]),
            forall|m: int| i <= m < dp ==> v@[m] != '.',
            ip as int == int_sat(v@.subrange(i as int, k2 as int)),
            ip <= 20_000_000_000_000_000_000u128,
        decreases dp - k2,
    {
        let c = v[k2];
        proof {
            assert(is_num_char(v@[k2 as int]) && v@[k2 as int] != '.');
            assert(is_digit_char(v@[k2 as int]));
            let pre = v@.subrange(i as int, k2 as int + 1);
            assert(pre.drop_last() =~= v@.subrange(i as int, k2 as int));
            assert(pre.last() == v@[k2 as int]);
        }
        let d: u128 = (c as u32 - 0x30) as u128;
        let next = ip * 10 + d;
        ip = if next > 20_000_000_000_000_000_000u128 {
            20_000_000_000_000_000_000u128
        } else {
            next
        };
        k2 += 1;
    }
    // fractional part: at most twelve digits
    proof {
        if dp < j {
            assert(tok[dp as int - i as int] == '.');
            assert forall|m: int| dp as int + 1 <= m < j implies v@[m] != '.' by {
                if v@[m] == '.' {
                    assert(tok[m - i] == '.');
                    lemma_count_dots_two(tok, dp as int - i as int, m - i);
                }
            }
        }
    }
    let mut fv: u128 = 0;
    let mut cnt: usize = 0;
    let mut k3 = if dp < j {
        dp + 1
    } else {
        j
    };
    let ghost fstart: int = k3 as int;
    while k3 < j && cnt < 12
        invariant
            i as int <= fstart,
            fstart <= k3 as int <= j <= n,
            n == v@.len(),
            forall|m: int| i <= m < j ==> is_num_char(#[trigger] v@[m]),
            forall|m: int| fstart <= m < j ==> v@[m] != '.',
            cnt as int == k3 as int - fstart,
            cnt <= 12,
            fv as int == digits_value(v@.subrange(fstart, k3 as int)),
            (fv as int) < pow10(cnt as int),
        decreases j - k3,
    {
        let c = v[k3];
        proof {
            assert(is_num_char(v@[k3 as int]));
            assert(is_digit_char(v@[k3 as int]));
            let pre = v@.subrange(fstart, k3 as int + 1);
            assert(pre.drop_last() =~= v@.subrange(fstart, k3 as int));
            assert(pre.last() == v@[k3 as int]);
            assert(pow10(cnt as int + 1) == 10 * pow10(cnt as int));
            lemma_pow10_mono(cnt as int, 11);
            reveal_with_fuel(pow10, 14);
            assert(pow10(11) == 100_000_000_000);
        }
        let d: u128 = (c as u32 - 0x30) as u128;
        fv = fv * 10 + d;
        cnt += 1;
        k3 += 1;
    }
    let p = pow10_exec(12 - cnt);
    proof {
        lemma_pow10_pos(12 - cnt as int);
        lemma_pow10_add(cnt as int, 12 - cnt as int);
        assert((fv as int) * pow10(12 - cnt as int) < pow10(cnt as int) * pow10(12 - cnt as int))
            by (nonlinear_arith)
            requires
                (fv as int) < pow10(cnt as int),
                pow10(12 - cnt as int) >= 1,
                fv >= 0,
        ;
        reveal_with_fuel(pow10, 14);
        assert(pow10(12) == 1_000_000_000_000);
    }
    let fr: u128 = fv * (p as u128);
    let value: u128 = ip * 1_000_000_000_000u128 + fr;
    proof {
        // tie the executed pieces to the token's spec value
        let dpos = dot_pos(tok);
        assert(int_sat(ipart) == ip as int);
        if (dp as int) < j as int {
            let frac = tok.skip(dpos + 1);
            assert(frac =~= v@.subrange(dp as int + 1, j as int));
            let kk = if frac.len() < 12 {
                frac.len() as int
            } else {
                12
            };
            assert(frac.take(kk) =~= v@.subrange(fstart, fstart + kk));
            assert(k3 as int == fstart + kk);
            assert(frac12(frac) == fv as int * pow10(12 - cnt as int));
            assert(fr as int == frac12(frac));
        } else {
            assert(cnt == 0);
            assert(fr == 0);
        }
        assert(value as int == token_scaled(tok));
    }
    (true, value)
}

/// Seconds of the unit token `v[from..to]`, by its synonym table.
fn unit_factor_exec(v: &Vec<char>, from: usize, to: usize) -> (r: Option<u64>)
    requires
        from <= to <= v@.len(),
    ensures
        match r {
            Some(f) => unit_factor(v@.subrange(from as int, to as int)) == Some(f as int),
            None => unit_factor(v@.subrange(from as int, to as int)) is None,
        },
{
    let ghost u = v@.subrange(from as int, to as int);
    proof {
        assert(forall|m: int| 0 <= m < u.len() ==> u[m] == v@[from + m]);
    }
    let len = to - from;
    if len == 1 {
        let c0 = v[from];
        if c0 == 's' {
            proof { assert(u =~= seq!['s']); }
            return Some(1);
        }
        if c0 == 'm' {
            proof { assert(u =~= seq!['m']); }
            return Some(60);
        }
        if c0 == 'h' {
            proof { assert(u =~= seq!['h']); }
            return Some(3600);
        }
        if c0 == 'd' {
            proof { assert(u =~= seq!['d']); }
            return Some(86400);
        }
        if c0 == 'w' {
            proof { assert(u =~= seq!['w']); }
            return Some(604800);
        }
        return None;
    }
    if len == 2 {
        let c0 = v[from];
        let c1 = v[from + 1];
        if c0 == 'h' && c1 == 'r' {
            proof { assert(u =~= seq!['h', 'r']); }
            return Some(3600);
        }
        if c0 == 'w' && c1 == 'k' {
            proof { assert(u =~= seq!['w', 'k']); }
            return Some(604800);
        }
        return None;
    }
    if len == 3 {
        let c0 = v[from];
        let c1 = v[from + 1];
        let c2 = v[from + 2];
        if c0 == 's' && c1 == 'e' && c2 == 'c' {
            proof { assert(u =~= seq!['s', 'e', 'c']); }
            return Some(1);
        }
        if c0 == 'm' && c1 == 'i' && c2 == 'n' {
            proof { assert(u =~= seq!['m', 'i', 'n']); }
            return Some(60);
        }
        if c0 == 'h' && c1 == 'r' && c2 == 's' {
            proof { assert(u =~= seq!['h', 'r', 's']); }
            return Some(3600);
        }
        if c0 == 'd' && c1 == 'a' && c2 == 'y' {
            proof { assert(u =~= seq!['d', 'a', 'y']); }
            return Some(86400);
        }
        if c0 == 'w' && c1 == 'k' && c2 == 's' {
            proof { assert(u =~= seq!['w', 'k', 's']); }
            return Some(604800);
        }
        return None;
    }
    if len == 4 {
        let c0 = v[from];
        let c1 = v[from + 1];
        let c2 = v[from + 2];
        let c3 = v[from + 3];
        if c0 == 's' && c1 == 'e' && c2 == 'c' && c3 == 's' {
            proof { assert(u =~= seq!['s', 'e', 'c', 's']); }
            return Some(1);
        }
        if c0 == 'm' && c1 == 'i' && c2 == 'n' && c3 == 's' {
            proof { assert(u =~= seq!['m', 'i', 'n', 's']); }
            return Some(60);
        }
        if c0 == 'h' && c1 == 'o' && c2 == 'u' && c3 == 'r' {
            proof { assert(u =~= seq!['h', 'o', 'u', 'r']); }
            return Some(3600);
        }
        if c0 == 'd' && c1 == 'a' && c2 == 'y' && c3 == 's' {
            proof { assert(u =~= seq!['d', 'a', 'y', 's']); }
            return Some(86400);
        }
        if c0 == 'w' && c1 == 'e' && c2 == 'e' && c3 == 'k' {
            proof { assert(u =~= seq!['w', 'e', 'e', 'k']); }
            return Some(604800);
        }
        return None;
    }
    if len == 5 {
        let c0 = v[from];
        let c1 = v[from + 1];
        let c2 = v[from + 2];
        let c3 = v[from + 3];
        let c4 = v[from + 4];
        if c0 == 'h' && c1 == 'o' && c2 == 'u' && c3 == 'r' && c4 == 's' {
            proof { assert(u =~= seq!['h', 'o', 'u', 'r', 's']); }
            return Some(3600);
        }
        if c0 == 'w' && c1 == 'e' && c2 == 'e' && c3 == 'k' && c4 == 's' {
            proof { assert(u =~= seq!['w', 'e', 'e', 'k', 's']); }
            return Some(604800);
        }
        return None;
    }
    if len == 6 {
        let c0 = v[from];
        let c1 = v[from + 1];
        let c2 = v[from + 2];
        let c3 = v[from + 3];
        let c4 = v[from + 4];
        let c5 = v[from + 5];
        if c0 == 's' && c1 == 'e' && c2 == 'c' && c3 == 'o' && c4 == 'n' && c5 == 'd' {
            proof { assert(u =~= seq!['s', 'e', 'c', 'o', 'n', 'd']); }
            return Some(1);
        }
        if c0 == 'm' && c1 == 'i' && c2 == 'n' && c3 == 'u' && c4 == 't' && c5 == 'e' {
            proof { assert(u =~= seq!['m', 'i', 'n', 'u', 't', 'e']); }
            return Some(60);
        }
        return None;
    }
    if len == 7 {
        let c0 = v[from];
        let c1 = v[from + 1];
        let c2 = v[from + 2];
        let c3 = v[from + 3];
        let c4 = v[from + 4];
        let c5 = v[from + 5];
        let c6 = v[from + 6];
        if c0 == 's' && c1 == 'e' && c2 == 'c' && c3 == 'o' && c4 == 'n' && c5 == 'd' && c6 == 's' {
            proof { assert(u =~= seq!['s', 'e', 'c', 'o', 'n', 'd', 's']); }
            return Some(1);
        }
        if c0 == 'm' && c1 == 'i' && c2 == 'n' && c3 == 'u' && c4 == 't' && c5 == 'e' && c6 == 's' {
            proof { assert(u =~= seq!['m', 'i', 'n', 'u', 't', 'e', 's']); }
            return Some(60);
        }
        return None;
    }
    None
}

/// Checks that `v[a..b]` is a non-empty run of ASCII digits.
fn all_digit_check(v: &Vec<char>, a: usize, b: usize) -> (r: bool)
    requires
        a <= b <= v@.len(),
    ensures
        r == all_digit_field(v@.subrange(a as int, b as int)),
{
    if a == b {
        return false;
    }
    let mut k = a;
    while k < b
        invariant
            a <= k <= b <= v@.len(),
            forall|m: int| a <= m < k ==> is_digit_char(#[trigger] v@[m]),
        decreases b - k,
    {
        if !digit_char_test(v[k]) {
            proof {
                assert(v@.subrange(a as int, b as int)[k - a as int] == v@[k as int]);
            }
            return false;
        }
        k += 1;
    }
    proof {
        assert(forall|m: int|
            0 <= m < b - a ==> #[trigger] v@.subrange(a as int, b as int)[m] == v@[a + m]);
    }
    true
}

/// Value of the digit-only field `v[a..b]`, reading oversized values as
/// zero.
fn field_value_exec(v: &Vec<char>, a: usize, b: usize) -> (r: u64)
    requires
        a <= b <= v@.len(),
        forall|m: int| a <= m < b ==> is_digit_char(#[trigger] v@[m]),
    ensures
        r as int == field_value(v@.subrange(a as int, b as int)),
        r <= 0x7fffffffffffffff,
{
    let mut acc: u128 = 0;
    let mut k = a;
    while k < b
        invariant
            a <= k <= b <= v@.len(),
            forall|m: int| a <= m < b ==> is_digit_char(#[trigger] v@[m]),
            acc as int == (if digits_value(v@.subrange(a as int, k as int)) > 0x7fffffffffffffff {
                0x8000000000000000int
            } else {
                digits_value(v@.subrange(a as int, k as int))
            }),
        decreases b - k,
    {
        let c = v[k];
        proof {
            assert(is_digit_char(v@[k as int]));
            let pre = v@.subrange(a as int, k as int + 1);
            assert(pre.drop_last() =~= v@.subrange(a as int, k as int));
            assert(pre.last() == v@[k as int]);
        }
        let d: u128 = (c as u32 - 0x30) as u128;
        let next = acc * 10 + d;
        acc = if next > 0x7fffffffffffffffu128 {
            0x8000000000000000u128
        } else {
            next
        };
        k += 1;
    }
    if acc > 0x7fffffffffffffffu128 {
        0
    } else {
        acc as u64
    }
}

/// Reads applicable colon notation out of the trimmed text, or reports
/// that the colon grammar does not apply.
#[verifier::rlimit(80)]
fn colon_result(t: &Vec<char>) -> (r: Option<i64>)
    ensures
        match r {
            Some(x) => colon_applicable(t@) && x as int == clamp64(colon_value(t@)),
            None => !colon_applicable(t@),
        },
{
    let n = t.len();
    let mut k: usize = 0;
    let mut ncol: usize = 0;
    let mut p1: usize = 0;
    let mut p2: usize = 0;
    proof {
        assert(t@.skip(0) =~= t@);
    }
    while k < n
        invariant
            k <= n,
            n == t@.len(),
            ncol <= k,
            count_colons(t@) == ncol + count_colons(t@.skip(k as int)),
            ncol >= 1 ==> p1 < k && t@[p1 as int] == ':',
            ncol >= 2 ==> p1 < p2 < k && t@[p2 as int] == ':',
            forall|m: int|
                0 <= m < k && t@[m] == ':' ==> ((ncol >= 1 && m == p1 as int) || (ncol >= 2 && m
                    == p2 as int) || ncol >= 3),
        decreases n - k,
    {
        proof {
            assert(t@.skip(k as int)[0] == t@[k as int]);
            assert(t@.skip(k as int).skip(1) =~= t@.skip(k as int + 1));
        }
        if t[k] == ':' {
            if ncol == 0 {
                p1 = k;
            } else if ncol == 1 {
                p2 = k;
            }
            ncol += 1;
        }
        k += 1;
    }
    proof {
        assert(t@.skip(n as int) =~= Seq::<char>::empty());
        assert(count_colons(t@) == ncol);
        lemma_split_colon_shape(t@);
    }
    if ncol == 1 {
        let ghost f0 = t@.subrange(0, p1 as int);
        let ghost f1 = t@.subrange(p1 as int + 1, n as int);
        proof {
            assert(t@ =~= f0 + seq![':'] + t@.skip(p1 as int + 1));
            assert(f1 =~= t@.skip(p1 as int + 1));
            lemma_split_colon_whole(t@.skip(p1 as int + 1));
            lemma_split_colon_head(f0, t@.skip(p1 as int + 1));
            assert(split_colon(t@) == seq![f0] + seq![t@.skip(p1 as int + 1)]);
            assert(split_colon(t@) =~~= seq![f0, f1]);
        }
        let ok0 = all_digit_check(t, 0, p1);
        let ok1 = all_digit_check(t, p1 + 1, n);
        if ok0 && ok1 {
            proof {
                assert(split_colon(t@)[0] == f0 && split_colon(t@)[1] == f1);
                assert(colon_applicable(t@));
                assert(forall|m: int| 0 <= m < p1 ==> is_digit_char(#[trigger] t@[m])) by {
                    assert(forall|m: int| 0 <= m < f0.len() ==> is_digit_char(#[trigger] f0[m]));
                    assert(forall|m: int| 0 <= m < p1 ==> t@[m] == f0[m]);
                }
                assert(forall|m: int| p1 + 1 <= m < n ==> is_digit_char(#[trigger] t@[m])) by {
                    assert(forall|m: int| 0 <= m < f1.len() ==> is_digit_char(#[trigger] f1[m]));
                    assert(forall|m: int| p1 + 1 <= m < n ==> t@[m] == f1[m - p1 - 1]);
                }
            }
            let h = field_value_exec(t, 0, p1);
            let m = field_value_exec(t, p1 + 1, n);
            let total: u128 = (h as u128) * 3600 + (m as u128) * 60;
            let res: i64 = if total > 0x7fffffffffffffffu128 {
                0x7fffffffffffffff
            } else {
                total as i64
            };
            Some(res)
        } else {
            proof {
                assert(!colon_applicable(t@));
            }
            None
        }
    } else if ncol == 2 {
        let ghost f0 = t@.subrange(0, p1 as int);
        let ghost f1 = t@.subrange(p1 as int + 1, p2 as int);
        let ghost f2 = t@.subrange(p2 as int + 1, n as int);
        proof {
            let rest1 = t@.skip(p1 as int + 1);
            assert(t@ =~= f0 + seq![':'] + rest1);
            assert(rest1 =~= f1 + seq![':'] + t@.skip(p2 as int + 1));
            assert(f2 =~= t@.skip(p2 as int + 1));
            lemma_split_colon_whole(t@.skip(p2 as int + 1));
            lemma_split_colon_head(f1, t@.skip(p2 as int + 1));
            lemma_split_colon_head(f0, rest1);
            assert(split_colon(rest1) == seq![f1] + seq![t@.skip(p2 as int + 1)]);
            assert(split_colon(t@) == seq![f0] + split_colon(rest1));
            assert(split_colon(t@) =~~= seq![f0, f1, f2]);
        }
        let ok0 = all_digit_check(t, 0, p1);
        let ok1 = all_digit_check(t, p1 + 1, p2);
        let ok2 = all_digit_check(t, p2 + 1, n);
        if ok0 && ok1 && ok2 {
            proof {
                assert(split_colon(t@)[0] == f0 && split_colon(t@)[1] == f1 && split_colon(t@)[2]
                    == f2);
                assert(colon_applicable(t@));
                assert(forall|m: int| 0 <= m < p1 ==> is_digit_char(#[trigger] t@[m])) by {
                    assert(forall|m: int| 0 <= m < f0.len() ==> is_digit_char(#[trigger] f0[m]));
                    assert(forall|m: int| 0 <= m < p1 ==> t@[m] == f0[m]);
                }
                assert(forall|m: int| p1 + 1 <= m < p2 ==> is_digit_char(#[trigger] t@[m])) by {
                    assert(forall|m: int| 0 <= m < f1.len() ==> is_digit_char(#[trigger] f1[m]));
                    assert(forall|m: int| p1 + 1 <= m < p2 ==> t@[m] == f1[m - p1 - 1]);
                }
                assert(forall|m: int| p2 + 1 <= m < n ==> is_digit_char(#[trigger] t@[m])) by {
                    assert(forall|m: int| 0 <= m < f2.len() ==> is_digit_char(#[trigger] f2[m]));
                    assert(forall|m: int| p2 + 1 <= m < n ==> t@[m] == f2[m - p2 - 1]);
                }
            }
            let h = field_value_exec(t, 0, p1);
            let m = field_value_exec(t, p1 + 1, p2);
            let s = field_value_exec(t, p2 + 1, n);
            let total: u128 = (h as u128) * 3600 + (m as u128) * 60 + (s as u128);
            let res: i64 = if total > 0x7fffffffffffffffu128 {
                0x7fffffffffffffff
            } else {
                total as i64
            };
            Some(res)
        } else {
            proof {
                assert(!colon_applicable(t@));
            }
            None
        }
    } else {
        proof {
            assert(split_colon(t@).len() == ncol + 1);
            assert(!colon_applicable(t@));
        }
        None
    }
}

/// Parses a human-written duration text into whole seconds.
///
/// Accepted forms: colon notation ("2:30", "1:30:00"), compact unit
/// tokens ("2h30m", "1.5h"), and verbose forms with commas and "and"
/// ("2 hours and 30 minutes"). Fails on empty input, a leading minus,
/// an unknown unit after a number, and text with no (number, unit) pair.
pub fn parse_duration(text: &str) -> (r: Result<i64, ParseError>)
    ensures
        match parse_duration_spec(text@) {
            Ok(v) => r matches Ok(x) && x as int == v,
            Err(m) => r matches Err(e) && e.message@ == m,
        },
{
    let chars = str_to_chars(text);
    let t = trim_chars(&chars);
    if t.len() == 0 {
        return Err(ParseError { message: String::from_str("Duration string cannot be empty") });
    }
    if t[0] == '-' {
        return Err(ParseError { message: String::from_str("Duration cannot be negative") });
    }
    match colon_result(&t) {
        Some(x) => {
            return Ok(x);
        },
        None => {},
    }
    let c1 = lower_vec(&t);
    let c2 = replace_and_vec(&c1);
    let c3 = comma_vec(&c2);
    let c = collapse_vec(&c3);
    proof {
        assert(c@ == cleaned(t@));
    }
    let n = c.len();
    let mut i: usize = 0;
    let mut total: u128 = 0;
    let mut found = false;
    proof {
        assert(c@.skip(0) =~= c@);
    }
    while i < n
        invariant
            i <= n,
            n == c@.len(),
            c@ == cleaned(t@),
            t@ == trim_spec(chars@),
            chars@ == text@,
            t@.len() > 0 && t@[0] != '-',
            !colon_applicable(t@),
            total <= 20_000_000_000_000_000_000_000_000_000_000_000_000u128,
            scan_tokens(c@.skip(i as int), total as int, found) == scan_tokens(c@, 0, false),
        decreases n - i,
    {
        let ghost s = c@.skip(i as int);
        proof {
            assert(s[0] == c@[i as int]);
            assert(s.skip(1) =~= c@.skip(i as int + 1));
        }
        let ch = c[i];
        if ws_char(ch) {
            i += 1;
        } else {
            let j = num_run_end(&c, i);
            if j == i {
                i += 1;
            } else {
                let ghost nl = num_run_len(s);
                let ghost tok = s.take(nl);
                proof {
                    assert(nl == j - i);
                    assert(tok =~= c@.subrange(i as int, j as int));
                    assert(forall|m: int|
                        i <= m < j ==> is_num_char(#[trigger] c@[m])) by {
                        assert(forall|m: int|
                            0 <= m < nl ==> is_num_char(#[trigger] tok[m])) by {
                            lemma_num_run_digits(s);
                        }
                        assert(forall|m: int| i <= m < j ==> c@[m] == tok[m - i]);
                    }
                    assert(s.skip(nl) =~= c@.skip(j as int));
                }
                let (valid, scaled) = token_scaled_exec(&c, i, j);
                if !valid {
                    i = j;
                } else {
                    let k = ws_run_end(&c, j);
                    let l = alpha_run_end(&c, k);
                    proof {
                        let rest = s.skip(nl);
                        assert(rest.skip(ws_run_len(rest)) =~= c@.skip(k as int));
                    }
                    if l == k {
                        i = k;
                    } else {
                        let ghost rest2 = c@.skip(k as int);
                        let ghost unit = rest2.take(alpha_run_len(rest2));
                        proof {
                            assert(unit =~= c@.subrange(k as int, l as int));
                            assert(rest2.skip(alpha_run_len(rest2)) =~= c@.skip(l as int));
                        }
                        match unit_factor_exec(&c, k, l) {
                            Some(f) => {
                                proof {
                                    assert(f <= 604800) by {
                                        assert(unit_factor(unit) == Some(f as int));
                                    }
                                    assert(scaled as int * (f as int) <= (spec_int_sat()
                                        * spec_scale() + spec_scale()) * 604800)
                                        by (nonlinear_arith)
                                        requires
                                            scaled as int <= spec_int_sat() * spec_scale()
                                                + spec_scale(),
                                            0 <= scaled,
                                            0 <= f <= 604800,
                                    ;
                                }
                                let add: u128 = scaled * (f as u128);
                                let cap: u128 = 20_000_000_000_000_000_000_000_000_000_000_000_000;
                                total = if total + add > cap {
                                    cap
                                } else {
                                    total + add
                                };
                                found = true;
                                i = l;
                            },
                            None => {
                                let mut msg = String::from_str("Unknown unit: ");
                                push_chars_range(&mut msg, &c, k, l);
                                proof {
                                    assert(scan_tokens(c@, 0, false) == Scan::BadUnit { unit });
                                }
                                return Err(ParseError { message: msg });
                            },
                        }
                    }
                }
            }
        }
    }
    proof {
        assert(c@.skip(n as int) =~= Seq::<char>::empty());
        assert(scan_tokens(c@, 0, false) == Scan::Done { total: total as int, found });
    }
    if !found {
        let mut msg = String::from_str("Cannot parse duration: ");
        let tlen = t.len();
        push_chars_range(&mut msg, &t, 0, tlen);
        proof {
            assert(t@.subrange(0, tlen as int) =~= t@);
        }
        return Err(ParseError { message: msg });
    }
    let rounded: u128 = (2 * total + 1_000_000_000_000) / 2_000_000_000_000;
    let res: i64 = if rounded > 0x7fffffffffffffffu128 {
        0x7fffffffffffffff
    } else {
        rounded as i64
    };
    Ok(res)
}

/// Every character of a numeric run is a digit or a point.
proof fn lemma_num_run_digits(s: Seq<char>)
    ensures
        forall|m: int| 0 <= m < num_run_len(s) ==> is_num_char(#[trigger] s.take(num_run_len(s))[m]),
    decreases s.len(),
{
    lemma_num_run_le(s);
    if s.len() > 0 && is_num_char(s[0]) {
        lemma_num_run_digits(s.skip(1));
        let nl = num_run_len(s);
        assert forall|m: int| 0 <= m < nl implies is_num_char(s.take(nl)[m]) by {
            if m == 0 {
                assert(s.take(nl)[0] == s[0]);
            } else {
                assert(s.take(nl)[m] == s.skip(1).take(num_run_len(s.skip(1)))[m - 1]);
            }
        }
    }
}

} // verus!
