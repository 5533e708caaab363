//! Character classes and decimal text helpers shared by the formatters and
//! the duration parser.

use vstd::prelude::*;

verus! {

use vstd::string::StringExecFns;
use vstd::string::StrSliceExecFns;

/// Whether a character beyond ASCII has the Unicode `White_Space` property.
pub uninterp spec fn whitespace_ext(c: char) -> bool;

/// Whether a character beyond ASCII has the Unicode `Alphabetic` property.
pub uninterp spec fn alphabetic_ext(c: char) -> bool;

/// Whitespace as `char::is_whitespace` sees it: the six ASCII whitespace
/// characters, and the Unicode `White_Space` property above ASCII.
pub open spec fn is_ws_char(c: char) -> bool {
    c == ' ' || c == '\t' || c == '\n' || c == '\r' || c == '\u{b}' || c == '\u{c}' || (c as u32
        >= 0x80 && whitespace_ext(c))
}

/// Alphabetic as `char::is_alphabetic` sees it: ASCII letters, and the
/// Unicode `Alphabetic` property above ASCII.
pub open spec fn is_alpha_char(c: char) -> bool {
    (0x41 <= c as u32 && c as u32 <= 0x5a) || (0x61 <= c as u32 && c as u32 <= 0x7a) || (c as u32
        >= 0x80 && alphabetic_ext(c))
}

/// ASCII decimal digit.
pub open spec fn is_digit_char(c: char) -> bool {
    0x30 <= c as u32 && c as u32 <= 0x39
}

/// Relies on char::is_whitespace: its ASCII members are exactly space, tab,
/// line feed, carriage return, vertical tab and form feed; above ASCII it is
/// the Unicode `White_Space` property, named here by `whitespace_ext`.
#[verifier::external_body]
pub(crate) fn ws_char(c: char) -> (r: bool)
    ensures
        r == is_ws_char(c),
        c as u32 >= 0x80 ==> r == whitespace_ext(c),
{
    c.is_whitespace()
}

/// Relies on char::is_alphabetic: its ASCII members are exactly the letters
/// `A`-`Z` and `a`-`z`; above ASCII it is the Unicode `Alphabetic` property,
/// named here by `alphabetic_ext`.
#[verifier::external_body]
pub(crate) fn alpha_char(c: char) -> (r: bool)
    ensures
        r == is_alpha_char(c),
        c as u32 >= 0x80 ==> r == alphabetic_ext(c),
{
    c.is_alphabetic()
}

pub fn digit_char_test(c: char) -> (r: bool)
    ensures
        r == is_digit_char(c),
{
    let u = c as u32;
    0x30 <= u && u <= 0x39
}

/// Lower-case image of an ASCII letter; other characters are unchanged.
pub open spec fn lower_char(c: char) -> char {
    match c {
        'A' => 'a',
        'B' => 'b',
        'C' => 'c',
        'D' => 'd',
        'E' => 'e',
        'F' => 'f',
        'G' => 'g',
        'H' => 'h',
        'I' => 'i',
        'J' => 'j',
        'K' => 'k',
        'L' => 'l',
        'M' => 'm',
        'N' => 'n',
        'O' => 'o',
        'P' => 'p',
        'Q' => 'q',
        'R' => 'r',
        'S' => 's',
        'T' => 't',
        'U' => 'u',
        'V' => 'v',
        'W' => 'w',
        'X' => 'x',
        'Y' => 'y',
        'Z' => 'z',
        _ => c,
    }
}

pub fn to_lower_char(c: char) -> (r: char)
    ensures
        r == lower_char(c),
{
    match c {
        'A' => 'a',
        'B' => 'b',
        'C' => 'c',
        'D' => 'd',
        'E' => 'e',
        'F' => 'f',
        'G' => 'g',
        'H' => 'h',
        'I' => 'i',
        'J' => 'j',
        'K' => 'k',
        'L' => 'l',
        'M' => 'm',
        'N' => 'n',
        'O' => 'o',
        'P' => 'p',
        'Q' => 'q',
        'R' => 'r',
        'S' => 's',
        'T' => 't',
        'U' => 'u',
        'V' => 'v',
        'W' => 'w',
        'X' => 'x',
        'Y' => 'y',
        'Z' => 'z',
        _ => c,
    }
}

/// Character for a single decimal digit value.
pub open spec fn digit_char(d: int) -> char {
    if d == 0 {
        '0'
    } else if d == 1 {
        '1'
    } else if d == 2 {
        '2'
    } else if d == 3 {
        '3'
    } else if d == 4 {
        '4'
    } else if d == 5 {
        '5'
    } else if d == 6 {
        '6'
    } else if d == 7 {
        '7'
    } else if d == 8 {
        '8'
    } else {
        '9'
    }
}

/// Decimal digit sequence of a non-negative integer, most significant first.
pub open spec fn dec_str(n: int) -> Seq<char>
    decreases n,
{
    if n < 10 {
        seq![digit_char(n)]
    } else {
        dec_str(n / 10) + seq![digit_char(n % 10)]
    }
}

/// Decimal rendering of a possibly negative integer.
pub open spec fn int_str(n: int) -> Seq<char> {
    if n < 0 {
        seq!['-'] + dec_str(-n)
    } else {
        dec_str(n)
    }
}

/// Value of a sequence of ASCII digits, most significant first.
pub open spec fn digits_value(s: Seq<char>) -> int
    decreases s.len(),
{
    if s.len() == 0 {
        0
    } else {
        digits_value(s.drop_last()) * 10 + (s.last() as u32 - 0x30)
    }
}

fn digit_to_char(d: u8) -> (c: char)
    requires
        d < 10,
    ensures
        c == digit_char(d as int),
{
    match d {
        0 => '0',
        1 => '1',
        2 => '2',
        3 => '3',
        4 => '4',
        5 => '5',
        6 => '6',
        7 => '7',
        8 => '8',
        _ => '9',
    }
}

/// Relies on String::push: appends exactly the one given character.
#[verifier::external_body]
pub(crate) fn push_char(s: &mut String, c: char)
    ensures
        final (s)@ == old(s)@ + seq![c],
{
    s.push(c)
}

/// Appends the decimal rendering of `n` to `s`.
pub fn push_decimal(s: &mut String, n: u128)
    ensures
        final (s)@ == old(s)@ + dec_str(n as int),
    decreases n,
{
    if n < 10 {
        push_char(s, digit_to_char(n as u8));
    } else {
        push_decimal(s, n / 10);
        push_char(s, digit_to_char((n % 10) as u8));
    }
}

/// Appends the decimal rendering of a signed value to `s`.
pub fn push_signed(s: &mut String, n: i64)
    ensures
        final (s)@ == old(s)@ + int_str(n as int),
{
    if n < 0 {
        s.append("-");
        let m: u128 = (-(n as i128)) as u128;
        push_decimal(s, m);
        proof {
            reveal_strlit("-");
            assert(old(s)@ + seq!['-'] + dec_str(m as int) =~= old(s)@ + int_str(n as int));
        }
    } else {
        push_decimal(s, n as u128);
    }
}

/// The characters of `s`, in order.
pub fn str_to_chars(s: &str) -> (v: Vec<char>)
    ensures
        v@ == s@,
{
    let n = s.unicode_len();
    let mut v: Vec<char> = Vec::new();
    let mut i: usize = 0;
    while i < n
        invariant
            i <= n,
            n == s@.len(),
            v@ == s@.subrange(0, i as int),
        decreases n - i,
    {
        let c = s.get_char(i);
        v.push(c);
        proof {
            assert(v@ =~= s@.subrange(0, i + 1));
        }
        i += 1;
    }
    proof {
        assert(v@ =~= s@);
    }
    v
}

/// Appends the characters `v[from..to]` to `s`.
pub fn push_chars_range(s: &mut String, v: &Vec<char>, from: usize, to: usize)
    requires
        from <= to <= v@.len(),
    ensures
        final (s)@ == old(s)@ + v@.subrange(from as int, to as int),
{
    let mut i: usize = from;
    while i < to
        invariant
            from <= i <= to <= v@.len(),
            s@ == old(s)@ + v@.subrange(from as int, i as int),
        decreases to - i,
    {
        push_char(s, v[i]);
        proof {
            assert(old(s)@ + v@.subrange(from as int, i as int) + seq![v@[i as int]] =~= old(s)@
                + v@.subrange(from as int, i + 1));
        }
        i += 1;
    }
}

/// Every character printed by `dec_str` is an ASCII digit.
pub proof fn lemma_dec_str_digits(n: int)
    requires
        n >= 0,
    ensures
        dec_str(n).len() >= 1,
        forall|i: int| 0 <= i < dec_str(n).len() ==> is_digit_char(#[trigger] dec_str(n)[i]),
    decreases n,
{
    if n >= 10 {
        lemma_dec_str_digits(n / 10);
    }
}

/// Reading the decimal rendering of `n` back as digits gives `n`.
pub proof fn lemma_dec_str_value(n: int)
    requires
        n >= 0,
    ensures
        digits_value(dec_str(n)) == n,
    decreases n,
{
    if n < 10 {
        let s = dec_str(n);
        assert(s =~= seq![digit_char(n)]);
        assert(s.len() == 1);
        assert(s.drop_last() =~= Seq::<char>::empty());
        assert(digits_value(Seq::<char>::empty()) == 0);
        assert(s.last() == digit_char(n));
        assert(digits_value(s) == digits_value(s.drop_last()) * 10 + (s.last() as u32 - 0x30));
        assert(digit_char(n) as u32 - 0x30 == n);
    } else {
        lemma_dec_str_value(n / 10);
        assert(dec_str(n).drop_last() =~= dec_str(n / 10));
        assert(dec_str(n).last() == digit_char(n % 10));
        assert(0 <= n % 10 < 10);
        assert(digit_char(n % 10) as u32 - 0x30 == n % 10);
        vstd::arithmetic::div_mod::lemma_fundamental_div_mod(n, 10);
    }
}

} // verus!
