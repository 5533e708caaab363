//! Timestamp normalization: one canonical instant out of either a whole
//! second count or a structured UTC date-time, plus the one accepted
//! textual profile (RFC 3339).

use vstd::prelude::*;

verus! {

use vstd::string::StringExecFns;
use crate::calendar::{
    valid_civil_date,
    days_from_civil,
    days_from_civil_exec,
    civil_of_day,
    civil_from_days,
    year_in_range,
};
use crate::dates::day_of_ts;
use crate::error::ParseError;
use crate::text::{push_char, str_to_chars};

/// A structured UTC date-time with second precision.
#[derive(Debug, Clone, Copy, PartialEq, Eq, Structural)]
pub struct CivilDateTime {
    pub year: i64,
    pub month: u8,
    pub day: u8,
    pub hour: u8,
    pub minute: u8,
    pub second: u8,
}

impl CivilDateTime {
    /// The instant as whole seconds since the epoch.
    pub open spec fn spec_seconds(self) -> int {
        days_from_civil(self.year as int, self.month as int, self.day as int) * 86400
            + self.hour as int * 3600 + self.minute as int * 60 + self.second as int
    }

    /// Well-formed: a valid calendar date in the supported year range, a
    /// valid time of day, and an instant within the 64-bit second range.
    pub open spec fn wf(self) -> bool {
        &&& valid_civil_date(self.year as int, self.month as int, self.day as int)
        &&& year_in_range(self.year as int)
        &&& self.hour < 24
        &&& self.minute < 60
        &&& self.second < 60
        &&& i64::MIN <= self.spec_seconds() <= i64::MAX
    }
}

/// A timestamp: either raw seconds since the epoch, or a structured UTC
/// date-time.
#[derive(Debug, Clone, Copy, PartialEq, Eq, Structural)]
pub enum Timestamp {
    Unix(i64),
    Civil(CivilDateTime),
}

impl Timestamp {
    pub open spec fn wf(self) -> bool {
        match self {
            Timestamp::Unix(_) => true,
            Timestamp::Civil(c) => c.wf(),
        }
    }

    /// The canonical instant a timestamp denotes, in whole seconds.
    pub open spec fn spec_unix_seconds(self) -> int {
        match self {
            Timestamp::Unix(s) => s as int,
            Timestamp::Civil(c) => c.spec_seconds(),
        }
    }

    /// Converts to seconds since the epoch.
    pub fn to_unix_seconds(&self) -> (r: i64)
        requires
            self.wf(),
        ensures
            r as int == self.spec_unix_seconds(),
    {
        match self {
            Timestamp::Unix(s) => *s,
            Timestamp::Civil(c) => {
                let days = days_from_civil_exec(c.year, c.month, c.day);
                let total: i128 = days * 86400 + (c.hour as i128) * 3600 + (c.minute as i128) * 60
                    + (c.second as i128);
                total as i64
            },
        }
    }

    /// Converts to a structured UTC date-time denoting the same instant.
    pub fn to_datetime(&self) -> (r: CivilDateTime)
        requires
            self.wf(),
        ensures
            r.wf(),
            r.spec_seconds() == self.spec_unix_seconds(),
            self matches Timestamp::Civil(c) ==> r == c,
            self matches Timestamp::Unix(s) ==> (r.year as int, r.month as int, r.day as int)
                == civil_of_day(day_of_ts(s as int)),
    {
        match self {
            Timestamp::Civil(c) => *c,
            Timestamp::Unix(s) => {
                let day = crate::dates::day_number(*s);
                let (y, m, d) = civil_from_days(day);
                proof {
                    vstd::arithmetic::div_mod::lemma_fundamental_div_mod(*s as int, 86400);
                    vstd::arithmetic::div_mod::lemma_mod_bound(*s as int, 86400);
                }
                let sod: i64 = (*s as i128 - (day as i128) * 86400) as i64;
                let hour: u8 = (sod / 3600) as u8;
                let minute: u8 = ((sod % 3600) / 60) as u8;
                let second: u8 = (sod % 60) as u8;
                let r = CivilDateTime { year: y, month: m, day: d, hour, minute, second };
                proof {
                    let si = *s as int;
                    let sod_i = si - day_of_ts(si) * 86400;
                    assert(0 <= sod_i < 86400);
                    assert(sod as int == sod_i);
                    assert(r.spec_seconds() == day_of_ts(si) * 86400 + sod_i);
                }
                r
            },
        }
    }
}

/// The input with every 'Z' replaced by an explicit zero offset.
pub open spec fn zify(s: Seq<char>) -> Seq<char>
    decreases s.len(),
{
    if s.len() == 0 {
        s
    } else if s[0] == 'Z' {
        seq!['+', '0', '0', ':', '0', '0'] + zify(s.skip(1))
    } else {
        seq![s[0]] + zify(s.skip(1))
    }
}

/// The instant named by an RFC 3339 date-time text, or nothing when the
/// text does not follow that profile; the outcome depends on the text
/// alone.
pub uninterp spec fn rfc3339_seconds(s: Seq<char>) -> Option<i64>;

/// Relies on chrono's DateTime::parse_from_rfc3339, which accepts exactly
/// the RFC 3339 date-time profile, and DateTime::timestamp, which returns
/// the instant's whole seconds since the epoch; both depend on the text
/// alone, and `rfc3339_seconds` names their combined outcome.
#[verifier::external_body]
fn parse_rfc3339(s: &str) -> (r: Option<i64>)
    ensures
        r == rfc3339_seconds(s@),
{
    match chrono::DateTime::parse_from_rfc3339(s) {
        Ok(dt) => Some(dt.timestamp()),
        Err(_) => None,
    }
}

/// Parses an RFC 3339 date-time text (a literal "Z" suffix is accepted
/// for UTC) into a timestamp; any other shape fails with a message
/// carrying the offending text.
pub fn parse_iso8601(s: &str) -> (r: Result<Timestamp, ParseError>)
    ensures
        match rfc3339_seconds(zify(s@)) {
            Some(sec) => r matches Ok(t) && t.wf() && t.spec_unix_seconds() == sec as int,
            None => r matches Err(e) && e.message@ == "Invalid timestamp format: "@ + zify(s@),
        },
{
    let chars = str_to_chars(s);
    let n = chars.len();
    let mut z = String::new();
    let mut i: usize = 0;
    proof {
        assert(chars@.skip(0) =~= chars@);
    }
    while i < n
        invariant
            i <= n,
            n == chars@.len(),
            chars@ == s@,
            zify(s@) == z@ + zify(chars@.skip(i as int)),
        decreases n - i,
    {
        let ghost suf = chars@.skip(i as int);
        proof {
            assert(suf[0] == chars@[i as int]);
            assert(suf.skip(1) =~= chars@.skip(i as int + 1));
        }
        let c = chars[i];
        if c == 'Z' {
            z.append("+00:00");
            proof {
                reveal_strlit("+00:00");
                assert("+00:00"@ =~= seq!['+', '0', '0', ':', '0', '0']);
                assert(z@ + zify(chars@.skip(i as int + 1)) =~= zify(s@));
            }
        } else {
            push_char(&mut z, c);
            proof {
                assert(z@ + zify(chars@.skip(i as int + 1)) =~= zify(s@));
            }
        }
        i += 1;
    }
    proof {
        assert(chars@.skip(n as int) =~= Seq::<char>::empty());
        assert(z@ =~= zify(s@));
    }
    match parse_rfc3339(z.as_str()) {
        Some(sec) => {
            let t = Timestamp::Unix(sec);
            let c = t.to_datetime();
            Ok(Timestamp::Civil(c))
        },
        None => {
            let mut msg = String::from_str("Invalid timestamp format: ");
            msg.append(z.as_str());
            Err(ParseError { message: msg })
        },
    }
}

} // verus!
