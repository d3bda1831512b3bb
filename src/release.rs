//! Published versions, their publish instants and calendar dates.

use vstd::prelude::*;
use crate::version::{parse_unsigned, parse_unsigned_str};

verus! {

/// One published version as the release list gives it.
#[derive(Clone, Debug)]
pub struct Release {
    pub id: u64,
    pub tag_name: String,
    pub name: Option<String>,
    pub body: Option<String>,
    pub published_at: String,
    pub prerelease: bool,
}

impl Release {
    /// An equal copy of the record.
    pub fn duplicate(&self) -> (r: Release)
        ensures
            r == *self,
    {
        let name = match &self.name {
            Some(n) => Some(n.clone()),
            None => None,
        };
        let body = match &self.body {
            Some(b) => Some(b.clone()),
            None => None,
        };
        Release {
            id: self.id,
            tag_name: self.tag_name.clone(),
            name,
            body,
            published_at: self.published_at.clone(),
            prerelease: self.prerelease,
        }
    }
}

/// A calendar date of the proleptic Gregorian calendar.
#[derive(Clone, Copy, Debug, PartialEq, Eq, Structural)]
pub struct Date {
    pub year: i32,
    pub month: u32,
    pub day: u32,
}

impl Date {
    /// A month of 1 to 12 and a day of 1 to 31.
    pub open spec fn valid(&self) -> bool {
        1 <= self.month <= 12 && 1 <= self.day <= 31
    }

    /// A date from its year, month and day.
    pub fn from_ymd(year: i32, month: u32, day: u32) -> (r: Date)
        ensures
            r.year == year && r.month == month && r.day == day,
    {
        Date { year, month, day }
    }
}

/// A point in time in UTC: seconds since 1970-01-01T00:00:00Z, the
/// nanoseconds within that second, and the calendar date.
#[derive(Clone, Copy, Debug, PartialEq, Eq, Structural)]
pub struct Instant {
    pub seconds: i64,
    pub nanos: u32,
    pub date: Date,
}

/// `a` comes strictly after `b`.
pub open spec fn later(a: Instant, b: Instant) -> bool {
    a.seconds > b.seconds || (a.seconds == b.seconds && a.nanos > b.nanos)
}

/// What `chrono` reads from an RFC 3339 timestamp: seconds since the Unix
/// epoch, nanoseconds, and the UTC year, month and day; `None` where the text
/// is no RFC 3339 timestamp.
pub uninterp spec fn rfc3339_utc(s: Seq<char>) -> Option<(int, int, int, int, int)>;

/// The instant that `rfc3339_utc` gives for `s`.
pub open spec fn instant_of(s: Seq<char>, t: Instant) -> bool {
    rfc3339_utc(s) == Some(
        (t.seconds as int, t.nanos as int, t.date.year as int, t.date.month as int, t.date.day as int),
    )
}

/// Relies on chrono's `DateTime::parse_from_rfc3339`, and on `timestamp`,
/// `timestamp_subsec_nanos` and the UTC date of the value it returns.
#[verifier::external_body]
fn parse_rfc3339(s: &str) -> (r: Option<Instant>)
    ensures
        r is None <==> rfc3339_utc(s@) is None,
        r matches Some(t) ==> instant_of(s@, t) && t.date.valid(),
{
    match chrono::DateTime::parse_from_rfc3339(s) {
        Ok(dt) => {
            let d = dt.naive_utc().date();
            Some(Instant {
                seconds: dt.timestamp(),
                nanos: dt.timestamp_subsec_nanos(),
                date: Date {
                    year: chrono::Datelike::year(&d),
                    month: chrono::Datelike::month(&d),
                    day: chrono::Datelike::day(&d),
                },
            })
        },
        Err(_) => None,
    }
}

/// Why aggregation failed.
#[derive(Clone, Debug)]
pub enum AggregateError {
    /// A tag of a range is not among the releases.
    TagNotFound(String),
    /// Tags of an explicit list that are not among the releases, all of them.
    MultipleTagsNotFound(Vec<String>),
    /// A publish timestamp that is no RFC 3339 timestamp.
    DateParseFailure(String),
}

/// Reads the publish instant of a timestamp.
pub fn publish_instant(s: &str) -> (r: Result<Instant, AggregateError>)
    ensures
        r matches Ok(t) ==> instant_of(s@, t) && t.date.valid(),
        r matches Err(e) ==> (e matches AggregateError::DateParseFailure(m) && m@ == s@),
        r is Err <==> rfc3339_utc(s@) is None,
{
    match parse_rfc3339(s) {
        Some(t) => Ok(t),
        None => Err(AggregateError::DateParseFailure(s.to_owned())),
    }
}

/// The character of a decimal digit.
pub open spec fn digit_char(d: int) -> char {
    ((d + 48) as u32) as char
}

/// The decimal digits of a natural number, without leading zeros.
pub open spec fn decimal_text(v: nat) -> Seq<char>
    decreases v,
{
    if v < 10 {
        seq![digit_char(v as int)]
    } else {
        decimal_text(v / 10).push(digit_char((v % 10) as int))
    }
}

/// `n` zeros.
pub open spec fn zeros(n: int) -> Seq<char> {
    Seq::new(if n > 0 { n as nat } else { 0 }, |i: int| '0')
}

/// The decimal digits of `v`, zero-padded to `w` characters.
pub open spec fn padded(v: nat, w: int) -> Seq<char> {
    zeros(w - decimal_text(v).len()) + decimal_text(v)
}

/// The year as `%Y` writes it: four digits from 0 to 9999, with a sign outside.
pub open spec fn year_text(y: int) -> Seq<char> {
    if 0 <= y <= 9999 {
        padded(y as nat, 4)
    } else if y > 9999 {
        seq!['+'] + decimal_text(y as nat)
    } else {
        seq!['-'] + padded((-y) as nat, 4)
    }
}

/// The date as `YYYY-MM-DD`.
pub open spec fn iso_date(d: Date) -> Seq<char> {
    year_text(d.year as int) + seq!['-'] + padded(d.month as nat, 2) + seq!['-'] + padded(
        d.day as nat,
        2,
    )
}

fn digit_str(d: u64) -> (r: &'static str)
    requires
        d < 10,
    ensures
        r@ == seq![digit_char(d as int)],
{
    proof {
        reveal_strlit("0");
        reveal_strlit("1");
        reveal_strlit("2");
        reveal_strlit("3");
        reveal_strlit("4");
        reveal_strlit("5");
        reveal_strlit("6");
        reveal_strlit("7");
        reveal_strlit("8");
        reveal_strlit("9");
    }
    let r = if d == 0 {
        "0"
    } else if d == 1 {
        "1"
    } else if d == 2 {
        "2"
    } else if d == 3 {
        "3"
    } else if d == 4 {
        "4"
    } else if d == 5 {
        "5"
    } else if d == 6 {
        "6"
    } else if d == 7 {
        "7"
    } else if d == 8 {
        "8"
    } else {
        "9"
    };
    assert(r@ =~= seq![digit_char(d as int)]);
    r
}

fn decimal_string(v: u64) -> (r: String)
    ensures
        r@ == decimal_text(v as nat),
    decreases v,
{
    if v < 10 {
        let mut s = String::new();
        s.append(digit_str(v));
        assert(s@ =~= decimal_text(v as nat));
        s
    } else {
        let mut s = decimal_string(v / 10);
        s.append(digit_str(v % 10));
        assert(s@ =~= decimal_text(v as nat));
        s
    }
}

fn padded_string(v: u64, w: usize) -> (r: String)
    ensures
        r@ == padded(v as nat, w as int),
{
    let digits = decimal_string(v);
    let len = digits.as_str().unicode_len();
    let mut s = String::new();
    let mut k: usize = len;
    assert(s@ =~= zeros(0));
    while k < w
        invariant
            len == decimal_text(v as nat).len(),
            len <= k,
            k <= w || len > w,
            len > w ==> k == len,
            s@ == zeros(k - len),
        decreases w - k,
    {
        proof {
            reveal_strlit("0");
            assert("0"@ =~= seq!['0']);
        }
        s.append("0");
        k += 1;
        assert(s@ =~= zeros(k - len));
    }
    assert(zeros(k - len) =~= zeros(w - len));
    s.append(digits.as_str());
    assert(s@ =~= padded(v as nat, w as int));
    s
}

impl Date {
    /// The date as `YYYY-MM-DD` (the year as `%Y` writes it).
    pub fn iso_text(&self) -> (r: String)
        ensures
            r@ == iso_date(*self),
    {
        proof {
            reveal_strlit("-");
            reveal_strlit("+");
        }
        let y = self.year;
        let mut s = if 0 <= y && y <= 9999 {
            padded_string(y as u64, 4)
        } else if y > 9999 {
            let mut t = String::from_str("+");
            t.append(decimal_string(y as u64).as_str());
            t
        } else {
            let mut t = String::from_str("-");
            let a: i64 = -(y as i64);
            t.append(padded_string(a as u64, 4).as_str());
            t
        };
        assert(s@ == year_text(y as int));
        s.append("-");
        s.append(padded_string(self.month as u64, 2).as_str());
        s.append("-");
        s.append(padded_string(self.day as u64, 2).as_str());
        assert(s@ =~= iso_date(*self));
        s
    }
}

/// The publish date of an RFC 3339 timestamp as `YYYY-MM-DD`.
pub fn format_date(date_str: &str) -> (r: Result<String, AggregateError>)
    ensures
        r is Err <==> rfc3339_utc(date_str@) is None,
        r matches Ok(s) ==> exists|t: Instant| instant_of(date_str@, t) && s@ == iso_date(t.date),
{
    match publish_instant(date_str) {
        Ok(t) => Ok(t.date.iso_text()),
        Err(e) => Err(e),
    }
}

/// The rate limit that the release service reports.
#[derive(Clone, Copy, Debug, PartialEq, Eq, Structural)]
pub struct RateLimit {
    pub limit: u32,
    pub remaining: u32,
    pub reset: u64,
}

/// An error body of the release service.
#[derive(Clone, Debug)]
pub struct GitHubError {
    pub message: String,
    pub documentation_url: Option<String>,
}

/// Reads the rate limit from the texts of its three headers; `None` unless
/// all three are present and are numbers of their type.
pub fn parse_rate_limit(limit: Option<&str>, remaining: Option<&str>, reset: Option<&str>) -> (r:
    Option<RateLimit>)
    ensures
        r is Some <==> (limit matches Some(l) && parse_unsigned(l@, u32::MAX as int) is Some)
            && (remaining matches Some(m) && parse_unsigned(m@, u32::MAX as int) is Some) && (
        reset matches Some(t) && parse_unsigned(t@, u64::MAX as int) is Some),
        r matches Some(v) ==> Some(v.limit as int) == parse_unsigned(limit->0@, u32::MAX as int)
            && Some(v.remaining as int) == parse_unsigned(remaining->0@, u32::MAX as int) && Some(
            v.reset as int,
        ) == parse_unsigned(reset->0@, u64::MAX as int),
{
    let l = match limit {
        Some(s) => parse_unsigned_str(s, 0xFFFF_FFFF),
        None => None,
    };
    let m = match remaining {
        Some(s) => parse_unsigned_str(s, 0xFFFF_FFFF),
        None => None,
    };
    let t = match reset {
        Some(s) => parse_unsigned_str(s, 0xFFFF_FFFF_FFFF_FFFF),
        None => None,
    };
    match (l, m, t) {
        (Some(l), Some(m), Some(t)) => Some(RateLimit { limit: l as u32, remaining: m as u32, reset: t }),
        _ => None,
    }
}

} // verus!
