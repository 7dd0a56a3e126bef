//! The request being signed, its resource path, its date stamps and its
//! credential scope.

use vstd::prelude::*;
use crate::encode::hex_digit;
use crate::headers::printable;
use hyper::header::HeaderMap;
use crate::query::{names_distinct, opt_view, query_view};

verus! {

pub open spec fn is_leap_year(y: int) -> bool {
    (y % 4 == 0 && y % 100 != 0) || y % 400 == 0
}

pub open spec fn days_in_month(y: int, m: int) -> int {
    if m == 2 {
        if is_leap_year(y) {
            29
        } else {
            28
        }
    } else if m == 4 || m == 6 || m == 9 || m == 11 {
        30
    } else {
        31
    }
}

/// An instant in UTC to the second, as a civil date and a time of day.
pub struct Timestamp {
    pub year: u16,
    pub month: u8,
    pub day: u8,
    pub hour: u8,
    pub minute: u8,
    pub second: u8,
}

impl Timestamp {
    /// A date of the proleptic Gregorian calendar with a four-digit year, and a
    /// time of day (second 60 being a leap second).
    pub open spec fn wf(&self) -> bool {
        &&& 1000 <= self.year <= 9999
        &&& 1 <= self.month <= 12
        &&& 1 <= self.day <= days_in_month(self.year as int, self.month as int)
        &&& self.hour < 24
        &&& self.minute < 60
        &&& self.second <= 60
    }

    /// Tests [`Timestamp::wf`].
    pub fn is_valid(&self) -> (r: bool)
        ensures
            r == self.wf(),
    {
        Timestamp::new(self.year, self.month, self.day, self.hour, self.minute, self.second).is_some()
    }

    /// The timestamp with these fields, if they make a valid one.
    pub fn new(year: u16, month: u8, day: u8, hour: u8, minute: u8, second: u8) -> (r: Option<
        Timestamp,
    >)
        ensures
            match r {
                Some(t) => t.wf() && t.year == year && t.month == month && t.day == day && t.hour
                    == hour && t.minute == minute && t.second == second,
                None => !(Timestamp { year, month, day, hour, minute, second }).wf(),
            },
    {
        if year < 1000 || year > 9999 || month < 1 || month > 12 || hour >= 24 || minute >= 60 || second > 60 {
            return None;
        }
        let leap = (year % 4 == 0 && year % 100 != 0) || year % 400 == 0;
        let days: u8 = if month == 2 {
            if leap {
                29
            } else {
                28
            }
        } else if month == 4 || month == 6 || month == 9 || month == 11 {
            30
        } else {
            31
        };
        if day < 1 || day > days {
            return None;
        }
        Some(Timestamp { year, month, day, hour, minute, second })
    }
}

/// `n` in decimal, zero-padded (or cut) to its last `width` digits.
pub open spec fn decimal(n: nat, width: nat) -> Seq<char>
    decreases width,
{
    if width == 0 {
        Seq::empty()
    } else {
        decimal(n / 10, (width - 1) as nat) + seq![hex_digit((n % 10) as u8)]
    }
}

/// `YYYYMMDD`.
pub open spec fn date_stamp(t: Timestamp) -> Seq<char> {
    decimal(t.year as nat, 4) + decimal(t.month as nat, 2) + decimal(t.day as nat, 2)
}

/// `YYYYMMDDTHHMMSSZ`.
pub open spec fn amz_date(t: Timestamp) -> Seq<char> {
    date_stamp(t) + seq!['T'] + decimal(t.hour as nat, 2) + decimal(t.minute as nat, 2) + decimal(
        t.second as nat,
        2,
    ) + seq!['Z']
}

proof fn lemma_decimal_digits(n: nat, width: nat)
    ensures
        forall|i: int|
            0 <= i < decimal(n, width).len() ==> '0' <= #[trigger] decimal(n, width)[i] && decimal(n, width)[i] <= '9',
        decimal(n, width).len() == width,
    decreases width,
{
    if width > 0 {
        lemma_decimal_digits(n / 10, (width - 1) as nat);
    }
}

/// The `x-amz-date` value is printable ASCII: digits, `T` and `Z`.
pub proof fn lemma_amz_date_printable(t: Timestamp)
    ensures
        printable(amz_date(t)),
{
    lemma_decimal_digits(t.year as nat, 4);
    lemma_decimal_digits(t.month as nat, 2);
    lemma_decimal_digits(t.day as nat, 2);
    lemma_decimal_digits(t.hour as nat, 2);
    lemma_decimal_digits(t.minute as nat, 2);
    lemma_decimal_digits(t.second as nat, 2);
}

/// `{YYYYMMDD}/{region}/s3/aws4_request`.
pub open spec fn scope_of(t: Timestamp, region: Seq<char>) -> Seq<char> {
    date_stamp(t) + seq!['/'] + region + "/s3/aws4_request"@
}

/// Relies on time's `Tm::strftime`, on a `Tm` with these fields: `%Y` writes
/// `tm_year + 1900` in decimal, `%m` writes `tm_mon + 1`, `%d`, `%H`, `%M` and
/// `%S` write `tm_mday`, `tm_hour`, `tm_min` and `tm_sec`, each in two digits,
/// and every other character stands as it is. Only a month from 0 to 11 is
/// accepted.
#[verifier::external_body]
fn strftime(
    tm_year: i32,
    tm_mon: i32,
    tm_mday: i32,
    tm_hour: i32,
    tm_min: i32,
    tm_sec: i32,
    format: &str,
) -> (r: String)
    requires
        1000 <= tm_year + 1900 <= 9999,
        0 <= tm_mon <= 11,
        0 <= tm_mday <= 99,
        0 <= tm_hour <= 99,
        0 <= tm_min <= 99,
        0 <= tm_sec <= 99,
        format@ == "%Y%m%d"@ || format@ == "%Y%m%dT%H%M%SZ"@,
    ensures
        format@ == "%Y%m%d"@ ==> r@ == decimal((tm_year + 1900) as nat, 4) + decimal(
            (tm_mon + 1) as nat,
            2,
        ) + decimal(tm_mday as nat, 2),
        format@ == "%Y%m%dT%H%M%SZ"@ ==> r@ == decimal((tm_year + 1900) as nat, 4) + decimal(
            (tm_mon + 1) as nat,
            2,
        ) + decimal(tm_mday as nat, 2) + seq!['T'] + decimal(tm_hour as nat, 2) + decimal(
            tm_min as nat,
            2,
        ) + decimal(tm_sec as nat, 2) + seq!['Z'],
{
    let tm = time::Tm {
        tm_sec,
        tm_min,
        tm_hour,
        tm_mday,
        tm_mon,
        tm_year,
        tm_wday: 0,
        tm_yday: 0,
        tm_isdst: 0,
        tm_utcoff: 0,
        tm_nsec: 0,
    };
    tm.strftime(format).unwrap().to_string()
}

/// Formats the timestamp with one of the two stamps that signing uses.
fn format_stamp(t: &Timestamp, format: &str) -> (r: String)
    requires
        t.wf(),
        format@ == "%Y%m%d"@ || format@ == "%Y%m%dT%H%M%SZ"@,
    ensures
        format@ == "%Y%m%d"@ ==> r@ == date_stamp(*t),
        format@ == "%Y%m%dT%H%M%SZ"@ ==> r@ == amz_date(*t),
{
    strftime(
        t.year as i32 - 1900,
        t.month as i32 - 1,
        t.day as i32,
        t.hour as i32,
        t.minute as i32,
        t.second as i32,
        format,
    )
}

/// The timestamp as `YYYYMMDDTHHMMSSZ`, the value of the `x-amz-date` header.
pub fn aws_format_time(t: &Timestamp) -> (r: String)
    requires
        t.wf(),
    ensures
        r@ == amz_date(*t),
{
    format_stamp(t, "%Y%m%dT%H%M%SZ")
}

/// The credential scope `{YYYYMMDD}/{region}/s3/aws4_request` of a timestamp
/// and a region.
pub fn mk_scope(t: &Timestamp, region: &str) -> (r: String)
    requires
        t.wf(),
    ensures
        r@ == scope_of(*t, region@),
{
    let mut out = format_stamp(t, "%Y%m%d");
    out.append("/");
    out.append(region);
    out.append("/s3/aws4_request");
    proof {
        reveal_strlit("/");
    }
    assert(out@ =~= scope_of(*t, region@));
    out
}

/// A character allowed in an HTTP token, such as a method name.
pub open spec fn tchar(c: char) -> bool {
    ||| ('A' <= c && c <= 'Z')
    ||| ('a' <= c && c <= 'z')
    ||| ('0' <= c && c <= '9')
    ||| c == '!' || c == '#' || c == '$' || c == '%' || c == '&' || c == '\'' || c == '*'
    ||| c == '+' || c == '-' || c == '.' || c == '^' || c == '_' || c == '`' || c == '|' || c == '~'
}

/// A non-empty HTTP token.
pub open spec fn is_token(s: Seq<char>) -> bool {
    s.len() > 0 && forall|i: int| 0 <= i < s.len() ==> tchar(#[trigger] s[i])
}

/// Tests [`is_token`].
pub fn token_ok(s: &str) -> (r: bool)
    ensures
        r == is_token(s@),
{
    let n = s.unicode_len();
    if n == 0 {
        return false;
    }
    let mut i: usize = 0;
    while i < n
        invariant
            n == s@.len(),
            i <= n,
            forall|j: int| 0 <= j < i ==> tchar(#[trigger] s@[j]),
        decreases n - i,
    {
        let c = s.get_char(i);
        let ok = ('A' <= c && c <= 'Z') || ('a' <= c && c <= 'z') || ('0' <= c && c <= '9') || c
            == '!' || c == '#' || c == '$' || c == '%' || c == '&' || c == '\'' || c == '*' || c
            == '+' || c == '-' || c == '.' || c == '^' || c == '_' || c == '`' || c == '|' || c
            == '~';
        if !ok {
            return false;
        }
        i = i + 1;
    }
    true
}

/// A request to sign.
pub struct S3Req {
    /// The HTTP method, as sent: a token such as `GET`.
    pub method: String,
    pub bucket: Option<String>,
    /// Meaningful only with a bucket.
    pub object: Option<String>,
    /// Query parameters, each name once; `None` for a bare flag.
    pub query: Vec<(String, Option<String>)>,
    pub headers: HeaderMap,
    pub ts: Timestamp,
}

impl S3Req {
    /// The parts that the signing pipeline relies on are well formed.
    pub open spec fn wf(&self) -> bool {
        &&& is_token(self.method@)
        &&& self.ts.wf()
        &&& names_distinct(query_view(self.query@))
    }
}

/// The unencoded resource path: empty without a bucket, the bucket alone, or
/// `{bucket}/{object}`.
pub open spec fn path_of(bucket: Option<Seq<char>>, object: Option<Seq<char>>) -> Seq<char> {
    match bucket {
        None => Seq::empty(),
        Some(b) => match object {
            None => b,
            Some(o) => b + seq!['/'] + o,
        },
    }
}

/// The request's resource path, before encoding.
pub fn mk_path(r: &S3Req) -> (p: String)
    ensures
        p@ == path_of(opt_view(r.bucket), opt_view(r.object)),
{
    let mut res = String::new();
    if let Some(b) = &r.bucket {
        res.append(b.as_str());
        if let Some(o) = &r.object {
            res.append("/");
            res.append(o.as_str());
            proof {
                reveal_strlit("/");
            }
        }
    }
    assert(res@ =~= path_of(opt_view(r.bucket), opt_view(r.object)));
    res
}

} // verus!
