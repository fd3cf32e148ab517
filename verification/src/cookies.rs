//! Cookies, as they are read from a `Cookie` header and written as a
//! `Set-Cookie` header. Parsing and writing are done by the `cookie` crate.

use vstd::prelude::*;
use vstd::string::*;

verus! {

/// A cookie with the attributes that this crate sets and reads.
#[derive(Debug, Clone, PartialEq, Eq)]
pub struct Cookie {
    pub name: String,
    pub value: String,
    pub path: Option<String>,
    pub http_only: Option<bool>,
    /// The `Max-Age`, in seconds.
    pub max_age: Option<i64>,
    /// The time at which the cookie expires, in seconds since the epoch.
    pub expires: Option<i64>,
}

/// A cookie as texts and numbers.
pub struct CookieView {
    pub name: Seq<char>,
    pub value: Seq<char>,
    pub path: Option<Seq<char>>,
    pub http_only: Option<bool>,
    pub max_age: Option<i64>,
    pub expires: Option<i64>,
}

impl View for Cookie {
    type V = CookieView;

    open spec fn view(&self) -> CookieView {
        CookieView {
            name: self.name@,
            value: self.value@,
            path: match self.path {
                Some(p) => Some(p@),
                None => None,
            },
            http_only: self.http_only,
            max_age: self.max_age,
            expires: self.expires,
        }
    }
}

/// The cookie `name` with an empty value and no attribute.
pub open spec fn named(name: Seq<char>) -> CookieView {
    CookieView {
        name,
        value: Seq::empty(),
        path: None,
        http_only: None,
        max_age: None,
        expires: None,
    }
}

/// The cookie that `Cookie::parse` reads from `text`, as far as the
/// attributes of [`CookieView`] go; `None` where it reports an error.
pub uninterp spec fn cookie_parsed(text: Seq<char>) -> Option<CookieView>;

/// The date `at` seconds after the epoch as `OffsetDateTime::format` writes
/// it in UTC for the `Expires` attribute, in the form
/// `Wed, 21 Oct 2015 07:28:00 GMT`.
pub uninterp spec fn http_date(at: i64) -> Seq<char>;

/// Whether `at` seconds after the epoch is a time that can be written as a
/// date: from the year -9999 to the year 9999.
pub open spec fn datable(at: i64) -> bool {
    -377705116800 <= at <= 253402300799
}

/// The digit for `d`, which is below 10.
pub open spec fn digit(d: nat) -> char {
    ((48 + d) as u8) as char
}

/// The decimal digits of `n`.
pub open spec fn digits(n: nat) -> Seq<char>
    decreases n,
{
    if n < 10 {
        seq![digit(n)]
    } else {
        digits(n / 10).push(digit(n % 10))
    }
}

/// `n` in decimal, with a minus sign where it is negative.
pub open spec fn decimal(n: int) -> Seq<char> {
    if n < 0 {
        seq!['-'] + digits((-n) as nat)
    } else {
        digits(n as nat)
    }
}

/// The value of the `Set-Cookie` header for `c`: name and value, then the
/// attributes that are set, in this order. `date` is the time of expiry
/// written as a date; a time that cannot be written as one is left out.
pub open spec fn set_cookie_text(c: CookieView, date: Seq<char>) -> Seq<char> {
    c.name + "="@ + c.value + (if c.http_only == Some(true) {
        "; HttpOnly"@
    } else {
        Seq::empty()
    }) + (match c.path {
        Some(p) => "; Path="@ + p,
        None => Seq::empty(),
    }) + (match c.max_age {
        Some(s) => "; Max-Age="@ + decimal(s as int),
        None => Seq::empty(),
    }) + (match c.expires {
        Some(at) => if datable(at) {
            "; Expires="@ + date
        } else {
            Seq::empty()
        },
        None => Seq::empty(),
    })
}

/// The time of expiry of `c` written as a date, see [`http_date`]; empty
/// where `c` does not expire.
pub open spec fn expiry_date(c: CookieView) -> Seq<char> {
    match c.expires {
        Some(at) => http_date(at),
        None => Seq::empty(),
    }
}

/// Calls `Cookie::parse` and copies name, value, `Path`, `HttpOnly`,
/// `Max-Age` (in whole seconds) and `Expires` (in seconds since the epoch)
/// out of what it returns. The contract claims only that the outcome is a
/// function of the text.
#[verifier::external_body]
fn parse_cookie(text: &str) -> (r: Option<Cookie>)
    ensures
        match r {
            Some(c) => cookie_parsed(text@) == Some(c@),
            None => cookie_parsed(text@) is None,
        },
{
    let c = cookie::Cookie::parse(text.to_string()).ok()?;
    Some(
        Cookie {
            name: c.name().to_string(),
            value: c.value().to_string(),
            path: c.path().map(|p| p.to_string()),
            http_only: c.http_only(),
            max_age: c.max_age().map(|d| d.whole_seconds()),
            expires: c.expires_datetime().map(|t| t.unix_timestamp()),
        },
    )
}

/// Builds a `cookie::Cookie` with the attributes of `c` and formats it with
/// its `Display`, which writes `name=value`, then `; HttpOnly`, `; Path=`,
/// `; Max-Age=` and `; Expires=` for the attributes that are set. A time
/// that `OffsetDateTime::from_unix_timestamp` refuses leaves the cookie
/// without `Expires`.
#[verifier::external_body]
fn cookie_line(c: &Cookie) -> (r: String)
    ensures
        r@ == set_cookie_text(
            c@,
            match c.expires {
                Some(at) => http_date(at),
                None => Seq::empty(),
            },
        ),
{
    let mut out = cookie::Cookie::new(c.name.clone(), c.value.clone());
    if let Some(path) = &c.path {
        out.set_path(path.clone());
    }
    out.set_http_only(c.http_only);
    out.set_max_age(c.max_age.map(time::Duration::seconds));
    out.set_expires(c.expires.and_then(|at| time::OffsetDateTime::from_unix_timestamp(at).ok()));
    out.to_string()
}

impl Cookie {
    /// The cookie `name` with an empty value and no attribute.
    pub fn named(name: String) -> (c: Cookie)
        ensures
            c@ == named(name@),
    {
        Cookie {
            name,
            value: String::new(),
            path: None,
            http_only: None,
            max_age: None,
            expires: None,
        }
    }

    /// Reads a cookie from `text`; see [`cookie_parsed`].
    pub fn parse(text: &str) -> (r: Option<Cookie>)
        ensures
            match r {
                Some(c) => cookie_parsed(text@) == Some(c@),
                None => cookie_parsed(text@) is None,
            },
    {
        parse_cookie(text)
    }

    /// The value of the `Set-Cookie` header for this cookie.
    pub fn to_string(&self) -> (r: String)
        ensures
            r@ == set_cookie_text(self@, expiry_date(self@)),
    {
        cookie_line(self)
    }
}

} // verus!
