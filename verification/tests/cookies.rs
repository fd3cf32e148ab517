use libreddit::cookies::Cookie;
use libreddit::headers::Headers;
use libreddit::server::{Request, RequestExt, Response, ResponseExt};

fn cookie(name: &str, value: &str) -> Cookie {
    Cookie {
        name: name.to_string(),
        value: value.to_string(),
        path: None,
        http_only: None,
        max_age: None,
        expires: None,
    }
}

fn with_cookie_header(value: &str) -> Request {
    let mut headers = Headers::new();
    headers.append("Cookie", value);
    Request {
        method: "GET".to_string(),
        pathname: "/".to_string(),
        search: String::new(),
        headers,
        params: Vec::new(),
    }
}

fn empty_response() -> Response<()> {
    Response { status: 302, status_text: "Found".to_string(), headers: Headers::new(), body: () }
}

#[test]
fn a_named_cookie_has_nothing_but_its_name() {
    assert_eq!(Cookie::named("theme".to_string()), cookie("theme", ""));
    assert_eq!(Cookie::named("theme".to_string()).to_string(), "theme=");
}

#[test]
fn a_cookie_is_written_with_its_attributes_in_order() {
    let c = Cookie {
        name: "theme".to_string(),
        value: "dark".to_string(),
        path: Some("/".to_string()),
        http_only: Some(true),
        max_age: Some(3600),
        expires: Some(1445412480),
    };
    assert_eq!(
        c.to_string(),
        "theme=dark; HttpOnly; Path=/; Max-Age=3600; Expires=Wed, 21 Oct 2015 07:28:00 GMT"
    );
}

#[test]
fn http_only_is_written_only_when_set() {
    let mut c = cookie("a", "b");
    c.http_only = Some(false);
    assert_eq!(c.to_string(), "a=b");
    c.http_only = Some(true);
    assert_eq!(c.to_string(), "a=b; HttpOnly");
}

#[test]
fn max_age_is_written_in_decimal() {
    let mut c = cookie("a", "b");
    for (age, text) in [
        (0i64, "a=b; Max-Age=0"),
        (9, "a=b; Max-Age=9"),
        (10, "a=b; Max-Age=10"),
        (31449600, "a=b; Max-Age=31449600"),
        (-5, "a=b; Max-Age=-5"),
        (-120, "a=b; Max-Age=-120"),
    ] {
        c.max_age = Some(age);
        assert_eq!(c.to_string(), text);
    }
}

#[test]
fn a_time_that_is_no_date_is_left_out() {
    let mut c = cookie("a", "b");
    c.expires = Some(253402300799);
    assert_eq!(c.to_string(), "a=b; Expires=Fri, 31 Dec 9999 23:59:59 GMT");
    c.expires = Some(253402300800);
    assert_eq!(c.to_string(), "a=b");
    c.expires = Some(i64::MAX);
    assert_eq!(c.to_string(), "a=b");
    c.expires = Some(i64::MIN);
    assert_eq!(c.to_string(), "a=b");
    c.expires = Some(-377705116801);
    assert_eq!(c.to_string(), "a=b");
    c.expires = Some(-377705116800);
    assert!(c.to_string().starts_with("a=b; Expires="));
    c.expires = Some(0);
    assert_eq!(c.to_string(), "a=b; Expires=Thu, 01 Jan 1970 00:00:00 GMT");
}

#[test]
fn a_cookie_is_parsed_with_its_attributes() {
    assert_eq!(Cookie::parse("theme=dark"), Some(cookie("theme", "dark")));
    assert_eq!(Cookie::parse(" theme = \"dark\" "), Some(cookie("theme", "dark")));
    assert_eq!(Cookie::parse("a=b=c"), Some(cookie("a", "b=c")));
    let c = Cookie {
        name: "a".to_string(),
        value: "b".to_string(),
        path: Some("/r".to_string()),
        http_only: Some(true),
        max_age: Some(60),
        expires: Some(1445412480),
    };
    assert_eq!(
        Cookie::parse("a=b; HttpOnly; Path=/r; Max-Age=60; Expires=Wed, 21 Oct 2015 07:28:00 GMT"),
        Some(c)
    );
}

#[test]
fn a_text_without_a_pair_is_no_cookie() {
    assert_eq!(Cookie::parse("theme"), None);
    assert_eq!(Cookie::parse("=dark"), None);
    assert_eq!(Cookie::parse(""), None);
}

#[test]
fn the_cookie_header_is_split_at_semicolon_and_space() {
    let req = with_cookie_header("theme=dark; layout=card; wide=on");
    assert_eq!(
        req.cookies(),
        vec![cookie("theme", "dark"), cookie("layout", "card"), cookie("wide", "on")]
    );
    assert_eq!(req.cookie("layout"), Some(cookie("layout", "card")));
    assert_eq!(req.cookie("Layout"), None);
    assert_eq!(req.cookie("absent"), None);
}

#[test]
fn a_piece_that_is_no_cookie_gets_an_empty_name() {
    let req = with_cookie_header("theme=dark; junk; ; wide=on");
    assert_eq!(
        req.cookies(),
        vec![cookie("theme", "dark"), cookie("", ""), cookie("", ""), cookie("wide", "on")]
    );
    assert_eq!(req.cookie(""), Some(cookie("", "")));
    let req = with_cookie_header("");
    assert_eq!(req.cookies(), vec![cookie("", "")]);
}

#[test]
fn the_first_cookie_of_a_name_is_found() {
    let req = with_cookie_header("a=1; b=2; a=3");
    assert_eq!(req.cookie("a"), Some(cookie("a", "1")));
}

#[test]
fn without_a_cookie_header_there_are_no_cookies() {
    let mut req = with_cookie_header("a=1");
    req.headers = Headers::new();
    assert_eq!(req.cookies(), Vec::new());
    assert_eq!(req.cookie("a"), None);
    assert_eq!(empty_response().cookies(), Vec::new());
}

#[test]
fn a_response_reads_its_cookie_header_too() {
    let mut res = empty_response();
    res.headers.append("cookie", "a=1; b=2");
    assert_eq!(res.cookies(), vec![cookie("a", "1"), cookie("b", "2")]);
}

#[test]
fn inserting_a_cookie_appends_a_set_cookie_header() {
    let mut res = empty_response();
    res.headers.append("Location", "/settings");
    let mut c = cookie("theme", "dark");
    c.path = Some("/".to_string());
    res.insert_cookie(c);
    res.insert_cookie(cookie("wide", "on"));
    assert_eq!(
        res.headers.entries,
        vec![
            ("Location".to_string(), "/settings".to_string()),
            ("Set-Cookie".to_string(), "theme=dark; Path=/".to_string()),
            ("Set-Cookie".to_string(), "wide=on".to_string()),
        ]
    );
    assert_eq!(res.status, 302);
    assert_eq!(res.status_text, "Found");
}

#[test]
fn removing_a_cookie_sets_it_to_expire_at_once() {
    let mut res = empty_response();
    res.remove_cookie("theme".to_string());
    assert_eq!(
        res.headers.entries,
        vec![("Set-Cookie".to_string(), "theme=; Path=/; Max-Age=0".to_string())]
    );
}

#[test]
fn the_largest_and_smallest_ages_are_written_in_full() {
    let mut c = cookie("a", "b");
    c.max_age = Some(i64::MAX);
    assert_eq!(c.to_string(), "a=b; Max-Age=9223372036854775807");
    c.max_age = Some(i64::MIN);
    assert_eq!(c.to_string(), "a=b; Max-Age=-9223372036854775808");
}

#[test]
fn odd_attributes_are_read_without_failure() {
    let big = Cookie::parse("a=b; Max-Age=99999999999999999999").expect("a cookie");
    assert_eq!(big.max_age, Some(i64::MAX));
    let negative = Cookie::parse("a=b; Max-Age=-").expect("a cookie");
    assert_eq!(negative.max_age, Some(0));
    let undated = Cookie::parse("a=b; Expires=never; Path=").expect("a cookie");
    assert_eq!(undated.expires, None);
    assert_eq!(undated.path, Some(String::new()));
    let text = Cookie::parse("caf\u{e9}=\u{1f600}; HttpOnly=no").expect("a cookie");
    assert_eq!(text.name, "caf\u{e9}");
    assert_eq!(text.value, "\u{1f600}");
    assert_eq!(text.http_only, Some(true));
}

#[test]
fn names_and_values_are_written_as_they_are() {
    let mut c = cookie("a b", "c; d=\"e\"");
    c.path = Some("/x; y".to_string());
    assert_eq!(c.to_string(), "a b=c; d=\"e\"; Path=/x; y");
    assert_eq!(cookie("", "").to_string(), "=");
}
