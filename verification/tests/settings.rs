use libreddit::headers::Headers;
use libreddit::server::Response;
use libreddit::settings::{redirect_path, restore, set_cookies_method, update, KEPT_FOR};

fn field(name: &str, value: &str) -> (String, String) {
    (name.to_string(), value.to_string())
}

fn redirect() -> Response<u8> {
    let mut headers = Headers::new();
    headers.append("Location", "/settings");
    Response { status: 302, status_text: String::new(), headers, body: 1 }
}

fn set_cookies(res: &Response<u8>) -> Vec<String> {
    res.headers
        .entries
        .iter()
        .filter(|(name, _)| name == "Set-Cookie")
        .map(|(_, value)| value.clone())
        .collect()
}

const NAMES: [&str; 13] = [
    "theme",
    "front_page",
    "layout",
    "wide",
    "comment_sort",
    "post_sort",
    "show_nsfw",
    "blur_nsfw",
    "use_hls",
    "hide_hls_notification",
    "autoplay_videos",
    "hide_awards",
    "disable_visit_reddit_confirmation",
];

#[test]
fn preferences_are_kept_for_52_weeks() {
    assert_eq!(KEPT_FOR, 52 * 7 * 24 * 60 * 60);
}

#[test]
fn a_form_sets_what_it_gives_and_removes_the_rest() {
    let form = vec![field("theme", "light"), field("wide", "on"), field("theme", "dark")];
    let out = libreddit::settings::set(redirect(), &form, 1445412480 - KEPT_FOR);
    assert_eq!(out.status, 302);
    assert_eq!(out.body, 1);
    assert_eq!(out.headers.get("Location"), Some("/settings".to_string()));
    let lines = set_cookies(&out);
    assert_eq!(lines.len(), 13);
    for (i, name) in NAMES.iter().enumerate() {
        let expected = match *name {
            "theme" => {
                "theme=dark; HttpOnly; Path=/; Expires=Wed, 21 Oct 2015 07:28:00 GMT".to_string()
            }
            "wide" => {
                "wide=on; HttpOnly; Path=/; Expires=Wed, 21 Oct 2015 07:28:00 GMT".to_string()
            }
            other => format!("{}=; Path=/; Max-Age=0", other),
        };
        assert_eq!(lines[i], expected);
    }
}

#[test]
fn a_form_ignores_what_is_no_preference() {
    let form = vec![field("subscriptions", "rust"), field("Theme", "dark")];
    let out = libreddit::settings::set(redirect(), &form, 0);
    let lines = set_cookies(&out);
    assert_eq!(lines.len(), 13);
    assert!(lines.iter().all(|l| l.ends_with("=; Path=/; Max-Age=0")));
}

#[test]
fn restoring_removes_what_the_link_does_not_give() {
    let query = vec![field("subscriptions", "rust+aww"), field("layout", "card")];
    let out = restore(redirect(), &query, 0);
    let lines = set_cookies(&out);
    assert_eq!(lines.len(), 15);
    assert_eq!(lines[0], "theme=; Path=/; Max-Age=0");
    assert_eq!(lines[2], "layout=card; HttpOnly; Path=/; Expires=Thu, 31 Dec 1970 00:00:00 GMT");
    assert_eq!(
        lines[13],
        "subscriptions=rust+aww; HttpOnly; Path=/; Expires=Thu, 31 Dec 1970 00:00:00 GMT"
    );
    assert_eq!(lines[14], "filters=; Path=/; Max-Age=0");
}

#[test]
fn updating_leaves_alone_what_the_link_does_not_give() {
    let query = vec![field("filters", "a"), field("layout", "card"), field("layout", "clean")];
    let out = update(redirect(), &query, 0);
    assert_eq!(
        set_cookies(&out),
        vec![
            "layout=card; HttpOnly; Path=/; Expires=Thu, 31 Dec 1970 00:00:00 GMT".to_string(),
            "filters=a; HttpOnly; Path=/; Expires=Thu, 31 Dec 1970 00:00:00 GMT".to_string(),
        ]
    );
    assert_eq!(update(redirect(), &Vec::new(), 0), redirect());
}

#[test]
fn restore_and_update_are_the_two_ways_of_one_method() {
    let query = vec![field("theme", "dark")];
    assert_eq!(
        set_cookies_method(redirect(), &query, true, 5),
        restore(redirect(), &query, 5)
    );
    assert_eq!(
        set_cookies_method(redirect(), &query, false, 5),
        update(redirect(), &query, 5)
    );
}

#[test]
fn a_time_too_late_for_a_date_gives_a_cookie_without_expiry() {
    let query = vec![field("theme", "dark")];
    for now in [i64::MAX, i64::MAX - KEPT_FOR + 1, 253402300800 - KEPT_FOR] {
        let out = update(redirect(), &query, now);
        assert_eq!(set_cookies(&out), vec!["theme=dark; HttpOnly; Path=/".to_string()]);
    }
    let out = update(redirect(), &query, 253402300799 - KEPT_FOR);
    assert_eq!(
        set_cookies(&out),
        vec!["theme=dark; HttpOnly; Path=/; Expires=Fri, 31 Dec 9999 23:59:59 GMT".to_string()]
    );
}

#[test]
fn the_way_back_is_the_root_or_what_the_link_names() {
    assert_eq!(redirect_path(&Vec::new()), "/");
    assert_eq!(redirect_path(&vec![field("theme", "dark")]), "/");
    assert_eq!(redirect_path(&vec![field("redirect", "r/aww")]), "/r/aww");
    assert_eq!(
        redirect_path(&vec![field("redirect", "search?q=a%26b%23c%26"), field("redirect", "x")]),
        "/search?q=a&b#c&"
    );
    assert_eq!(redirect_path(&vec![field("redirect", "%2526")]), "/%2526");
    assert_eq!(redirect_path(&vec![field("redirect", "%2%263")]), "/%2&3");
}
