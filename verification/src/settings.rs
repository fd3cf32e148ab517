//! The preferences that are kept in cookies: how a submitted form, or the
//! query of a link, becomes `Set-Cookie` headers.

use vstd::prelude::*;
use vstd::string::*;
use crate::cookies::{http_date, set_cookie_text, Cookie, CookieView};
use crate::headers::{fields_of, Field};
use crate::server::{param_of, removal, Response, ResponseExt};
use crate::text::{from_chars, replace_all, replaced, str_eq, to_chars};

verus! {

/// The names of the preferences.
pub open spec fn preferences() -> Seq<Seq<char>> {
    seq![
        "theme"@,
        "front_page"@,
        "layout"@,
        "wide"@,
        "comment_sort"@,
        "post_sort"@,
        "show_nsfw"@,
        "blur_nsfw"@,
        "use_hls"@,
        "hide_hls_notification"@,
        "autoplay_videos"@,
        "hide_awards"@,
        "disable_visit_reddit_confirmation"@,
    ]
}

/// The names of everything that a link can restore or update: the
/// preferences, then the subscriptions and the filters.
pub open spec fn restorable() -> Seq<Seq<char>> {
    preferences().push("subscriptions"@).push("filters"@)
}

/// The texts of a vector of string slices.
pub open spec fn names_of(names: Seq<&'static str>) -> Seq<Seq<char>> {
    names.map_values(|s: &'static str| s@)
}

fn preference_names() -> (names: Vec<&'static str>)
    ensures
        names_of(names@) == preferences(),
{
    let names = vec![
        "theme",
        "front_page",
        "layout",
        "wide",
        "comment_sort",
        "post_sort",
        "show_nsfw",
        "blur_nsfw",
        "use_hls",
        "hide_hls_notification",
        "autoplay_videos",
        "hide_awards",
        "disable_visit_reddit_confirmation",
    ];
    proof {
        assert(names_of(names@) =~= preferences());
    }
    names
}

fn restorable_names() -> (names: Vec<&'static str>)
    ensures
        names_of(names@) == restorable(),
{
    let mut names = preference_names();
    names.push("subscriptions");
    names.push("filters");
    proof {
        assert(names_of(names@) =~= restorable());
    }
    names
}

/// The number of seconds for which a preference is kept: 52 weeks.
pub const KEPT_FOR: i64 = 31449600;

/// The time until which a preference set at `now` is kept; it stops at the
/// largest time there is.
pub open spec fn kept_until(now: i64) -> i64 {
    if now + KEPT_FOR <= i64::MAX {
        (now + KEPT_FOR) as i64
    } else {
        i64::MAX
    }
}

/// The cookie that keeps the preference `name` at `value` until `expires`:
/// for every path, and out of the reach of scripts.
pub open spec fn preference(name: Seq<char>, value: Seq<char>, expires: i64) -> CookieView {
    CookieView {
        name,
        value,
        path: Some("/"@),
        http_only: Some(true),
        max_age: None,
        expires: Some(expires),
    }
}

/// The value of the last field named exactly `name`.
pub open spec fn last_of(form: Seq<Field>, name: Seq<char>) -> Option<Seq<char>>
    decreases form.len(),
{
    if form.len() == 0 {
        None
    } else if form.last().0 == name {
        Some(form.last().1)
    } else {
        last_of(form.drop_last(), name)
    }
}

/// The value that `form` gives for `name`: that of the last field of the
/// name if `last`, else that of the first.
pub open spec fn chosen(form: Seq<Field>, name: Seq<char>, last: bool) -> Option<Seq<char>> {
    if last {
        last_of(form, name)
    } else {
        param_of(form, name)
    }
}

/// `headers` after the preferences `names` were taken from `form`, one
/// after the other: a name that `form` gives a value gets a `Set-Cookie`
/// that keeps it until `expires`; a name that it gives none gets one that
/// removes it if `remove`, else nothing.
pub open spec fn saved(
    headers: Seq<Field>,
    names: Seq<Seq<char>>,
    form: Seq<Field>,
    expires: i64,
    remove: bool,
    last: bool,
) -> Seq<Field>
    decreases names.len(),
{
    if names.len() == 0 {
        headers
    } else {
        let earlier = saved(headers, names.drop_last(), form, expires, remove, last);
        let name = names.last();
        match chosen(form, name, last) {
            Some(value) => earlier.push(
                (
                    "Set-Cookie"@,
                    set_cookie_text(preference(name, value, expires), http_date(expires)),
                ),
            ),
            None => if remove {
                earlier.push(("Set-Cookie"@, set_cookie_text(removal(name), Seq::empty())))
            } else {
                earlier
            },
        }
    }
}

fn choose_value(form: &Vec<(String, String)>, name: &str, last: bool) -> (r: Option<String>)
    ensures
        match r {
            Some(v) => chosen(fields_of(form@), name@, last) == Some(v@),
            None => chosen(fields_of(form@), name@, last) is None,
        },
{
    let ghost all = fields_of(form@);
    if last {
        let mut i: usize = form.len();
        proof {
            assert(all.take(i as int) == all);
        }
        while i > 0
            invariant
                last,
                i <= form.len(),
                all == fields_of(form@),
                last_of(all, name@) == last_of(all.take(i as int), name@),
            decreases i,
        {
            proof {
                assert(all.take(i as int).last() == all[i - 1]);
                assert(all.take(i as int).drop_last() == all.take(i - 1));
            }
            if str_eq(form[i - 1].0.as_str(), name) {
                return Some(form[i - 1].1.clone());
            }
            i -= 1;
        }
        None
    } else {
        let mut i: usize = 0;
        proof {
            assert(all.skip(0) == all);
        }
        while i < form.len()
            invariant
                !last,
                i <= form.len(),
                all == fields_of(form@),
                param_of(all, name@) == param_of(all.skip(i as int), name@),
            decreases form.len() - i,
        {
            proof {
                assert(all.skip(i as int)[0] == all[i as int]);
                assert(all.skip(i as int).skip(1) == all.skip(i + 1));
            }
            if str_eq(form[i].0.as_str(), name) {
                return Some(form[i].1.clone());
            }
            i += 1;
        }
        None
    }
}

fn save<B>(
    response: &mut Response<B>,
    names: &Vec<&'static str>,
    form: &Vec<(String, String)>,
    expires: i64,
    remove: bool,
    last: bool,
)
    ensures
        final(response).headers@ == saved(
            old(response).headers@,
            names_of(names@),
            fields_of(form@),
            expires,
            remove,
            last,
        ),
        final(response).status == old(response).status,
        final(response).status_text == old(response).status_text,
        final(response).body == old(response).body,
{
    let ghost all = names_of(names@);
    let mut i: usize = 0;
    proof {
        assert(all.take(0) == Seq::<Seq<char>>::empty());
    }
    while i < names.len()
        invariant
            i <= names.len(),
            all == names_of(names@),
            response.headers@ == saved(
                old(response).headers@,
                all.take(i as int),
                fields_of(form@),
                expires,
                remove,
                last,
            ),
            response.status == old(response).status,
            response.status_text == old(response).status_text,
            response.body == old(response).body,
        decreases names.len() - i,
    {
        let name: &'static str = names[i];
        proof {
            assert(all[i as int] == name@);
            assert(all.take(i + 1).drop_last() == all.take(i as int));
            assert(all.take(i + 1).last() == all[i as int]);
        }
        match choose_value(form, name, last) {
            Some(value) => {
                response.insert_cookie(
                    Cookie {
                        name: String::from_str(name),
                        value,
                        path: Some(String::from_str("/")),
                        http_only: Some(true),
                        max_age: None,
                        expires: Some(expires),
                    },
                );
            },
            None => {
                if remove {
                    response.remove_cookie(String::from_str(name));
                }
            },
        }
        i += 1;
    }
    proof {
        assert(all.take(all.len() as int) == all);
    }
}

fn keep_until(now: i64) -> (until: i64)
    ensures
        until == kept_until(now),
{
    match now.checked_add(KEPT_FOR) {
        Some(until) => until,
        None => i64::MAX,
    }
}

/// Saves the preferences of a submitted form on `response`, the answer that
/// sends the client back to the settings.
///
/// Each preference takes the last value that `form` gives it and is kept
/// for 52 weeks from `now`, the time in seconds since the epoch. A
/// preference that the form does not give is removed.
pub fn set<B>(response: Response<B>, form: &Vec<(String, String)>, now: i64) -> (out: Response<B>)
    ensures
        out.headers@ == saved(
            response.headers@,
            preferences(),
            fields_of(form@),
            kept_until(now),
            true,
            true,
        ),
        out.status == response.status,
        out.status_text == response.status_text,
        out.body == response.body,
{
    let mut out = response;
    let names = preference_names();
    save(&mut out, &names, form, keep_until(now), true, true);
    out
}

/// Where a link that restores or updates preferences leads back to: the
/// root, followed by what the query gives as `redirect`, in which `%26` and
/// `%23` stand for `&` and `#`.
pub open spec fn way_back(query: Seq<Field>) -> Seq<char> {
    match param_of(query, "redirect"@) {
        Some(value) => seq!['/'] + replaced(replaced(value, "%26"@, "&"@), "%23"@, "#"@),
        None => seq!['/'],
    }
}

/// See [`way_back`].
pub fn redirect_path(query: &Vec<(String, String)>) -> (path: String)
    ensures
        path@ == way_back(fields_of(query@)),
{
    let mut path = String::new();
    path.push('/');
    match choose_value(query, "redirect", false) {
        Some(value) => {
            let chars = to_chars(value.as_str());
            let first = replace_all(&chars, &to_chars("%26"), &to_chars("&"));
            let second = replace_all(&first, &to_chars("%23"), &to_chars("#"));
            path.append(from_chars(&second).as_str());
            proof {
                assert(path@ =~= seq!['/'] + second@);
            }
        },
        None => {
            proof {
                assert(path@ =~= seq!['/']);
            }
        },
    }
    path
}

/// Saves on `response`, the answer that sends the client on to
/// [`redirect_path`], what the query of a link gives for the preferences,
/// the subscriptions and the filters.
///
/// Each name takes the first value that `query` gives it and is kept for 52
/// weeks from `now`. A name that the query does not give is removed if
/// `remove_cookies`, and left alone otherwise.
pub fn set_cookies_method<B>(
    response: Response<B>,
    query: &Vec<(String, String)>,
    remove_cookies: bool,
    now: i64,
) -> (out: Response<B>)
    ensures
        out.headers@ == saved(
            response.headers@,
            restorable(),
            fields_of(query@),
            kept_until(now),
            remove_cookies,
            false,
        ),
        out.status == response.status,
        out.status_text == response.status_text,
        out.body == response.body,
{
    let mut out = response;
    let names = restorable_names();
    save(&mut out, &names, query, keep_until(now), remove_cookies, false);
    out
}

/// Replaces the client's preferences by those of the link: what the query
/// does not give is removed. See [`set_cookies_method`].
pub fn restore<B>(response: Response<B>, query: &Vec<(String, String)>, now: i64) -> (out:
    Response<B>)
    ensures
        out.headers@ == saved(
            response.headers@,
            restorable(),
            fields_of(query@),
            kept_until(now),
            true,
            false,
        ),
        out.status == response.status,
        out.status_text == response.status_text,
        out.body == response.body,
{
    set_cookies_method(response, query, true, now)
}

/// Adds the preferences of the link to the client's: what the query does
/// not give stays as it is. See [`set_cookies_method`].
pub fn update<B>(response: Response<B>, query: &Vec<(String, String)>, now: i64) -> (out:
    Response<B>)
    ensures
        out.headers@ == saved(
            response.headers@,
            restorable(),
            fields_of(query@),
            kept_until(now),
            false,
            false,
        ),
        out.status == response.status,
        out.status_text == response.status_text,
        out.body == response.body,
{
    set_cookies_method(response, query, false, now)
}

} // verus!
