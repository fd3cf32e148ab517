use libreddit::pages::{follow_short_link, resource, style, visit, Visit};

fn field(name: &str, value: &str) -> (String, String) {
    (name.to_string(), value.to_string())
}

#[test]
fn a_resource_carries_its_type() {
    let res = resource(vec![1u8, 2, 3], "image/png", false);
    assert_eq!(res.status, 200);
    assert_eq!(res.status_text, "");
    assert_eq!(res.body, vec![1u8, 2, 3]);
    assert_eq!(res.headers.entries, vec![field("content-type", "image/png")]);
}

#[test]
fn a_resource_that_may_be_kept_says_for_how_long() {
    let res = resource("body", "font/woff2", true);
    assert_eq!(
        res.headers.entries,
        vec![
            field("content-type", "font/woff2"),
            field("Cache-Control", "public, max-age=1209600, s-maxage=86400"),
        ]
    );
}

#[test]
fn themes_follow_the_style_sheet_line_by_line() {
    let themes = vec![".dark {}".to_string(), String::new(), ".light {}".to_string()];
    let res = style("body {}", &themes);
    assert_eq!(res.body, "body {}\n.dark {}\n\n.light {}");
    assert_eq!(res.headers.get("Content-Type"), Some("text/css".to_string()));
    assert!(res.headers.has("cache-control"));
    assert_eq!(style("body {}", &Vec::new()).body, "body {}");
}

#[test]
fn the_names_of_the_orders_lead_to_the_front_page() {
    for id in ["best", "hot", "new", "top", "rising", "controversial"] {
        assert_eq!(visit(Some(id)), Visit::FrontPage);
    }
}

#[test]
fn five_to_seven_bytes_make_a_short_link() {
    assert_eq!(visit(Some("abc12")), Visit::ShortLink("/abc12".to_string()));
    assert_eq!(visit(Some("abc123")), Visit::ShortLink("/abc123".to_string()));
    assert_eq!(visit(Some("abc1234")), Visit::ShortLink("/abc1234".to_string()));
    assert_eq!(visit(Some("risin")), Visit::ShortLink("/risin".to_string()));
    assert_eq!(visit(Some("caf\u{e9}")), Visit::ShortLink("/caf\u{e9}".to_string()));
}

#[test]
fn anything_else_is_nothing() {
    assert_eq!(visit(None), Visit::Nothing);
    assert_eq!(visit(Some("")), Visit::Nothing);
    assert_eq!(visit(Some("abcd")), Visit::Nothing);
    assert_eq!(visit(Some("abcd1234")), Visit::Nothing);
    assert_eq!(visit(Some("Best")), Visit::Nothing);
    assert_eq!(visit(Some("\u{e9}\u{e9}\u{e9}\u{e9}")), Visit::Nothing);
}

#[test]
fn a_short_link_leads_to_its_canonical_path() {
    assert_eq!(
        follow_short_link(Ok(Some("/r/aww/comments/xyz".to_string()))),
        Ok("/r/aww/comments/xyz".to_string())
    );
}

#[test]
fn a_short_link_without_a_canonical_path_is_dead() {
    assert_eq!(
        follow_short_link(Ok(None)),
        Err(
            "Post ID is invalid. It may point to a post on a community that has been banned."
                .to_string()
        )
    );
}

#[test]
fn a_failure_to_resolve_a_short_link_is_handed_on() {
    assert_eq!(
        follow_short_link(Err("Too many requests.".to_string())),
        Err("Too many requests.".to_string())
    );
}
