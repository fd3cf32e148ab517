use libreddit::path::normalize;

#[test]
fn doubled_and_trailing_separators_go() {
    assert_eq!(normalize("/r//aww/"), "/r/aww");
    assert_eq!(normalize("/r/aww"), "/r/aww");
}

#[test]
fn the_empty_path_is_the_root() {
    assert_eq!(normalize(""), "/");
}

#[test]
fn the_root_stays() {
    assert_eq!(normalize("/"), "/");
    assert_eq!(normalize("//"), "/");
    assert_eq!(normalize("///"), "/");
}

#[test]
fn escaped_separators_are_decoded() {
    assert_eq!(normalize("/r%2Faww"), "/r/aww");
    assert_eq!(normalize("%2F"), "/");
    assert_eq!(normalize("/r/%2Faww"), "/r/aww");
    assert_eq!(normalize("/a%2F%2Fb%2F"), "/a/b");
}

#[test]
fn only_the_upper_case_escape_counts() {
    assert_eq!(normalize("/r%2faww"), "/r%2faww");
    assert_eq!(normalize("/a%2"), "/a%2");
    assert_eq!(normalize("/a%2%2FF"), "/a%2/F");
}

#[test]
fn long_runs_collapse_to_one() {
    assert_eq!(normalize("////a"), "/a");
    assert_eq!(normalize("/a////b//"), "/a/b");
}

#[test]
fn other_characters_pass() {
    assert_eq!(normalize("/r/caf\u{e9}/top"), "/r/caf\u{e9}/top");
    assert_eq!(normalize("no/leading"), "no/leading");
}

#[test]
fn normalizing_twice_is_normalizing_once() {
    for p in ["", "/", "//", "/r//aww/", "/a%2F%2Fb/", "%2F%2F", "/a%2%2FF", "x//y%2Fz//"] {
        let once = normalize(p);
        assert_eq!(normalize(&once), once, "for {:?}", p);
    }
}
