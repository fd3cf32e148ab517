use libreddit::text::{
    chars_eq, eq_ignore_case, fold_char, from_chars, matches_at, replace_all, split_text, str_eq,
    to_chars,
};

fn chars(s: &str) -> Vec<char> {
    s.chars().collect()
}

fn replaced(s: &str, from: &str, to: &str) -> String {
    replace_all(&chars(s), &chars(from), &chars(to)).into_iter().collect()
}

#[test]
fn characters_go_there_and_back() {
    assert_eq!(to_chars("a\u{e9}\u{1f600}"), vec!['a', '\u{e9}', '\u{1f600}']);
    assert_eq!(from_chars(&vec!['a', '\u{e9}', '\u{1f600}']), "a\u{e9}\u{1f600}");
    assert_eq!(to_chars(""), Vec::<char>::new());
    assert_eq!(from_chars(&Vec::new()), "");
}

#[test]
fn equality_is_exact() {
    assert!(str_eq("abc", "abc"));
    assert!(!str_eq("abc", "abC"));
    assert!(!str_eq("abc", "ab"));
    assert!(str_eq("", ""));
    assert!(chars_eq(&chars("xy"), &chars("xy")));
    assert!(!chars_eq(&chars("xy"), &chars("yx")));
}

#[test]
fn only_ascii_upper_case_is_folded() {
    assert_eq!(fold_char('A'), 'a');
    assert_eq!(fold_char('Z'), 'z');
    assert_eq!(fold_char('a'), 'a');
    assert_eq!(fold_char('@'), '@');
    assert_eq!(fold_char('['), '[');
    assert_eq!(fold_char('-'), '-');
    assert_eq!(fold_char('\u{c9}'), '\u{c9}');
    assert!(eq_ignore_case(&chars("Cache-Control"), &chars("cache-CONTROL")));
    assert!(!eq_ignore_case(&chars("Cache-Control"), &chars("Cache_Control")));
    assert!(!eq_ignore_case(&chars("a"), &chars("ab")));
}

#[test]
fn a_pattern_is_found_where_it_stands() {
    let s = chars("abcabc");
    assert!(matches_at(&s, &chars("abc"), 0));
    assert!(matches_at(&s, &chars("abc"), 3));
    assert!(!matches_at(&s, &chars("abc"), 1));
    assert!(!matches_at(&s, &chars("abc"), 4));
    assert!(!matches_at(&s, &chars("abc"), 7));
    assert!(!matches_at(&s, &chars("abc"), usize::MAX));
    assert!(matches_at(&s, &chars(""), 6));
    assert!(!matches_at(&s, &chars(""), 7));
}

#[test]
fn occurrences_are_replaced_from_the_left() {
    assert_eq!(replaced("a//b//c", "//", "/"), "a/b/c");
    assert_eq!(replaced("aaa", "aa", "b"), "ba");
    assert_eq!(replaced("///", "//", "/"), "//");
    assert_eq!(replaced("abc", "x", "y"), "abc");
    assert_eq!(replaced("abc", "abc", ""), "");
    assert_eq!(replaced("", "a", "b"), "");
    assert_eq!(replaced("{id}{id}", "{id}", "{id}!"), "{id}!{id}!");
}

#[test]
fn an_empty_pattern_replaces_nothing() {
    assert_eq!(replaced("abc", "", "x"), "abc");
}

#[test]
fn a_text_is_split_at_each_separator() {
    assert_eq!(split_text("a; b; c", "; "), vec!["a", "b", "c"]);
    assert_eq!(split_text("a;b", "; "), vec!["a;b"]);
    assert_eq!(split_text("; a; ", "; "), vec!["", "a", ""]);
    assert_eq!(split_text("", "; "), vec![""]);
    assert_eq!(split_text("a;; b", "; "), vec!["a;", "b"]);
    assert_eq!(split_text("aaa", "aa"), vec!["", "a"]);
    assert_eq!(split_text("abc", ""), vec!["abc"]);
}
