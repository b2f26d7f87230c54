use minigrep::search;
use minigrep::search_case_insensitive;
use minigrep::text::contains_substring;
use minigrep::text::split_lines;

#[test]
fn one_result() {
    let query = "duct";
    let contents = "\
Rust:
safe, fast, productive.
Pick three.";

    assert_eq!(vec!["safe, fast, productive."], search(query, contents));
}

#[test]
fn case_insensitive() {
    let query = "rUsT";
    let contents = "\
Rust:
safe, fast, productive.
Pick three.
Trust me.";

    assert_eq!(vec!["Rust:", "Trust me."], search_case_insensitive(query, contents));
}

#[test]
fn case_sensitive_query_without_verbatim_match() {
    let query = "rUsT";
    let contents = "\
Rust:
safe, fast, productive.
Pick three.
Trust me.";

    assert_eq!(Vec::<&str>::new(), search(query, contents));
}

#[test]
fn empty_query_returns_all_lines() {
    let contents = "\
Rust:
safe, fast, productive.
Pick three.";
    let all = vec!["Rust:", "safe, fast, productive.", "Pick three."];

    assert_eq!(all, search("", contents));
    assert_eq!(all, search_case_insensitive("", contents));
}

#[test]
fn empty_text_has_no_lines() {
    assert_eq!(Vec::<&str>::new(), search("", ""));
    assert_eq!(Vec::<&str>::new(), search_case_insensitive("query", ""));
}

#[test]
fn query_lowering_reaches_the_match() {
    // An upper-case query matches a lower-case line only because both sides
    // are lowered before the containment test.
    assert_eq!(vec!["safe, fast, productive."], search_case_insensitive(
        "DUCT",
        "safe, fast, productive.",
    ));
}

#[test]
fn duplicate_matching_lines_are_kept() {
    let contents = "\
echo
other
echo";

    assert_eq!(vec!["echo", "echo"], search("echo", contents));
}

#[test]
fn split_lines_drops_carriage_return_before_line_feed() {
    assert_eq!(vec!["one", "two", "three"], split_lines("one\r\ntwo\r\nthree"));
}

#[test]
fn split_lines_keeps_lone_carriage_return() {
    assert_eq!(vec!["one\rtwo"], split_lines("one\rtwo"));
}

#[test]
fn split_lines_ignores_trailing_line_feed() {
    assert_eq!(vec!["one", "two"], split_lines("one\ntwo\n"));
    assert_eq!(vec!["one", "", "two"], split_lines("one\n\ntwo"));
}

#[test]
fn contains_substring_is_exact_containment() {
    assert!(contains_substring("hello world", "o w"));
    assert!(contains_substring("hello", "hello"));
    assert!(contains_substring("hello", ""));
    assert!(!contains_substring("hello", "hello world"));
    assert!(!contains_substring("hello", "He"));
    assert!(!contains_substring("", "a"));
}
