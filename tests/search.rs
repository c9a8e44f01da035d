use minigrep::config::{find_matches, Config};
use minigrep::search::{search, search_insensitive};
use minigrep::text::{line_contains, lines};

#[test]
fn case_sensitive() {
    let query = "duct";
    let contents = "\
Rust:
safe, fast, productive.
Pick three.
Duct tape.";

    assert_eq!(vec!["safe, fast, productive."], search(query, contents));
}

#[test]
fn case_insensitive() {
    let query = "rUsT";
    let contents = "\
Rust:
safe, fast, productive.
Pick three.";

    assert_eq!(vec!["Rust:"], search_insensitive(query, contents));
}

#[test]
fn multiple_matches_keep_order() {
    assert_eq!(vec!["alpha", "beta", "gamma"], search("a", "alpha\nbeta\ngamma\n"));
    assert_eq!(vec!["alpha", "gamma al"], search("al", "alpha\nbeta\ngamma al\n"));
}

#[test]
fn absent_query_gives_nothing() {
    let contents = "Rust:\nsafe, fast, productive.\nPick three.";
    assert!(search("zzz", contents).is_empty());
    assert!(search_insensitive("zzz", contents).is_empty());
}

#[test]
fn empty_contents_give_nothing() {
    assert!(search("a", "").is_empty());
    assert!(search_insensitive("a", "").is_empty());
    assert!(search("", "").is_empty());
}

#[test]
fn empty_query_gives_every_line() {
    assert_eq!(vec!["one", "", "three"], search("", "one\n\nthree\n"));
}

#[test]
fn lines_drop_terminators() {
    assert_eq!(vec!["a", "b", "", "c"], lines("a\r\nb\n\nc"));
    assert_eq!(vec!["x\r"], lines("x\r"));
    assert_eq!(vec!["\r", "y"], lines("\r\r\ny"));
    assert!(lines("").is_empty());
    assert_eq!(vec![""], lines("\n"));
}

#[test]
fn crlf_lines_match_without_carriage_return() {
    assert_eq!(vec!["tape"], search("tape", "tape\r\nglue\r\n"));
}

#[test]
fn insensitive_keeps_original_case() {
    assert_eq!(
        vec!["Duct tape.", "productive DUCT"],
        search_insensitive("dUCT", "Duct tape.\nnothing\nproductive DUCT")
    );
}

#[test]
fn sensitive_ignores_other_case() {
    assert!(search("rust", "Rust:\nRUST").is_empty());
}

#[test]
fn insensitive_handles_non_ascii() {
    assert_eq!(vec!["ÄRGER"], search_insensitive("äR", "ÄRGER\nOrt"));
}

#[test]
fn sensitive_matches_are_insensitive_matches() {
    let contents = "alpha\nBeta\nbeta\ngamma";
    assert_eq!(vec!["beta"], search("beta", contents));
    assert_eq!(vec!["Beta", "beta"], search_insensitive("beta", contents));
}

#[test]
fn search_repeats_exactly() {
    let contents = "one\ntwo\nthree";
    assert_eq!(search("o", contents), search("o", contents));
    assert_eq!(search_insensitive("O", contents), search_insensitive("O", contents));
}

#[test]
fn line_contains_is_literal() {
    assert!(line_contains("safe, fast", "fast"));
    assert!(line_contains("abc", ""));
    assert!(!line_contains("ab", "abc"));
    assert!(!line_contains("a.c", "abc"));
    assert!(line_contains("aab", "ab"));
}

fn args(v: &[&str]) -> Vec<String> {
    v.iter().map(|s| s.to_string()).collect()
}

#[test]
fn config_takes_three_arguments() {
    let c = Config::new(args(&["minigrep", "duct", "poem.txt", "false"])).unwrap();
    assert_eq!(c.query, "duct");
    assert_eq!(c.file_name, "poem.txt");
    assert!(!c.case_sensitive);
    let c = Config::new(args(&["minigrep", "q", "f", "true"])).unwrap();
    assert!(c.case_sensitive);
}

#[test]
fn config_rejects_short_argument_list() {
    assert_eq!(
        Config::new(args(&["minigrep", "duct", "poem.txt"])).err(),
        Some("Not enough arguments")
    );
    assert_eq!(Config::new(args(&[])).err(), Some("Not enough arguments"));
}

#[test]
fn config_rejects_bad_boolean() {
    assert_eq!(
        Config::new(args(&["minigrep", "duct", "poem.txt", "yes"])).err(),
        Some("Failed to parse bool")
    );
    assert_eq!(
        Config::new(args(&["minigrep", "duct", "poem.txt", "True"])).err(),
        Some("Failed to parse bool")
    );
}

#[test]
fn find_matches_follows_the_flag() {
    let contents = "Rust:\nsafe, fast, productive.\nPick three.";
    let sensitive = Config::new(args(&["minigrep", "rUsT", "f", "true"])).unwrap();
    let insensitive = Config::new(args(&["minigrep", "rUsT", "f", "false"])).unwrap();
    assert!(find_matches(&sensitive, contents).is_empty());
    assert_eq!(vec!["Rust:"], find_matches(&insensitive, contents));
}
