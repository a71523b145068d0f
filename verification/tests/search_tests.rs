use mygrep::render_line;
use mygrep::render_matches;
use mygrep::search;
use mygrep::search_case_insensitive;
use mygrep::str_contains;
use mygrep::str_eq;
use mygrep::Config;

#[test]
fn case_sensitive() {
    let query = "duct";
    let contents = "\
Rust:
safe, fast, productive.
Pick three.
Duct tape.";

    assert_eq!(vec!["safe, fast, productive."], search(query, contents));
}

#[test]
fn case_insensitive() {
    let query = "rUsT";
    let contents = "\
Rust:
safe, fast, productive.
Pick three.
Trust me.";

    assert_eq!(
        vec!["Rust:", "Trust me."],
        search_case_insensitive(query, contents)
    );
}

#[test]
fn every_result_contains_the_query() {
    let contents = "first stop\nsecond\nlast stop\nstopwatch";
    let results = search("stop", contents);
    assert_eq!(results, vec!["first stop", "last stop", "stopwatch"]);
    for line in &results {
        assert!(line.contains("stop"));
    }
    for line in contents.lines() {
        if line.contains("stop") {
            assert!(results.contains(&line));
        } else {
            assert!(!results.contains(&line));
        }
    }
}

#[test]
fn insensitive_results_are_a_superset() {
    let query = "Rust";
    let contents = "Rust:\nrust is here\nnothing\nTrust me.\nRustacean";
    let sensitive = search(query, contents);
    let insensitive = search_case_insensitive(query, contents);
    assert_eq!(sensitive, vec!["Rust:", "Rustacean"]);
    assert_eq!(insensitive, vec!["Rust:", "rust is here", "Trust me.", "Rustacean"]);
    let mut positions = Vec::new();
    for line in &sensitive {
        positions.push(insensitive.iter().position(|l| l == line).unwrap());
    }
    for w in positions.windows(2) {
        assert!(w[0] < w[1]);
    }
}

#[test]
fn order_is_preserved() {
    let contents = "b one\na two\nb three\na four\nb five";
    assert_eq!(search("b", contents), vec!["b one", "b three", "b five"]);
    assert_eq!(
        search_case_insensitive("A", contents),
        vec!["a two", "a four"]
    );
}

#[test]
fn filter_is_idempotent() {
    let query = "three";
    let contents = "Pick three.\nor two\nthree more";
    assert_eq!(search(query, contents), search(query, contents));
    assert_eq!(
        search_case_insensitive(query, contents),
        search_case_insensitive(query, contents)
    );
}

#[test]
fn empty_query_matches_every_line() {
    let contents = "one\ntwo\n\nthree";
    assert_eq!(search("", contents), vec!["one", "two", "", "three"]);
}

#[test]
fn empty_contents_match_nothing() {
    assert_eq!(search("x", ""), Vec::<&str>::new());
    assert_eq!(search_case_insensitive("x", ""), Vec::<&str>::new());
}

#[test]
fn trailing_newline_leaves_no_empty_line() {
    assert_eq!(search("", "one\ntwo\n"), vec!["one", "two"]);
}

#[test]
fn carriage_returns_are_stripped_before_newlines() {
    let contents = "stop here\r\nand stop\r\nnot this one\rstop";
    assert_eq!(search("stop", contents), vec!["stop here", "and stop", "not this one\rstop"]);
}

#[test]
fn str_contains_finds_literal_substrings() {
    assert!(str_contains("safe, fast, productive.", "duct"));
    assert!(!str_contains("Duct tape.", "duct"));
    assert!(str_contains("abc", ""));
    assert!(str_contains("", ""));
    assert!(!str_contains("ab", "abc"));
    assert!(str_contains("aab", "ab"));
}

#[test]
fn str_eq_compares_characters() {
    assert!(str_eq("-s", "-s"));
    assert!(!str_eq("-s", "-S"));
    assert!(!str_eq("-s", "-ss"));
    assert!(str_eq("", ""));
}

#[test]
fn words_keep_their_highlight_verdicts() {
    let rendered = render_line("the duct tape aqueduct", "duct", true);
    let words: Vec<&str> = rendered.iter().map(|w| w.text.as_str()).collect();
    let flags: Vec<bool> = rendered.iter().map(|w| w.is_match).collect();
    assert_eq!(words, vec!["the", "duct", "tape", "aqueduct"]);
    assert_eq!(flags, vec![false, true, false, true]);
}

#[test]
fn insensitive_highlighting_sees_through_case() {
    let rendered = render_line("Duct tape works", "duct", false);
    let flags: Vec<bool> = rendered.iter().map(|w| w.is_match).collect();
    assert_eq!(flags, vec![true, false, false]);

    let sensitive = render_line("Duct tape works", "duct", true);
    let flags: Vec<bool> = sensitive.iter().map(|w| w.is_match).collect();
    assert_eq!(flags, vec![false, false, false]);
}

#[test]
fn consecutive_spaces_give_empty_words() {
    let rendered = render_line("a  b", "a", true);
    let words: Vec<&str> = rendered.iter().map(|w| w.text.as_str()).collect();
    assert_eq!(words, vec!["a", "", "b"]);
}

#[test]
fn render_matches_renders_each_matched_line() {
    let config = Config {
        query: String::from("duct"),
        fname: String::from("poem.txt"),
        case_sensitive: false,
    };
    let contents = "Rust:\nsafe, fast, productive.\nPick three.\nDuct tape.";
    let rendered = render_matches(&config, contents);
    assert_eq!(rendered.len(), 2);
    let first: Vec<&str> = rendered[0].iter().map(|w| w.text.as_str()).collect();
    assert_eq!(first, vec!["safe,", "fast,", "productive."]);
    assert_eq!(
        rendered[0].iter().map(|w| w.is_match).collect::<Vec<bool>>(),
        vec![false, false, true]
    );
    let second: Vec<&str> = rendered[1].iter().map(|w| w.text.as_str()).collect();
    assert_eq!(second, vec!["Duct", "tape."]);
    assert_eq!(
        rendered[1].iter().map(|w| w.is_match).collect::<Vec<bool>>(),
        vec![true, false]
    );
}
