use linetools::dedup::dedup;
use linetools::text::{is_space_char, lex_compare, trim_eq, trim_len};

fn lines(v: &[&str]) -> Vec<String> {
    v.iter().map(|s| s.to_string()).collect()
}

#[test]
fn dedup_with_counts() {
    let input = lines(&["x", "x", "y", "y", "y", "z"]);
    let rows = dedup(&input, true);
    assert_eq!(rows, lines(&["   2 x", "   3 y", "   1 z"]));
}

#[test]
fn dedup_without_counts() {
    let input = lines(&["x", "x", "y"]);
    let rows = dedup(&input, false);
    assert_eq!(rows, lines(&["x", "y"]));
}

#[test]
fn dedup_empty_input() {
    let rows = dedup(&lines(&[]), true);
    assert_eq!(rows, Vec::<String>::new());
}

#[test]
fn dedup_keeps_line_endings_of_first_member() {
    // trailing whitespace is ignored for comparison but the first member is
    // written back byte for byte
    let input = lines(&["a \n", "a\n", "b\n"]);
    assert_eq!(dedup(&input, false), lines(&["a \n", "b\n"]));
    assert_eq!(dedup(&input, true), lines(&["   2 a \n", "   1 b\n"]));
}

#[test]
fn dedup_counts_widen_past_four_digits() {
    let mut input: Vec<String> = Vec::new();
    for _ in 0..12345 {
        input.push("w".to_string());
    }
    assert_eq!(dedup(&input, true), lines(&["12345 w"]));
}

#[test]
fn dedup_is_idempotent_on_plain_output() {
    let input = lines(&["q", "q", "r", "q", "s", "s"]);
    let once = dedup(&input, false);
    assert_eq!(once, lines(&["q", "r", "q", "s"]));
    let twice = dedup(&once, false);
    assert_eq!(twice, once);
}

#[test]
fn trim_helpers_agree_with_trailing_whitespace() {
    assert!(trim_eq("a \t", "a"));
    assert!(!trim_eq("a b", "ab"));
    assert_eq!(trim_len("ab  \n"), 2);
    assert_eq!(trim_len(""), 0);
    assert!(is_space_char('\u{3000}'));
    assert!(!is_space_char('x'));
}

#[test]
fn lex_compare_orders_by_code_point() {
    assert_eq!(lex_compare("a", "b"), -1);
    assert_eq!(lex_compare("b", "a"), 1);
    assert_eq!(lex_compare("abc", "abc"), 0);
    assert_eq!(lex_compare("ab", "abc"), -1);
    assert_eq!(lex_compare("", "a"), -1);
    assert_eq!(lex_compare("B", "a"), -1);
}

#[test]
fn dedup_whitespace_only_lines_form_one_run() {
    // a whitespace-only line trims to the empty key, like an empty line
    let input = lines(&[" \n", "\n", "x\n"]);
    assert_eq!(dedup(&input, false), lines(&[" \n", "x\n"]));
    assert_eq!(dedup(&input, true), lines(&["   2  \n", "   1 x\n"]));
}
