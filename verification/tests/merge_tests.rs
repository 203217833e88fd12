use linetools::merge::{merge, MergeConfig};

fn lines(v: &[&str]) -> Vec<String> {
    v.iter().map(|s| s.to_string()).collect()
}

fn config(show1: bool, show2: bool, show3: bool, insensitive: bool, delim: &str) -> MergeConfig {
    MergeConfig {
        show_col1: show1,
        show_col2: show2,
        show_col3: show3,
        insensitive,
        delimiter: delim.to_string(),
    }
}

#[test]
fn merge_all_columns_shown() {
    let a = lines(&["a", "b", "c"]);
    let b = lines(&["b", "c", "d"]);
    let rows = merge(&a, &b, &config(true, true, true, false, "\t"));
    assert_eq!(rows, lines(&["a", "\t\tb", "\t\tc", "\td"]));
}

#[test]
fn merge_first_column_suppressed() {
    let a = lines(&["a", "b", "c"]);
    let b = lines(&["b", "c", "d"]);
    let rows = merge(&a, &b, &config(false, true, true, false, "\t"));
    assert_eq!(rows, lines(&["\tb", "\tc", "d"]));
}

#[test]
fn merge_all_columns_suppressed() {
    let a = lines(&["a", "b", "c"]);
    let b = lines(&["b", "c", "d"]);
    let rows = merge(&a, &b, &config(false, false, false, false, "\t"));
    assert_eq!(rows, Vec::<String>::new());
}

#[test]
fn merge_both_inputs_empty() {
    let rows = merge(&lines(&[]), &lines(&[]), &config(true, true, true, false, "\t"));
    assert_eq!(rows, Vec::<String>::new());
}

#[test]
fn merge_one_input_empty() {
    let a = lines(&["x", "y"]);
    let rows = merge(&a, &lines(&[]), &config(true, true, true, false, "\t"));
    assert_eq!(rows, lines(&["x", "y"]));
    let rows = merge(&lines(&[]), &a, &config(true, true, true, false, "\t"));
    assert_eq!(rows, lines(&["\tx", "\ty"]));
}

#[test]
fn merge_case_insensitive_pairs_lines() {
    let a = lines(&["ABC"]);
    let b = lines(&["abc"]);
    // case folding makes the keys equal; the emitted text is input one's line
    let rows = merge(&a, &b, &config(true, true, true, true, "\t"));
    assert_eq!(rows, lines(&["\t\tABC"]));
    // without folding the keys differ and both lines are emitted
    let rows = merge(&a, &b, &config(true, true, true, false, "\t"));
    assert_eq!(rows, lines(&["ABC", "\tabc"]));
}

#[test]
fn merge_custom_delimiter() {
    let a = lines(&["x"]);
    let b = lines(&["x"]);
    let rows = merge(&a, &b, &config(true, true, true, false, "|"));
    assert_eq!(rows, lines(&["||x"]));
}

#[test]
fn merge_row_count_matches_pairing() {
    // four lines on each side, two matching pairs: 4 + 4 - 2 rows
    let a = lines(&["a", "b", "c", "e"]);
    let b = lines(&["b", "c", "d", "f"]);
    let rows = merge(&a, &b, &config(true, true, true, false, "\t"));
    assert_eq!(rows.len(), 6);
}

#[test]
fn merge_equal_runs_stay_in_order() {
    let a = lines(&["a", "a"]);
    let b = lines(&["a"]);
    let rows = merge(&a, &b, &config(true, true, true, false, "\t"));
    assert_eq!(rows, lines(&["\t\ta", "a"]));
}

#[test]
fn merge_interleaves_unequal_lengths() {
    let a = lines(&["apple", "pear"]);
    let b = lines(&["banana", "cherry", "fig", "pear", "plum"]);
    let rows = merge(&a, &b, &config(true, true, true, false, "\t"));
    assert_eq!(
        rows,
        lines(&["apple", "\tbanana", "\tcherry", "\tfig", "\t\tpear", "\tplum"])
    );
}
