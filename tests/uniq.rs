use unix_tools::text::trimmed_eq;
use unix_tools::uniq::{collapse, format_record};

fn lines(v: &[&str]) -> Vec<String> {
    v.iter().map(|s| s.to_string()).collect()
}

fn recs(v: &[(usize, &str)]) -> Vec<(usize, String)> {
    v.iter().map(|(n, s)| (*n, s.to_string())).collect()
}

#[test]
fn collapse_adjacent_duplicates() {
    assert_eq!(collapse(&lines(&["a", "a", "b"])), recs(&[(2, "a"), (1, "b")]));
}

#[test]
fn collapse_keeps_first_untrimmed_text() {
    assert_eq!(collapse(&lines(&["a", " a "])), recs(&[(2, "a")]));
    assert_eq!(collapse(&lines(&[" a \n", "a\n", "a"])), recs(&[(3, " a \n")]));
}

#[test]
fn collapse_empty_input() {
    assert_eq!(collapse(&Vec::new()), Vec::<(usize, String)>::new());
}

#[test]
fn collapse_single_line() {
    assert_eq!(collapse(&lines(&["only\n"])), recs(&[(1, "only\n")]));
}

#[test]
fn collapse_does_not_merge_distant_duplicates() {
    assert_eq!(
        collapse(&lines(&["x", "y", "x"])),
        recs(&[(1, "x"), (1, "y"), (1, "x")])
    );
}

#[test]
fn collapse_blank_first_line_is_kept() {
    assert_eq!(collapse(&lines(&["\n", "  \n", "a\n"])), recs(&[(2, "\n"), (1, "a\n")]));
}

#[test]
fn collapse_counts_add_up() {
    let input = lines(&["a", "a", "b", " b", "c", "a", "a", "a"]);
    let out = collapse(&input);
    assert_eq!(out.iter().map(|r| r.0).sum::<usize>(), input.len());
    assert_eq!(out, recs(&[(2, "a"), (2, "b"), (1, "c"), (3, "a")]));
}

#[test]
fn trimmed_eq_ignores_outer_white_space_only() {
    assert!(trimmed_eq(" a b\t\n", "a b"));
    assert!(!trimmed_eq("a  b", "a b"));
    assert!(trimmed_eq("", " \n"));
    assert!(!trimmed_eq("ab", "a"));
}

#[test]
fn format_record_with_and_without_count() {
    assert_eq!(format_record(3, "a\n", true), "   3 a\n");
    assert_eq!(format_record(12345, "b", true), "12345 b");
    assert_eq!(format_record(3, "a\n", false), "a\n");
}
