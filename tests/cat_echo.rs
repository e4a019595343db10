use unix_tools::cat::{number_line, Numbering};
use unix_tools::echo::echo_text;
use unix_tools::text::format_number;

#[test]
fn number_all_lines() {
    assert_eq!(number_line("abc", Numbering::All, 1), ("     1\tabc".to_string(), 2));
    assert_eq!(number_line("", Numbering::All, 2), ("     2\t".to_string(), 3));
}

#[test]
fn number_nonblank_skips_empty_lines() {
    assert_eq!(number_line("", Numbering::NonBlank, 4), (String::new(), 4));
    assert_eq!(number_line("x", Numbering::NonBlank, 4), ("     4\tx".to_string(), 5));
}

#[test]
fn numbering_off_keeps_line() {
    assert_eq!(number_line("abc", Numbering::Off, 9), ("abc".to_string(), 9));
}

#[test]
fn echo_joins_with_spaces() {
    let words = vec!["Hello".to_string(), "there".to_string()];
    assert_eq!(echo_text(&words, false), "Hello there\n");
    assert_eq!(echo_text(&words, true), "Hello there");
    assert_eq!(echo_text(&Vec::new(), false), "\n");
}

#[test]
fn format_number_pads_and_overflows_width() {
    assert_eq!(format_number(0, 4), "   0");
    assert_eq!(format_number(1234567, 6), "1234567");
    assert_eq!(format_number(usize::MAX, 0), usize::MAX.to_string());
}
