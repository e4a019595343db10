use unix_tools::wc::{count, format_output, FileInfo, Flags};

#[test]
fn test_count() {
    let text = "I don't want the world. I just want your half.\r\n";
    let info = count(text);

    let expected = FileInfo {
        num_lines: 1,
        num_words: 10,
        num_chars: 48,
        num_bytes: 48,
    };

    assert_eq!(info, expected);
}

#[test]
fn count_empty_text() {
    let zero = FileInfo { num_lines: 0, num_words: 0, num_bytes: 0, num_chars: 0 };
    assert_eq!(count(""), zero);
}

#[test]
fn count_last_line_without_line_feed() {
    let info = count("ab cd\n  e\n\nfg");
    assert_eq!(info, FileInfo { num_lines: 4, num_words: 4, num_bytes: 14, num_chars: 14 });
}

#[test]
fn count_multibyte_characters() {
    let info = count("h\u{e9}llo w\u{f6}rld \u{20ac}\u{1f600}\n");
    assert_eq!(info, FileInfo { num_lines: 1, num_words: 3, num_bytes: 22, num_chars: 15 });
    assert_eq!(info.num_bytes, "h\u{e9}llo w\u{f6}rld \u{20ac}\u{1f600}\n".len());
}

#[test]
fn count_unicode_white_space_separates_words() {
    let info = count("a\u{3000}b\u{a0}c\td");
    assert_eq!(info.num_words, 4);
}

#[test]
fn format_output_all_columns() {
    let flags = Flags { lines: true, words: true, bytes: true, chars: false };
    let c = FileInfo { num_lines: 1, num_words: 10, num_bytes: 48, num_chars: 47 };
    assert_eq!(format_output(&flags, &c, "f.txt"), "       1      10      48 f.txt");
    assert_eq!(format_output(&flags, &c, "-"), "       1      10      48");
}

#[test]
fn format_output_chars_only_when_no_bytes() {
    let flags = Flags { lines: false, words: false, bytes: false, chars: true };
    let c = FileInfo { num_lines: 1, num_words: 10, num_bytes: 48, num_chars: 123456789 };
    assert_eq!(format_output(&flags, &c, "total"), "123456789 total");
}

#[test]
fn flags_default_when_none_given() {
    let none = Flags { lines: false, words: false, bytes: false, chars: false };
    assert_eq!(none.or_default(), Flags { lines: true, words: true, bytes: true, chars: false });
    let some = Flags { lines: false, words: false, bytes: false, chars: true };
    assert_eq!(some.or_default(), some);
}

#[test]
fn combine_adds_and_detects_overflow() {
    let a = FileInfo { num_lines: 1, num_words: 2, num_bytes: 3, num_chars: 4 };
    let b = FileInfo { num_lines: 10, num_words: 20, num_bytes: 30, num_chars: 40 };
    assert_eq!(a.combine(&b), Some(FileInfo { num_lines: 11, num_words: 22, num_bytes: 33, num_chars: 44 }));
    let big = FileInfo { num_lines: usize::MAX, num_words: 0, num_bytes: 0, num_chars: 0 };
    assert_eq!(big.combine(&a), None);
}
