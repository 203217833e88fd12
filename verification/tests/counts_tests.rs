use linetools::counts::{count, format_field, FileInfo};

#[test]
fn it_works() {
    assert_eq!(4, 4);
}

#[test]
fn test_count() {
    let text = "I don't want the world. I just want your half.\r\n";
    let info = count(text);

    let expected = FileInfo {
        num_lines: 1,
        num_words: 10,
        num_chars: 48,
        num_bytes: 48,
    };

    assert_eq!(info, expected);
}

#[test]
fn test_format_field() {
    assert_eq!(format_field(1, false), "");
    assert_eq!(format_field(3, true), "       3");
    assert_eq!(format_field(10, true), "      10");
}

#[test]
fn count_empty_text() {
    let info = count("");
    assert_eq!(
        info,
        FileInfo { num_lines: 0, num_words: 0, num_bytes: 0, num_chars: 0 }
    );
}

#[test]
fn count_unterminated_last_line() {
    let info = count("one two\nthree");
    assert_eq!(
        info,
        FileInfo { num_lines: 2, num_words: 3, num_bytes: 13, num_chars: 13 }
    );
}

#[test]
fn count_multibyte_characters() {
    // 'é' is two bytes in UTF-8, '雪' is three
    let info = count("é 雪\n");
    assert_eq!(
        info,
        FileInfo { num_lines: 1, num_words: 2, num_bytes: 7, num_chars: 4 }
    );
}
