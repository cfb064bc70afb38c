use title_extractor::boundary::find_index_of_last_incomplete_line;
use title_extractor::scanner::Scanner;
use title_extractor::value::copy_range;
use title_extractor::value::find_value_end;

#[test]
fn value_ends_at_first_terminator() {
    let text = b"abc\"def\"";
    assert_eq!(find_value_end(text, b'"', 0), 3);
    assert_eq!(find_value_end(text, b'"', 3), 3);
    assert_eq!(find_value_end(text, b'"', 4), 7);
}

#[test]
fn value_without_terminator_ends_with_text() {
    let text = b"abcdef";
    assert_eq!(find_value_end(text, b'"', 2), 6);
    assert_eq!(find_value_end(text, b'"', 6), 6);
    assert_eq!(find_value_end(b"", b'"', 0), 0);
}

#[test]
fn copy_range_copies_the_bytes_between() {
    let text = b"0123456789";
    assert_eq!(copy_range(text, 2, 5), b"234".to_vec());
    assert_eq!(copy_range(text, 4, 4), Vec::<u8>::new());
    assert_eq!(copy_range(text, 0, 10), text.to_vec());
}

#[test]
fn marker_len_is_the_length_of_the_marker() {
    let scanner = Scanner::new(b"abc", b';', 8).unwrap();
    assert_eq!(scanner.marker_len(), 3);
}

#[test]
fn last_incomplete_line_of_empty_buffer() {
    assert_eq!(find_index_of_last_incomplete_line(&Vec::new()), None);
}

#[test]
fn last_incomplete_line_is_empty_after_final_boundary() {
    assert_eq!(find_index_of_last_incomplete_line(&b"a}b\n".to_vec()), Some(4));
    assert_eq!(find_index_of_last_incomplete_line(&b"a\nb}c".to_vec()), Some(4));
}
