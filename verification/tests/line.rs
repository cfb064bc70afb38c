use title_extractor::config::TITLE_KEY;
use title_extractor::line::embedded_text;
use title_extractor::line::find_document_start;
use title_extractor::line::find_last_field_start;
use title_extractor::line::last_field_text;
use title_extractor::line::lenient_line_output;
use title_extractor::line::line_output;

#[test]
fn document_starts_at_first_brace() {
    assert_eq!(find_document_start(b"foo {\"a\": {}}"), Some(4));
    assert_eq!(find_document_start(b"{}"), Some(0));
    assert_eq!(find_document_start(b"no document"), None);
    assert_eq!(find_document_start(b""), None);
}

#[test]
fn last_field_starts_after_fourth_tab() {
    assert_eq!(find_last_field_start(b"a\tb\tc\td\t{}"), Some(8));
    assert_eq!(find_last_field_start(b"a\tb\tc\td\te\tf"), Some(8));
    assert_eq!(find_last_field_start(b"\t\t\t\t"), Some(4));
    assert_eq!(find_last_field_start(b"a\tb\tc\td"), None);
    assert_eq!(find_last_field_start(b""), None);
}

#[test]
fn embedded_text_reads_title() {
    let line = b"2024 info {\"id\": 7, \"title\": \"Hello\"}";
    assert_eq!(embedded_text(line, TITLE_KEY), Ok(Some(b"Hello".to_vec())));
    assert_eq!(embedded_text(line, "id"), Ok(None));
    assert_eq!(embedded_text(line, "missing"), Ok(None));
    assert_eq!(embedded_text(b"no document here", TITLE_KEY), Ok(None));
}

#[test]
fn embedded_text_unescapes() {
    let line = b"x {\"title\": \"a\\\"b\\n\"}";
    assert_eq!(embedded_text(line, TITLE_KEY), Ok(Some(b"a\"b\n".to_vec())));
}

#[test]
fn embedded_text_reports_parse_error() {
    let result = embedded_text(b"x {\"title\": ", TITLE_KEY);
    assert!(result.is_err());
    let trailing = embedded_text(b"x {\"title\": \"a\"} y", TITLE_KEY);
    assert!(trailing.is_err());
}

#[test]
fn last_field_text_reads_title() {
    let line = b"a\tb\tc\td\t{\"title\": \"World\"}";
    assert_eq!(last_field_text(line, TITLE_KEY), Ok(Some(b"World".to_vec())));
    assert_eq!(last_field_text(b"a\tb\t{\"title\": \"World\"}", TITLE_KEY), Ok(None));
    assert!(last_field_text(b"a\tb\tc\td\tnot json", TITLE_KEY).is_err());
}

#[test]
fn line_output_appends_line_feed() {
    assert_eq!(line_output(Ok(Some(b"Hello".to_vec()))), Ok(b"Hello\n".to_vec()));
    assert_eq!(line_output(Ok(None)), Ok(Vec::new()));
    assert_eq!(line_output(Err("bad".to_string())), Err("bad".to_string()));
}

#[test]
fn lenient_line_output_passes_over_errors() {
    assert_eq!(lenient_line_output(Ok(Some(b"Hello".to_vec()))), b"Hello\n".to_vec());
    assert_eq!(lenient_line_output(Ok(None)), Vec::<u8>::new());
    assert_eq!(lenient_line_output(Err("bad".to_string())), Vec::<u8>::new());
}
