use title_extractor::scanner::ScanError;
use title_extractor::scanner::Scanner;

const MARKER: &[u8] = b"\"title\": \"";

#[test]
fn scan_settles_terminated_values() {
    let scanner = Scanner::new(MARKER, b'"', 1024).unwrap();
    let window = b"foo \"title\": \"Hello\"\nbar \"title\": \"World\"\n".to_vec();
    let scan = scanner.scan(&window).unwrap();
    assert_eq!(scan.values, vec![b"Hello".to_vec(), b"World".to_vec()]);
    assert_eq!(scan.carry, Vec::<u8>::new());
}

#[test]
fn scan_carries_unterminated_value() {
    let scanner = Scanner::new(MARKER, b'"', 1024).unwrap();
    let window = b"foo \"title\": \"Hello\"\nbar \"title\": \"Wor".to_vec();
    let scan = scanner.scan(&window).unwrap();
    assert_eq!(scan.values, vec![b"Hello".to_vec()]);
    assert_eq!(scan.carry, b"\"title\": \"Wor".to_vec());
}

#[test]
fn scan_carries_partial_marker() {
    let scanner = Scanner::new(MARKER, b'"', 1024).unwrap();
    let window = b"foo \"title\": \"Hello\"\nbar \"tit".to_vec();
    let scan = scanner.scan(&window).unwrap();
    assert_eq!(scan.values, vec![b"Hello".to_vec()]);
    assert_eq!(scan.carry, b"\"tit".to_vec());
}

#[test]
fn scan_fails_when_carry_exceeds_limit() {
    let scanner = Scanner::new(MARKER, b'"', 4).unwrap();
    let window = b"\"title\": \"Wor".to_vec();
    assert_eq!(scanner.scan(&window).err(), Some(ScanError::MalformedValue));
}

#[test]
fn scan_to_end_truncates_unterminated_value() {
    let scanner = Scanner::new(MARKER, b'"', 1024).unwrap();
    let window = b"x \"title\": \"Unterminated".to_vec();
    assert_eq!(scanner.scan_to_end(&window), vec![b"Unterminated".to_vec()]);
}

#[test]
fn new_rejects_empty_marker() {
    assert!(Scanner::new(b"", b'"', 16).is_none());
}
