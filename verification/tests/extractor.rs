use title_extractor::config::title_scanner;
use title_extractor::config::BLOCK_CAPACITY;
use title_extractor::config::MAX_FRAGMENT;
use title_extractor::config::QUOTE;
use title_extractor::config::TITLE_MARKER;
use title_extractor::extractor::extract_lines;
use title_extractor::extractor::Extractor;
use title_extractor::scanner::ScanError;
use title_extractor::scanner::Scanner;

const TWO_RECORDS: &[u8] = b"foo \"title\": \"Hello\"\nbar \"title\": \"World\"\n";

fn values_of_split(scanner: &Scanner, input: &[u8], split: usize) -> Vec<Vec<u8>> {
    let mut extractor = Extractor::new(scanner);
    let mut values = extractor.feed(&input[..split]).unwrap();
    values.extend(extractor.feed(&input[split..]).unwrap());
    values.extend(extractor.finish());
    values
}

#[test]
fn one_block_gives_both_titles() {
    let scanner = title_scanner();
    let out = extract_lines(&scanner, TWO_RECORDS, TWO_RECORDS.len() + 100);
    assert_eq!(out, Ok(b"Hello\nWorld\n".to_vec()));
}

#[test]
fn default_capacity_gives_both_titles() {
    let scanner = title_scanner();
    let out = extract_lines(&scanner, TWO_RECORDS, BLOCK_CAPACITY);
    assert_eq!(out, Ok(b"Hello\nWorld\n".to_vec()));
}

#[test]
fn split_inside_value_gives_both_titles() {
    let scanner = title_scanner();
    let split = 17;
    assert_eq!(&TWO_RECORDS[..split], b"foo \"title\": \"Hel");
    assert_eq!(&TWO_RECORDS[split..split + 3], b"lo\"");
    let out = extract_lines(&scanner, TWO_RECORDS, split);
    assert_eq!(out, Ok(b"Hello\nWorld\n".to_vec()));
}

#[test]
fn feeding_two_blocks_split_inside_value() {
    let scanner = title_scanner();
    let mut extractor = Extractor::new(&scanner);
    let first = extractor.feed(&TWO_RECORDS[..17]).unwrap();
    assert_eq!(first, Vec::<Vec<u8>>::new());
    assert_eq!(extractor.carried(), &b"\"title\": \"Hel".to_vec());
    let second = extractor.feed(&TWO_RECORDS[17..]).unwrap();
    assert_eq!(second, vec![b"Hello".to_vec(), b"World".to_vec()]);
    assert_eq!(extractor.carried(), &Vec::<u8>::new());
    assert_eq!(extractor.finish(), Vec::<Vec<u8>>::new());
}

#[test]
fn unterminated_value_runs_to_end_of_input() {
    let scanner = title_scanner();
    let input = b"some \"title\": \"Unterminated";
    let out = extract_lines(&scanner, input, 1024);
    assert_eq!(out, Ok(b"Unterminated\n".to_vec()));
    for capacity in 1..=input.len() {
        assert_eq!(extract_lines(&scanner, input, capacity), Ok(b"Unterminated\n".to_vec()));
    }
}

#[test]
fn empty_input_gives_empty_output() {
    let scanner = title_scanner();
    assert_eq!(extract_lines(&scanner, b"", 1024), Ok(Vec::new()));
    let extractor = Extractor::new(&scanner);
    assert_eq!(extractor.finish(), Vec::<Vec<u8>>::new());
}

#[test]
fn every_capacity_gives_the_same_output() {
    let scanner = title_scanner();
    let whole = extract_lines(&scanner, TWO_RECORDS, TWO_RECORDS.len());
    assert_eq!(whole, Ok(b"Hello\nWorld\n".to_vec()));
    for capacity in 1..=TWO_RECORDS.len() + 1 {
        assert_eq!(extract_lines(&scanner, TWO_RECORDS, capacity), whole);
    }
}

#[test]
fn every_split_point_gives_all_values() {
    let scanner = title_scanner();
    for split in 0..=TWO_RECORDS.len() {
        assert_eq!(
            values_of_split(&scanner, TWO_RECORDS, split),
            vec![b"Hello".to_vec(), b"World".to_vec()]
        );
    }
}

#[test]
fn running_twice_gives_the_same_output() {
    let scanner = title_scanner();
    let first = extract_lines(&scanner, TWO_RECORDS, 7);
    let second = extract_lines(&scanner, TWO_RECORDS, 7);
    assert_eq!(first, second);
    assert_eq!(first, Ok(b"Hello\nWorld\n".to_vec()));
}

#[test]
fn overlapping_occurrences_are_counted_once() {
    let scanner = Scanner::new(b"oocoo", b'.', 64).unwrap();
    let input = b"coocoocoocoo12.";
    for capacity in 1..=input.len() {
        assert_eq!(extract_lines(&scanner, input, capacity), Ok(b"coocoo12\n12\n".to_vec()));
    }
}

#[test]
fn value_with_record_bytes_is_kept_whole() {
    let scanner = title_scanner();
    let input = b"{\"title\": \"a}b\nc\"}\n";
    for capacity in 1..=input.len() {
        assert_eq!(extract_lines(&scanner, input, capacity), Ok(b"a}b\nc\n".to_vec()));
    }
}

#[test]
fn empty_value_is_an_empty_line() {
    let scanner = title_scanner();
    let input = b"\"title\": \"\"\"title\": \"x\"";
    for capacity in 1..=input.len() {
        assert_eq!(extract_lines(&scanner, input, capacity), Ok(b"\nx\n".to_vec()));
    }
}

#[test]
fn zero_capacity_reads_nothing() {
    let scanner = title_scanner();
    assert_eq!(extract_lines(&scanner, TWO_RECORDS, 0), Ok(Vec::new()));
}

#[test]
fn too_long_fragment_is_malformed() {
    let scanner = Scanner::new(&TITLE_MARKER, QUOTE, 12).unwrap();
    let input = b"\"title\": \"abcdefgh\"";
    assert_eq!(extract_lines(&scanner, input, 4), Err(ScanError::MalformedValue));
    assert_eq!(extract_lines(&scanner, input, input.len()), Ok(b"abcdefgh\n".to_vec()));
}

#[test]
fn feed_keeps_carry_when_it_gives_up() {
    let scanner = Scanner::new(&TITLE_MARKER, QUOTE, 12).unwrap();
    let mut extractor = Extractor::new(&scanner);
    assert_eq!(extractor.feed(b"\"title\": \"ab"), Ok(Vec::new()));
    assert_eq!(extractor.carried(), &b"\"title\": \"ab".to_vec());
    assert_eq!(extractor.feed(b"c"), Err(ScanError::MalformedValue));
    assert_eq!(extractor.carried(), &b"\"title\": \"ab".to_vec());
    assert_eq!(extractor.feed(b"\""), Ok(vec![b"ab".to_vec()]));
    assert_eq!(extractor.carried(), &b"\"".to_vec());
    assert_eq!(extractor.finish(), Vec::<Vec<u8>>::new());
}

#[test]
fn input_within_limit_never_gives_up() {
    let input = b"\"title\": \"abcdefgh";
    let scanner = Scanner::new(&TITLE_MARKER, QUOTE, input.len()).unwrap();
    for capacity in 1..=input.len() {
        assert_eq!(extract_lines(&scanner, input, capacity), Ok(b"abcdefgh\n".to_vec()));
    }
}

#[test]
fn default_limits() {
    assert_eq!(BLOCK_CAPACITY, 104_857_600);
    assert_eq!(MAX_FRAGMENT, 104_857_600);
    assert_eq!(&TITLE_MARKER, b"\"title\": \"");
    assert_eq!(QUOTE, b'"');
}
