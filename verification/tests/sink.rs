use title_extractor::sink::write_value;
use title_extractor::sink::write_values;

#[test]
fn write_value_appends_value_and_line_feed() {
    let mut out = b"a\n".to_vec();
    write_value(&mut out, b"Hello");
    assert_eq!(out, b"a\nHello\n".to_vec());
    write_value(&mut out, b"");
    assert_eq!(out, b"a\nHello\n\n".to_vec());
}

#[test]
fn write_values_keeps_order_and_duplicates() {
    let mut out = Vec::new();
    write_values(&mut out, &vec![b"b".to_vec(), b"a".to_vec(), b"b".to_vec()]);
    assert_eq!(out, b"b\na\nb\n".to_vec());
    write_values(&mut out, &Vec::new());
    assert_eq!(out, b"b\na\nb\n".to_vec());
}
