use ctenv::parse::{parse_line, ParsedLine};

fn entry_of(line: &str) -> (Vec<u8>, Vec<u8>, Vec<u8>) {
    match parse_line(line.as_bytes()) {
        Some(ParsedLine::Entry(e)) => (e.owner, e.key, e.value),
        Some(ParsedLine::Comment) => panic!("expected an entry, got a comment"),
        None => panic!("expected an entry, got a parse failure"),
    }
}

#[test]
fn entry_line_splits_at_first_colon_and_first_equals() {
    let (owner, key, value) = entry_of("foo:BUF_SZ=128");
    assert_eq!(owner, b"foo".to_vec());
    assert_eq!(key, b"BUF_SZ".to_vec());
    assert_eq!(value, b"128".to_vec());
}

#[test]
fn value_may_contain_equals_signs() {
    let (owner, key, value) = entry_of("foo:KEY=a=b=c");
    assert_eq!(owner, b"foo".to_vec());
    assert_eq!(key, b"KEY".to_vec());
    assert_eq!(value, b"a=b=c".to_vec());
}

#[test]
fn value_may_contain_colons() {
    let (_, key, value) = entry_of("foo:URL=http://example");
    assert_eq!(key, b"URL".to_vec());
    assert_eq!(value, b"http://example".to_vec());
}

#[test]
fn owner_is_everything_before_the_first_colon() {
    let (owner, key, value) = entry_of("a:b:c=d");
    assert_eq!(owner, b"a".to_vec());
    assert_eq!(key, b"b:c".to_vec());
    assert_eq!(value, b"d".to_vec());
}

#[test]
fn empty_owner_key_and_value_are_allowed() {
    let (owner, key, value) = entry_of(":=");
    assert_eq!(owner, b"".to_vec());
    assert_eq!(key, b"".to_vec());
    assert_eq!(value, b"".to_vec());
}

#[test]
fn comment_line_parses_as_comment_whatever_it_holds() {
    assert!(matches!(parse_line(b"# note"), Some(ParsedLine::Comment)));
    assert!(matches!(parse_line(b"#"), Some(ParsedLine::Comment)));
    assert!(matches!(parse_line(b"#foo:KEY=1"), Some(ParsedLine::Comment)));
    assert!(matches!(parse_line(b"# no delimiters at all"), Some(ParsedLine::Comment)));
}

#[test]
fn comment_marker_after_the_first_byte_does_not_comment() {
    let (owner, key, value) = entry_of("foo:#K=1");
    assert_eq!(owner, b"foo".to_vec());
    assert_eq!(key, b"#K".to_vec());
    assert_eq!(value, b"1".to_vec());
}

#[test]
fn line_without_colon_is_malformed() {
    assert!(parse_line(b"BUF_SZ=128").is_none());
}

#[test]
fn line_without_equals_after_colon_is_malformed() {
    assert!(parse_line(b"foo:BUF_SZ128").is_none());
}

#[test]
fn equals_before_the_only_colon_does_not_count() {
    assert!(parse_line(b"a=b:c").is_none());
}

#[test]
fn empty_line_is_malformed() {
    assert!(parse_line(b"").is_none());
}
