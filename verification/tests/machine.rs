use bgc_scanner::anchor::{find_byte_from, find_pattern, locate_array};
use bgc_scanner::error::ScanError;
use bgc_scanner::machine::{Action, Scanner};
use bgc_scanner::scan::{
    features_key_bytes, locate_nested, locate_top_level, records_key_bytes, scan_objects,
};

#[test]
fn a_pattern_is_found_where_it_first_occurs() {
    assert_eq!(find_pattern(b"abcabc", b"bc"), Some(1));
    assert_eq!(find_pattern(b"abcabc", b"abcabc"), Some(0));
    assert_eq!(find_pattern(b"aaab", b"aab"), Some(1));
    assert_eq!(find_pattern(b"abcabc", b"cab"), Some(2));
}

#[test]
fn a_pattern_that_does_not_occur_is_not_found() {
    assert_eq!(find_pattern(b"abcabc", b"cb"), None);
    assert_eq!(find_pattern(b"abc", b"abcd"), None);
    assert_eq!(find_pattern(b"", b"a"), None);
}

#[test]
fn an_empty_pattern_occurs_at_the_start() {
    assert_eq!(find_pattern(b"abc", b""), Some(0));
    assert_eq!(find_pattern(b"", b""), Some(0));
}

#[test]
fn a_byte_is_found_at_or_after_the_start_of_the_search() {
    assert_eq!(find_byte_from(b"a[b[c", b'[', 0), Some(1));
    assert_eq!(find_byte_from(b"a[b[c", b'[', 1), Some(1));
    assert_eq!(find_byte_from(b"a[b[c", b'[', 2), Some(3));
    assert_eq!(find_byte_from(b"a[b[c", b'[', 4), None);
    assert_eq!(find_byte_from(b"a[b[c", b'[', 5), None);
    assert_eq!(find_byte_from(b"a[b[c", b'[', 99), None);
}

#[test]
fn the_array_body_starts_behind_the_first_bracket_after_the_key() {
    assert_eq!(locate_array(br#"["k"  :  [1]"#, br#""k""#), Ok(10));
    assert_eq!(locate_array(br#"{"k":["#, br#""k""#), Ok(6));
    assert_eq!(locate_array(br#"{"j":[]}"#, br#""k""#), Err(ScanError::AnchorNotFound));
    assert_eq!(locate_array(br#"[]{"k":1}"#, br#""k""#), Err(ScanError::BracketNotFound));
}

#[test]
fn a_bracket_inside_the_key_counts() {
    assert_eq!(locate_array(b"xx a[b yy", b"a[b"), Ok(5));
}

#[test]
fn the_keys_are_the_quoted_names() {
    assert_eq!(&records_key_bytes()[..], br#""records""#);
    assert_eq!(&features_key_bytes()[..], br#""features""#);
}

#[test]
fn a_new_scanner_is_outside_everything() {
    let scanner = Scanner::new();
    assert_eq!(scanner.depth, 0);
    assert!(!scanner.in_string);
    assert!(!scanner.escape_pending);
    assert_eq!(scanner.current_start, None);
}

#[test]
fn an_object_is_emitted_when_its_brace_closes() {
    let mut scanner = Scanner::new();
    assert_eq!(scanner.step(b' ', 4), Action::Continue);
    assert_eq!(scanner.step(b'{', 5), Action::Continue);
    assert_eq!(scanner.depth, 1);
    assert_eq!(scanner.current_start, Some(5));
    assert_eq!(scanner.step(b'{', 6), Action::Continue);
    assert_eq!(scanner.depth, 2);
    assert_eq!(scanner.current_start, Some(5));
    assert_eq!(scanner.step(b'}', 7), Action::Continue);
    assert_eq!(scanner.step(b'}', 8), Action::Emit(5, 9));
    assert_eq!(scanner.depth, 0);
    assert_eq!(scanner.current_start, None);
}

#[test]
fn a_closing_bracket_stops_the_scan_only_at_depth_zero() {
    let mut scanner = Scanner::new();
    assert_eq!(scanner.step(b'{', 0), Action::Continue);
    assert_eq!(scanner.step(b']', 1), Action::Continue);
    assert_eq!(scanner.step(b'}', 2), Action::Emit(0, 3));
    assert_eq!(scanner.step(b']', 3), Action::Stop);
    assert_eq!(scanner.depth, 0);
    assert_eq!(scanner.step(b'}', 4), Action::Continue);
    assert_eq!(scanner.depth, -1);
    assert_eq!(scanner.step(b']', 5), Action::Continue);
}

#[test]
fn inside_a_string_only_quote_and_backslash_are_read() {
    let mut scanner = Scanner::new();
    assert_eq!(scanner.step(b'{', 0), Action::Continue);
    assert_eq!(scanner.step(b'"', 1), Action::Continue);
    assert!(scanner.in_string);
    for (offset, byte) in b"{}[]".iter().enumerate() {
        assert_eq!(scanner.step(*byte, 2 + offset), Action::Continue);
        assert_eq!(scanner.depth, 1);
        assert!(scanner.in_string);
    }
    assert_eq!(scanner.step(b'\\', 6), Action::Continue);
    assert!(scanner.escape_pending);
    assert_eq!(scanner.step(b'"', 7), Action::Continue);
    assert!(scanner.in_string);
    assert!(!scanner.escape_pending);
    assert_eq!(scanner.step(b'"', 8), Action::Continue);
    assert!(!scanner.in_string);
    assert_eq!(scanner.step(b'}', 9), Action::Emit(0, 10));
}

#[test]
fn a_backslash_outside_a_string_escapes_too() {
    let mut scanner = Scanner::new();
    assert_eq!(scanner.step(b'\\', 0), Action::Continue);
    assert_eq!(scanner.step(b'{', 1), Action::Continue);
    assert_eq!(scanner.depth, 0);
    assert_eq!(scanner.step(b'\\', 2), Action::Continue);
    assert_eq!(scanner.step(b']', 3), Action::Continue);
    assert_eq!(scanner.step(b']', 4), Action::Stop);
}

#[test]
fn objects_are_scanned_from_the_given_index_and_raised_by_the_base() {
    let body = br#" {"a":1}, {"b":2} ] {"c":3}"#;
    assert_eq!(scan_objects(body, 0, 0), vec![(1, 8), (10, 17)]);
    assert_eq!(scan_objects(body, 0, 100), vec![(101, 108), (110, 117)]);
    assert_eq!(scan_objects(body, 9, 0), vec![(10, 17)]);
    assert_eq!(scan_objects(body, 19, 0), vec![(20, 27)]);
    assert_eq!(scan_objects(body, body.len(), 0), vec![]);
    assert_eq!(scan_objects(body, body.len() + 5, 0), vec![]);
}

#[test]
fn any_key_can_anchor_a_scan() {
    let doc = br#"{"items":[{"a":1}],"parts":[{"b":2},{"c":3}]}"#;
    assert_eq!(locate_top_level(doc, br#""items""#), Ok(vec![(10, 17)]));
    assert_eq!(locate_top_level(doc, br#""parts""#), Ok(vec![(28, 35), (36, 43)]));
    assert_eq!(locate_top_level(doc, br#""none""#), Err(ScanError::AnchorNotFound));
    assert_eq!(locate_nested(doc, 0, doc.len(), br#""parts""#), vec![(28, 35), (36, 43)]);
    assert_eq!(locate_nested(doc, 19, doc.len(), br#""parts""#), vec![(28, 35), (36, 43)]);
    assert_eq!(locate_nested(doc, 19, 36, br#""parts""#), vec![(28, 35)]);
    assert_eq!(locate_nested(doc, 0, 18, br#""parts""#), vec![]);
    assert_eq!(locate_nested(doc, 20, doc.len(), br#""items""#), vec![]);
}
