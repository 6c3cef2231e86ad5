use bgc_scanner::error::ScanError;
use bgc_scanner::scan::{scan_features_in_range, scan_records, scan_records_and_features};

fn slice<'a>(doc: &'a [u8], range: &(u64, u64)) -> &'a [u8] {
    &doc[range.0 as usize..range.1 as usize]
}

#[test]
fn two_records_are_found_with_their_exact_text() {
    let doc = br#"{"records":[{"a":1},{"b":[1,2]}]}"#;
    let ranges = scan_records(doc).unwrap();
    assert_eq!(ranges, vec![(12, 19), (20, 31)]);
    assert_eq!(slice(doc, &ranges[0]), br#"{"a":1}"#);
    assert_eq!(slice(doc, &ranges[1]), br#"{"b":[1,2]}"#);
}

#[test]
fn record_with_one_feature() {
    let doc = br#"{"records":[{"features":[{"x":1}]}]}"#;
    let records = scan_records_and_features(doc).unwrap();
    assert_eq!(records.len(), 1);
    let (start, end, features) = &records[0];
    assert_eq!((*start, *end), (12, 34));
    assert_eq!(slice(doc, &(*start, *end)), br#"{"features":[{"x":1}]}"#);
    assert_eq!(features, &vec![(25, 32)]);
    assert_eq!(slice(doc, &features[0]), br#"{"x":1}"#);
}

#[test]
fn the_word_records_inside_a_string_is_no_anchor() {
    let doc = br#"{"records":[{"id":"a records value"}]}"#;
    let ranges = scan_records(doc).unwrap();
    assert_eq!(ranges.len(), 1);
    assert_eq!(slice(doc, &ranges[0]), br#"{"id":"a records value"}"#);
}

#[test]
fn braces_and_brackets_inside_a_string_do_not_count() {
    let doc = br#"{"records":[{"note": "contains } and ] chars"}]}"#;
    let ranges = scan_records(doc).unwrap();
    assert_eq!(ranges.len(), 1);
    assert_eq!(slice(doc, &ranges[0]), br#"{"note": "contains } and ] chars"}"#);
}

#[test]
fn opening_brace_and_bracket_inside_a_string_do_not_count() {
    let doc = br#"{"records":[{"note": "{[{"},{"k":2}]}"#;
    let ranges = scan_records(doc).unwrap();
    assert_eq!(ranges.len(), 2);
    assert_eq!(slice(doc, &ranges[0]), br#"{"note": "{[{"}"#);
    assert_eq!(slice(doc, &ranges[1]), br#"{"k":2}"#);
}

#[test]
fn an_escaped_quote_does_not_end_the_string() {
    let doc = br#"{"records":[{"q":"say \"}\" now"},{"r":0}]}"#;
    let ranges = scan_records(doc).unwrap();
    assert_eq!(ranges.len(), 2);
    assert_eq!(slice(doc, &ranges[0]), br#"{"q":"say \"}\" now"}"#);
    assert_eq!(slice(doc, &ranges[1]), br#"{"r":0}"#);
}

#[test]
fn an_escaped_backslash_does_not_escape_the_quote_behind_it() {
    let doc = br#"{"records":[{"p":"c:\\"},{"r":"}"}]}"#;
    let ranges = scan_records(doc).unwrap();
    assert_eq!(ranges.len(), 2);
    assert_eq!(slice(doc, &ranges[0]), br#"{"p":"c:\\"}"#);
    assert_eq!(slice(doc, &ranges[1]), br#"{"r":"}"}"#);
}

#[test]
fn nested_objects_belong_to_their_record() {
    let doc = br#"{"records": [ {"a":{"b":{"c":[{"d":1}]}}} , {"e":{}} ], "x": [{"y":1}]}"#;
    let ranges = scan_records(doc).unwrap();
    assert_eq!(ranges.len(), 2);
    assert_eq!(slice(doc, &ranges[0]), br#"{"a":{"b":{"c":[{"d":1}]}}}"#);
    assert_eq!(slice(doc, &ranges[1]), br#"{"e":{}}"#);
}

#[test]
fn an_empty_array_has_no_records() {
    let doc = br#"{"records":[]}"#;
    assert_eq!(scan_records(doc), Ok(vec![]));
    assert_eq!(scan_records_and_features(doc), Ok(vec![]));
}

#[test]
fn the_scan_stops_at_the_closing_bracket() {
    let doc = br#"{"records":[{"a":1}],"other":[{"b":2}]}"#;
    assert_eq!(scan_records(doc), Ok(vec![(12, 19)]));
}

#[test]
fn a_buffer_that_ends_early_gives_the_records_that_were_complete() {
    let doc = br#"{"records":[{"a":1},{"b":2},{"c":"#;
    assert_eq!(scan_records(doc), Ok(vec![(12, 19), (20, 27)]));
    let doc = br#"{"records":["#;
    assert_eq!(scan_records(doc), Ok(vec![]));
}

#[test]
fn a_document_without_the_key_is_refused() {
    assert_eq!(scan_records(br#"{"items":[{"a":1}]}"#), Err(ScanError::AnchorNotFound));
    assert_eq!(scan_records(b""), Err(ScanError::AnchorNotFound));
    assert_eq!(scan_records(br#"{"record":[]}"#), Err(ScanError::AnchorNotFound));
    assert_eq!(
        scan_records_and_features(br#"{"features":[{"a":1}]}"#),
        Err(ScanError::AnchorNotFound)
    );
}

#[test]
fn a_key_without_an_opening_bracket_is_refused() {
    assert_eq!(scan_records(br#"{"records":{"a":1}}"#), Err(ScanError::BracketNotFound));
    assert_eq!(scan_records(br#"[1,2],"records""#), Err(ScanError::BracketNotFound));
    assert_eq!(
        scan_records_and_features(br#"{"records":7}"#),
        Err(ScanError::BracketNotFound)
    );
}

#[test]
fn the_first_occurrence_of_the_key_is_taken() {
    let doc = br#"{"x":"\"records","y":[{"a":1}],"records":[{"b":2},{"c":3}]}"#;
    let ranges = scan_records(doc).unwrap();
    assert_eq!(ranges.len(), 1);
    assert_eq!(slice(doc, &ranges[0]), br#"{"a":1}"#);
}

#[test]
fn a_record_without_features_has_none() {
    let doc = br#"{"records":[{"id":1},{"features":[]},{"features":[{"f":1},{"g":{"h":2}}]}]}"#;
    let records = scan_records_and_features(doc).unwrap();
    assert_eq!(records.len(), 3);
    assert_eq!(records[0].2, vec![]);
    assert_eq!(records[1].2, vec![]);
    assert_eq!(records[2].2.len(), 2);
    assert_eq!(slice(doc, &records[2].2[0]), br#"{"f":1}"#);
    assert_eq!(slice(doc, &records[2].2[1]), br#"{"g":{"h":2}}"#);
}

#[test]
fn a_features_key_without_a_bracket_gives_no_features() {
    let doc = br#"{"records":[{"features":null},{"features":[{"f":1}]}]}"#;
    let records = scan_records_and_features(doc).unwrap();
    assert_eq!(records.len(), 2);
    assert_eq!(records[0].2, vec![]);
    assert_eq!(records[1].2.len(), 1);
    assert_eq!(slice(doc, &records[1].2[0]), br#"{"f":1}"#);
}

#[test]
fn features_lie_inside_their_record_and_follow_each_other() {
    let doc = br#"{"records":[{"features":[{"a":1},{"b":2}]},{"n":0,"features":[{"c":3}]}]}"#;
    let records = scan_records_and_features(doc).unwrap();
    assert_eq!(records.len(), 2);
    let mut last_end = 0;
    for (start, end, features) in &records {
        assert!(last_end <= *start && start < end);
        assert_eq!(doc[*start as usize], b'{');
        assert_eq!(doc[*end as usize - 1], b'}');
        let mut last_feature_end = *start;
        for (fs, fe) in features {
            assert!(last_feature_end <= *fs && fs < fe && fe <= end);
            assert_eq!(doc[*fs as usize], b'{');
            assert_eq!(doc[*fe as usize - 1], b'}');
            last_feature_end = *fe;
        }
        last_end = *end;
    }
    assert_eq!(records[0].2, vec![(25, 32), (33, 40)]);
    assert_eq!(records[1].2, vec![(62, 69)]);
}

#[test]
fn features_of_a_range_are_given_as_offsets_of_the_whole_buffer() {
    let doc = br#"{"records":[{"id":1},{"features":[{"f":1}]}]}"#;
    assert_eq!(scan_features_in_range(doc, 21, 43), vec![(34, 41)]);
    assert_eq!(scan_features_in_range(doc, 12, 20), vec![]);
    assert_eq!(scan_features_in_range(doc, 0, 0), vec![]);
    assert_eq!(scan_features_in_range(doc, 0, doc.len()), vec![(34, 41)]);
}

#[test]
fn features_outside_the_range_are_not_seen() {
    let doc = br#"{"a":1},{"features":[{"f":1}]}"#;
    assert_eq!(scan_features_in_range(doc, 0, 7), vec![]);
    assert_eq!(scan_features_in_range(doc, 8, 25), vec![]);
    assert_eq!(scan_features_in_range(doc, 8, 28), vec![(21, 28)]);
}

#[test]
fn stray_closing_braces_are_counted_as_they_come() {
    let doc = br#"{"records":[}{"a":1}{"b":2}]"#;
    assert_eq!(scan_records(doc), Ok(vec![]));
    let doc = br#"{"records":[}{{"a":1}{"b":2}]"#;
    assert_eq!(scan_records(doc), Ok(vec![(14, 21), (21, 28)]));
}
