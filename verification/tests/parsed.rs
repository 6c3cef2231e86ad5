use bgc_scanner::scan::{scan_records, scan_records_and_features};
use serde_json::Value;

fn parse(bytes: &[u8]) -> Value {
    serde_json::from_slice(bytes).unwrap()
}

fn check_against_parser(doc: &[u8]) {
    let whole = parse(doc);
    let expected = whole.get("records").unwrap().as_array().unwrap();
    let ranges = scan_records(doc).unwrap();
    let records = scan_records_and_features(doc).unwrap();
    assert_eq!(ranges.len(), expected.len());
    assert_eq!(records.len(), expected.len());
    for (i, (start, end, features)) in records.iter().enumerate() {
        assert_eq!(ranges[i], (*start, *end));
        let alone = parse(&doc[*start as usize..*end as usize]);
        assert_eq!(alone, expected[i]);
        match expected[i].get("features") {
            None => assert!(features.is_empty()),
            Some(listed) => {
                let listed = listed.as_array().unwrap();
                assert_eq!(features.len(), listed.len());
                for (j, (fs, fe)) in features.iter().enumerate() {
                    assert!(start <= fs && fe <= end);
                    assert_eq!(parse(&doc[*fs as usize..*fe as usize]), listed[j]);
                }
            }
        }
    }
}

#[test]
fn each_range_parses_alone_as_the_record_at_its_index() {
    check_against_parser(br#"{"records":[{"a":1},{"b":[1,2]}]}"#);
    check_against_parser(br#"{"records":[{"features":[{"x":1}]}]}"#);
    check_against_parser(br#"{"records":[{"id":"a records value"}]}"#);
    check_against_parser(br#"{"records":[]}"#);
    check_against_parser(br#"{"records" : [ ] , "more":[{"a":1}]}"#);
}

#[test]
fn a_document_with_strings_escapes_and_nesting_is_scanned_as_it_parses() {
    let doc = br#"{
  "version": "7.1.0",
  "input_file": "genome [draft] {v2}.gbk",
  "records": [
    {
      "id": "contig_1",
      "description": "contains } and ] chars, a \" quote and a \\",
      "seq": {"data": "ACGT", "alphabet": ["A", "C", "G", "T"]},
      "features": [
        {"type": "CDS", "location": "[0:10](+)", "qualifiers": {"note": ["{", "}"]}},
        {"type": "gene", "location": "[12:40](-)", "qualifiers": {}}
      ],
      "areas": [{"start": 0, "end": 40, "products": ["T1PKS"]}]
    },
    {"id": "contig_2", "features": [], "name": "\\\"", "n": -1.5e3},
    {"id": "contig_3", "ok": true, "none": null, "last": "\\"}
  ],
  "timings": {"contig_1": {"total": 1.25}},
  "schema": [1, 2, {"x": "]"}]
}"#;
    check_against_parser(doc);
    let records = scan_records_and_features(doc).unwrap();
    assert_eq!(records.len(), 3);
    assert_eq!(records[0].2.len(), 2);
    assert_eq!(records[1].2.len(), 0);
    assert_eq!(records[2].2.len(), 0);
}
