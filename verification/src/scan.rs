//! The scans: the objects of the array of a key, and the objects of a second
//! array inside each of them.

use crate::anchor::{array_body_start, lacks_bracket, locate_array, occurs};
use crate::error::ScanError;
use crate::machine::{as_spans, objects_from, scan_from, shifted, Action, Scanner};
use crate::spans::{
    all_braced, all_within, in_order, is_braced, lemma_objects_from_spans, lemma_shifted_by_zero,
    lemma_shifted_spans,
};
use vstd::prelude::*;

verus! {

/// The bytes of the key of the outer array: `"records"`, quotes included.
pub open spec fn records_key() -> Seq<u8> {
    seq![0x22u8, 0x72u8, 0x65u8, 0x63u8, 0x6fu8, 0x72u8, 0x64u8, 0x73u8, 0x22u8]
}

/// The bytes of the key of the inner arrays: `"features"`, quotes included.
pub open spec fn features_key() -> Seq<u8> {
    seq![0x22u8, 0x66u8, 0x65u8, 0x61u8, 0x74u8, 0x75u8, 0x72u8, 0x65u8, 0x73u8, 0x22u8]
}

/// The ranges of the objects of the array of `key` in `buf`, or why there is no
/// such array.
pub open spec fn top_level_objects(buf: Seq<u8>, key: Seq<u8>) -> Result<
    Seq<(int, int)>,
    ScanError,
> {
    match array_body_start(buf, key) {
        Ok(start) => Ok(objects_from(buf, start)),
        Err(e) => Err(e),
    }
}

/// The ranges of the objects of the array of `key` in the part of `buf` from
/// `low` up to `high`, as ranges of `buf`; none where the part holds no such
/// array.
pub open spec fn nested_objects(buf: Seq<u8>, low: int, high: int, key: Seq<u8>) -> Seq<
    (int, int),
> {
    let part = buf.subrange(low, high);
    match array_body_start(part, key) {
        Ok(start) => shifted(objects_from(part, start), low),
        Err(_) => Seq::empty(),
    }
}

/// The key of the outer array.
pub fn records_key_bytes() -> (key: [u8; 9])
    ensures
        key@ == records_key(),
{
    let key: [u8; 9] = [0x22, 0x72, 0x65, 0x63, 0x6f, 0x72, 0x64, 0x73, 0x22];
    assert(key@ =~= records_key());
    key
}

/// The key of the inner arrays.
pub fn features_key_bytes() -> (key: [u8; 10])
    ensures
        key@ == features_key(),
{
    let key: [u8; 10] = [0x22, 0x66, 0x65, 0x61, 0x74, 0x75, 0x72, 0x65, 0x73, 0x22];
    assert(key@ =~= features_key());
    key
}

/// Reads the body of an array, which starts at index `from` of `buf`, and
/// returns the range of each of its objects, every offset raised by `base`.
///
/// The scan ends at the `]` that closes the array, or where the buffer ends.
pub fn scan_objects(buf: &[u8], from: usize, base: usize) -> (ranges: Vec<(u64, u64)>)
    requires
        base + buf.len() <= usize::MAX,
    ensures
        as_spans(ranges@) == shifted(objects_from(buf@, from as int), base as int),
{
    let mut ranges: Vec<(u64, u64)> = Vec::new();
    let mut scanner = Scanner::new();
    let mut pos: usize = from;
    let ghost all = shifted(objects_from(buf@, from as int), base as int);
    assert(as_spans(ranges@) =~= Seq::empty());
    while pos < buf.len()
        invariant
            from <= pos,
            base + buf.len() <= usize::MAX,
            -(pos - from) <= scanner.depth <= pos - from,
            scanner.current_start matches Some(start) ==> start < pos,
            as_spans(ranges@) + shifted(scan_from(buf@, pos as int, scanner@), base as int) =~= all,
        ensures
            as_spans(ranges@) =~= all,
        decreases buf.len() - pos,
    {
        let ghost before = scanner@;
        let ghost done = as_spans(ranges@);
        let ghost rest = scan_from(buf@, pos + 1, before.step(buf@[pos as int], pos as int));
        match scanner.step(buf[pos], pos) {
            Action::Stop => {
                assert(scan_from(buf@, pos as int, before) =~= Seq::empty());
                break ;
            },
            Action::Emit(start, end) => {
                let range: (u64, u64) = ((base + start) as u64, (base + end) as u64);
                ranges.push(range);
                proof {
                    let found = (start as int, end as int);
                    assert(scan_from(buf@, pos as int, before) =~= seq![found] + rest);
                    assert(as_spans(ranges@) =~= done + seq![(found.0 + base, found.1 + base)]);
                    assert(shifted(seq![found] + rest, base as int) =~= seq![
                        (found.0 + base, found.1 + base),
                    ] + shifted(rest, base as int));
                }
            },
            Action::Continue => {
                assert(scan_from(buf@, pos as int, before) =~= rest);
            },
        }
        pos += 1;
    }
    ranges
}

/// Finds the array of `anchor_key` in `buffer` and returns the range of each
/// of its objects, in the order of the document.
///
/// Fails where the key does not occur, and where no `[` follows it.
pub fn locate_top_level(buffer: &[u8], anchor_key: &[u8]) -> (result: Result<
    Vec<(u64, u64)>,
    ScanError,
>)
    ensures
        match result {
            Ok(ranges) => top_level_objects(buffer@, anchor_key@) == Ok::<Seq<(int, int)>, ScanError>(
                as_spans(ranges@),
            ),
            Err(e) => top_level_objects(buffer@, anchor_key@) == Err::<Seq<(int, int)>, ScanError>(e),
        },
        result == Err::<Vec<(u64, u64)>, ScanError>(ScanError::AnchorNotFound) <==> !occurs(
            buffer@,
            anchor_key@,
        ),
        result == Err::<Vec<(u64, u64)>, ScanError>(ScanError::BracketNotFound) <==> lacks_bracket(
            buffer@,
            anchor_key@,
        ),
        result matches Ok(ranges) ==> {
            &&& all_braced(buffer@, as_spans(ranges@))
            &&& in_order(as_spans(ranges@))
        },
{
    match locate_array(buffer, anchor_key) {
        Err(e) => Err(e),
        Ok(start) => {
            let ranges = scan_objects(buffer, start, 0);
            proof {
                lemma_shifted_by_zero(objects_from(buffer@, start as int));
                lemma_objects_from_spans(buffer@, start as int);
            }
            Ok(ranges)
        },
    }
}

/// Finds the array of `anchor_key` in the bytes of `buffer` from `start` up to
/// `end`, and returns the range of each of its objects as a range of `buffer`.
///
/// Where those bytes do not hold the key, or no `[` behind it, there are no
/// such objects, and that is no failure.
pub fn locate_nested(buffer: &[u8], start: usize, end: usize, anchor_key: &[u8]) -> (ranges: Vec<
    (u64, u64),
>)
    requires
        start <= end <= buffer.len(),
    ensures
        as_spans(ranges@) == nested_objects(buffer@, start as int, end as int, anchor_key@),
        all_braced(buffer@, as_spans(ranges@)),
        in_order(as_spans(ranges@)),
        all_within(as_spans(ranges@), start as int, end as int),
{
    let part = vstd::slice::slice_subrange(buffer, start, end);
    match locate_array(part, anchor_key) {
        Err(_) => {
            let ranges: Vec<(u64, u64)> = Vec::new();
            assert(as_spans(ranges@) =~= Seq::empty());
            ranges
        },
        Ok(from) => {
            let ranges = scan_objects(part, from, start);
            proof {
                lemma_objects_from_spans(part@, from as int);
                lemma_shifted_spans(buffer@, start as int, end as int, objects_from(part@, from as int));
            }
            ranges
        },
    }
}

/// The ranges of the records of `buf`, each with the ranges of its features.
pub open spec fn records_with_features(buf: Seq<u8>) -> Result<
    Seq<((int, int), Seq<(int, int)>)>,
    ScanError,
> {
    match top_level_objects(buf, records_key()) {
        Ok(spans) => Ok(
            spans.map_values(
                |span: (int, int)| (span, nested_objects(buf, span.0, span.1, features_key())),
            ),
        ),
        Err(e) => Err(e),
    }
}

/// A record as its range and the ranges of its features.
pub open spec fn record_view(record: (u64, u64, Vec<(u64, u64)>)) -> ((int, int), Seq<(int, int)>) {
    ((record.0 as int, record.1 as int), as_spans(record.2@))
}

/// Records as their ranges and the ranges of their features.
pub open spec fn records_view(records: Seq<(u64, u64, Vec<(u64, u64)>)>) -> Seq<
    ((int, int), Seq<(int, int)>),
> {
    records.map_values(|record: (u64, u64, Vec<(u64, u64)>)| record_view(record))
}

/// The ranges of records alone.
pub open spec fn record_spans(records: Seq<(u64, u64, Vec<(u64, u64)>)>) -> Seq<(int, int)> {
    records.map_values(|record: (u64, u64, Vec<(u64, u64)>)| record_view(record).0)
}

/// Returns the byte range of each object of the `"records"` array of the
/// document in `content`, in the order of the document.
///
/// Each range starts at the `{` of a record and ends just behind its `}`.
/// Fails with `AnchorNotFound` exactly where the bytes `"records"` do not occur
/// in `content`, and with `BracketNotFound` where they occur and no `[` stands
/// at or after their first occurrence.
pub fn scan_records(content: &[u8]) -> (result: Result<Vec<(u64, u64)>, ScanError>)
    ensures
        match result {
            Ok(ranges) => top_level_objects(content@, records_key()) == Ok::<
                Seq<(int, int)>,
                ScanError,
            >(as_spans(ranges@)),
            Err(e) => top_level_objects(content@, records_key()) == Err::<Seq<(int, int)>, ScanError>(
                e,
            ),
        },
        result == Err::<Vec<(u64, u64)>, ScanError>(ScanError::AnchorNotFound) <==> !occurs(
            content@,
            records_key(),
        ),
        result == Err::<Vec<(u64, u64)>, ScanError>(ScanError::BracketNotFound) <==> lacks_bracket(
            content@,
            records_key(),
        ),
        result matches Ok(ranges) ==> {
            &&& all_braced(content@, as_spans(ranges@))
            &&& in_order(as_spans(ranges@))
        },
{
    let key = records_key_bytes();
    locate_top_level(content, key.as_slice())
}

/// Returns the byte range of each object of the `"features"` array of the
/// record that spans the bytes of `content` from `start` up to `end`.
///
/// Only those bytes are read. A record without the bytes `"features"`, or
/// without a `[` behind them, has no features.
pub fn scan_features_in_range(content: &[u8], start: usize, end: usize) -> (features: Vec<
    (u64, u64),
>)
    requires
        start <= end <= content.len(),
    ensures
        as_spans(features@) == nested_objects(content@, start as int, end as int, features_key()),
        !occurs(content@.subrange(start as int, end as int), features_key()) ==> features@.len()
            == 0,
        all_braced(content@, as_spans(features@)),
        in_order(as_spans(features@)),
        all_within(as_spans(features@), start as int, end as int),
{
    let key = features_key_bytes();
    let features = locate_nested(content, start, end, key.as_slice());
    assert(as_spans(features@).len() == features@.len());
    features
}

/// Returns the byte range of each object of the `"records"` array of the
/// document in `content`, and with each the byte ranges of the objects of its
/// `"features"` array, all as offsets into `content`.
///
/// Fails as `scan_records` does. A record without a `"features"` array has no
/// features; that is no failure.
pub fn scan_records_and_features(content: &[u8]) -> (result: Result<
    Vec<(u64, u64, Vec<(u64, u64)>)>,
    ScanError,
>)
    ensures
        match result {
            Ok(records) => records_with_features(content@) == Ok::<
                Seq<((int, int), Seq<(int, int)>)>,
                ScanError,
            >(records_view(records@)),
            Err(e) => records_with_features(content@) == Err::<
                Seq<((int, int), Seq<(int, int)>)>,
                ScanError,
            >(e),
        },
        result matches Err(e) ==> e == ScanError::AnchorNotFound || e == ScanError::BracketNotFound,
        result matches Err(ScanError::AnchorNotFound) <==> !occurs(content@, records_key()),
        result matches Err(ScanError::BracketNotFound) <==> lacks_bracket(content@, records_key()),
        result matches Ok(records) ==> forall|i: int|
            0 <= i < records@.len() && !occurs(
                content@.subrange((#[trigger] records@[i]).0 as int, records@[i].1 as int),
                features_key(),
            ) ==> records@[i].2@.len() == 0,
        result matches Ok(records) ==> {
            &&& all_braced(content@, record_spans(records@))
            &&& in_order(record_spans(records@))
            &&& forall|i: int|
                0 <= i < records@.len() ==> {
                    &&& all_braced(content@, as_spans((#[trigger] records@[i]).2@))
                    &&& in_order(as_spans(records@[i].2@))
                    &&& all_within(
                        as_spans(records@[i].2@),
                        records@[i].0 as int,
                        records@[i].1 as int,
                    )
                }
        },
{
    let key = records_key_bytes();
    let ranges = match locate_top_level(content, key.as_slice()) {
        Ok(ranges) => ranges,
        Err(e) => {
            return Err(e);
        },
    };
    let ghost spans = as_spans(ranges@);
    let ghost all = spans.map_values(
        |span: (int, int)| (span, nested_objects(content@, span.0, span.1, features_key())),
    );
    let mut records: Vec<(u64, u64, Vec<(u64, u64)>)> = Vec::new();
    let mut i: usize = 0;
    while i < ranges.len()
        invariant
            i <= ranges.len(),
            spans == as_spans(ranges@),
            all_braced(content@, spans),
            all == spans.map_values(
                |span: (int, int)| (span, nested_objects(content@, span.0, span.1, features_key())),
            ),
            records@.len() == i,
            forall|k: int| 0 <= k < i ==> record_view(#[trigger] records@[k]) == all[k],
            forall|k: int|
                0 <= k < i && !occurs(
                    content@.subrange((#[trigger] records@[k]).0 as int, records@[k].1 as int),
                    features_key(),
                ) ==> records@[k].2@.len() == 0,
            forall|k: int|
                0 <= k < i ==> {
                    &&& all_braced(content@, as_spans((#[trigger] records@[k]).2@))
                    &&& in_order(as_spans(records@[k].2@))
                    &&& all_within(
                        as_spans(records@[k].2@),
                        records@[k].0 as int,
                        records@[k].1 as int,
                    )
                },
        decreases ranges.len() - i,
    {
        let (start, end) = ranges[i];
        assert(spans[i as int] == (start as int, end as int));
        assert(is_braced(content@, spans[i as int]));
        assert(end <= content.len());
        let features = scan_features_in_range(content, start as usize, end as usize);
        records.push((start, end, features));
        assert(record_view(records@[i as int]) == all[i as int]);
        i += 1;
    }
    proof {
        assert(records_view(records@) =~= all);
        assert(record_spans(records@) =~= spans);
    }
    Ok(records)
}

} // verus!
