//! What a scan yields on well-formed text.
//!
//! The machine counts braces and knows nothing of JSON. Here it is shown that
//! on text that `value_at` reads this is enough: a string, a scalar, a nested
//! array or object leaves the machine as it found it, and an array of objects
//! yields exactly the ranges of its objects.

use crate::anchor::{
    array_body_start, is_first_byte_from, is_first_occurrence, lemma_first_byte_unique,
    lemma_first_occurrence_unique, occurs_at, OPEN_BRACKET,
};
use crate::error::ScanError;
use crate::isolation::lemma_value_alone;
use crate::json::{
    elements_at, is_scalar_byte, is_whitespace, key_at, lemma_elements_bounds, lemma_key_bounds,
    lemma_members_bounds, lemma_scalar_end, lemma_skip_whitespace, lemma_string_end,
    lemma_value_bounds, members_at, scalar_end, skip_whitespace, string_end, value_at, Json, COMMA,
};
use crate::machine::{
    objects_from, scan_from, shifted, Machine, BACKSLASH, CLOSE_BRACE, CLOSE_BRACKET, OPEN_BRACE,
    QUOTE,
};
use crate::scan::{nested_objects, top_level_objects};
use vstd::prelude::*;

verus! {

/// The machine is not inside a string and the next byte is not escaped.
pub open spec fn outside_string(m: Machine) -> bool {
    !m.in_string && !m.escape_pending
}

/// Outside a string, whitespace leaves the machine as it is.
pub proof fn lemma_whitespace_scan(buf: Seq<u8>, pos: int, m: Machine)
    requires
        0 <= pos,
        outside_string(m),
    ensures
        scan_from(buf, pos, m) == scan_from(buf, skip_whitespace(buf, pos), m),
    decreases buf.len() - pos,
{
    if pos < buf.len() && is_whitespace(buf[pos]) {
        assert(m.step(buf[pos], pos) == m);
        lemma_whitespace_scan(buf, pos + 1, m);
    }
}

/// Outside a string, a scalar leaves the machine as it is.
pub proof fn lemma_scalar_scan(buf: Seq<u8>, pos: int, m: Machine)
    requires
        0 <= pos,
        outside_string(m),
    ensures
        scan_from(buf, pos, m) == scan_from(buf, scalar_end(buf, pos), m),
    decreases buf.len() - pos,
{
    if pos < buf.len() && is_scalar_byte(buf[pos]) {
        assert(m.step(buf[pos], pos) == m);
        lemma_scalar_scan(buf, pos + 1, m);
    }
}

/// Inside a string the machine reads no structure: whatever the string holds,
/// braces, brackets and escaped quotes among it, the machine leaves the string
/// at its closing quote with the depth and the open object that it entered
/// with, and has completed no range.
pub proof fn lemma_string_scan(buf: Seq<u8>, pos: int, m: Machine)
    requires
        string_end(buf, pos) is Some,
        m.in_string,
        !m.escape_pending,
    ensures
        scan_from(buf, pos, m) == scan_from(
            buf,
            string_end(buf, pos).unwrap(),
            Machine { in_string: false, ..m },
        ),
    decreases buf.len() - pos,
{
    if buf[pos] == QUOTE {
        assert(m.step(buf[pos], pos) == Machine { in_string: false, ..m });
    } else if buf[pos] == BACKSLASH {
        let escaping = Machine { escape_pending: true, ..m };
        assert(m.step(buf[pos], pos) == escaping);
        assert(escaping.step(buf[pos + 1], pos + 1) == m);
        assert(scan_from(buf, pos + 1, escaping) == scan_from(buf, pos + 2, m));
        lemma_string_scan(buf, pos + 2, m);
    } else {
        assert(m.step(buf[pos], pos) == m);
        lemma_string_scan(buf, pos + 1, m);
    }
}

/// Outside a string, a key with its colon leaves the machine as it is.
pub proof fn lemma_key_scan(buf: Seq<u8>, pos: int, m: Machine)
    requires
        key_at(buf, pos) is Some,
        outside_string(m),
    ensures
        pos < key_at(buf, pos).unwrap().1 <= buf.len(),
        scan_from(buf, pos, m) == scan_from(buf, key_at(buf, pos).unwrap().1, m),
{
    let key_end = string_end(buf, pos + 1).unwrap();
    let colon = skip_whitespace(buf, key_end);
    let inside = Machine { in_string: true, ..m };
    assert(m.step(buf[pos], pos) == inside);
    lemma_string_end(buf, pos + 1);
    lemma_string_scan(buf, pos + 1, inside);
    assert(Machine { in_string: false, ..inside } == m);
    lemma_skip_whitespace(buf, key_end);
    lemma_whitespace_scan(buf, key_end, m);
    assert(m.step(buf[colon], colon) == m);
    lemma_skip_whitespace(buf, colon + 1);
    lemma_whitespace_scan(buf, colon + 1, m);
}

/// A value that stands inside an object leaves the machine as it is: the
/// machine reads it to its end without completing a range or halting.
pub proof fn lemma_value_scan(buf: Seq<u8>, pos: int, m: Machine)
    requires
        value_at(buf, pos) is Some,
        outside_string(m),
        m.depth >= 1,
    ensures
        0 <= pos < value_at(buf, pos).unwrap().1 <= buf.len(),
        scan_from(buf, pos, m) == scan_from(buf, value_at(buf, pos).unwrap().1, m),
    decreases buf.len() - pos, 0nat,
{
    let end = value_at(buf, pos).unwrap().1;
    lemma_value_bounds(buf, pos);
    lemma_skip_whitespace(buf, pos + 1);
    if buf[pos] == OPEN_BRACE {
        let inner = Machine { depth: m.depth + 1, ..m };
        let first = skip_whitespace(buf, pos + 1);
        assert(m.step(buf[pos], pos) == inner);
        lemma_whitespace_scan(buf, pos + 1, inner);
        if buf[first] == CLOSE_BRACE {
            assert(inner.step(buf[first], first) == m);
        } else {
            lemma_members_scan(buf, first, inner);
            assert(inner.step(buf[end - 1], end - 1) == m);
        }
    } else if buf[pos] == OPEN_BRACKET {
        let first = skip_whitespace(buf, pos + 1);
        assert(m.step(buf[pos], pos) == m);
        lemma_whitespace_scan(buf, pos + 1, m);
        if buf[first] == CLOSE_BRACKET {
            assert(m.step(buf[first], first) == m);
        } else {
            lemma_elements_scan(buf, first, m);
            assert(m.step(buf[end - 1], end - 1) == m);
        }
    } else if buf[pos] == QUOTE {
        let inside = Machine { in_string: true, ..m };
        assert(m.step(buf[pos], pos) == inside);
        lemma_string_end(buf, pos + 1);
        lemma_string_scan(buf, pos + 1, inside);
        assert(Machine { in_string: false, ..inside } == m);
    } else {
        lemma_scalar_end(buf, pos + 1);
        lemma_scalar_scan(buf, pos, m);
    }
}

/// The values of an array that stands inside an object leave the machine as it
/// is, up to the `]` that closes the array.
pub proof fn lemma_elements_scan(buf: Seq<u8>, pos: int, m: Machine)
    requires
        elements_at(buf, pos) is Some,
        outside_string(m),
        m.depth >= 1,
    ensures
        0 <= pos < elements_at(buf, pos).unwrap().1 <= buf.len(),
        buf[elements_at(buf, pos).unwrap().1 - 1] == CLOSE_BRACKET,
        scan_from(buf, pos, m) == scan_from(buf, elements_at(buf, pos).unwrap().1 - 1, m),
    decreases buf.len() - pos, 1nat,
{
    let value_end = value_at(buf, pos).unwrap().1;
    let next = skip_whitespace(buf, value_end);
    lemma_elements_bounds(buf, pos);
    lemma_skip_whitespace(buf, value_end);
    lemma_value_scan(buf, pos, m);
    lemma_whitespace_scan(buf, value_end, m);
    if buf[next] == COMMA {
        let following = skip_whitespace(buf, next + 1);
        lemma_skip_whitespace(buf, next + 1);
        assert(m.step(buf[next], next) == m);
        lemma_whitespace_scan(buf, next + 1, m);
        lemma_elements_scan(buf, following, m);
    }
}

/// The members of an object leave the machine as it is, up to the `}` that
/// closes the object.
pub proof fn lemma_members_scan(buf: Seq<u8>, pos: int, m: Machine)
    requires
        members_at(buf, pos) is Some,
        outside_string(m),
        m.depth >= 1,
    ensures
        0 <= pos < members_at(buf, pos).unwrap().1 <= buf.len(),
        buf[members_at(buf, pos).unwrap().1 - 1] == CLOSE_BRACE,
        scan_from(buf, pos, m) == scan_from(buf, members_at(buf, pos).unwrap().1 - 1, m),
    decreases buf.len() - pos, 1nat,
{
    let value_start = key_at(buf, pos).unwrap().1;
    let value_end = value_at(buf, value_start).unwrap().1;
    let next = skip_whitespace(buf, value_end);
    lemma_members_bounds(buf, pos);
    lemma_key_bounds(buf, pos);
    lemma_skip_whitespace(buf, value_end);
    lemma_key_scan(buf, pos, m);
    lemma_value_scan(buf, value_start, m);
    lemma_whitespace_scan(buf, value_end, m);
    if buf[next] == COMMA {
        let following = skip_whitespace(buf, next + 1);
        lemma_skip_whitespace(buf, next + 1);
        assert(m.step(buf[next], next) == m);
        lemma_whitespace_scan(buf, next + 1, m);
        lemma_members_scan(buf, following, m);
    }
}

/// A well-formed array opens at `open`, and `values`, all of them objects, are
/// what it holds.
pub open spec fn holds_objects(buf: Seq<u8>, open: int, values: Seq<Json>) -> bool {
    &&& 0 <= open < buf.len()
    &&& buf[open] == OPEN_BRACKET
    &&& value_at(buf, open) is Some
    &&& value_at(buf, open).unwrap().0 == Json::Array(values)
    &&& forall|i: int| 0 <= i < values.len() ==> (#[trigger] values[i]) is Object
}

/// `spans` are the places of `values` in `buf`: there are as many of them, and
/// each value is what `value_at` reads at the start of its span, ending where
/// the span ends.
pub open spec fn spans_of_values(buf: Seq<u8>, spans: Seq<(int, int)>, values: Seq<Json>) -> bool {
    &&& spans.len() == values.len()
    &&& forall|i: int|
        0 <= i < spans.len() ==> value_at(buf, (#[trigger] spans[i]).0) == Some(
            (values[i], spans[i].1),
        )
}

/// An object of the array itself, read with no brace open: the machine
/// completes one range, that of the object, and is then again as it was.
pub proof fn lemma_object_scan(buf: Seq<u8>, pos: int, m: Machine)
    requires
        value_at(buf, pos) is Some,
        buf[pos] == OPEN_BRACE,
        outside_string(m),
        m.depth == 0,
        m.current_start is None,
    ensures
        0 <= pos < value_at(buf, pos).unwrap().1 <= buf.len(),
        scan_from(buf, pos, m) == seq![(pos, value_at(buf, pos).unwrap().1)] + scan_from(
            buf,
            value_at(buf, pos).unwrap().1,
            m,
        ),
{
    let end = value_at(buf, pos).unwrap().1;
    let inner = Machine { depth: 1, current_start: Some(pos), ..m };
    let first = skip_whitespace(buf, pos + 1);
    lemma_value_bounds(buf, pos);
    lemma_skip_whitespace(buf, pos + 1);
    assert(m.step(buf[pos], pos) == inner);
    assert(scan_from(buf, pos, m) == scan_from(buf, pos + 1, inner));
    lemma_whitespace_scan(buf, pos + 1, inner);
    if buf[first] != CLOSE_BRACE {
        lemma_members_scan(buf, first, inner);
    }
    assert(inner.step(buf[end - 1], end - 1) == m);
    assert(inner.emits(buf[end - 1], end - 1) == Some((pos, end)));
    assert(scan_from(buf, end - 1, inner) == seq![(pos, end)] + scan_from(buf, end, m));
}

/// The objects of an array from the one that starts at `pos` on: the machine
/// completes the range of each, in order, and halts at the `]` behind them.
pub proof fn lemma_object_elements_scan(buf: Seq<u8>, pos: int)
    requires
        elements_at(buf, pos) is Some,
        forall|i: int|
            0 <= i < elements_at(buf, pos).unwrap().0.len() ==> (#[trigger] elements_at(
                buf,
                pos,
            ).unwrap().0[i]) is Object,
    ensures
        spans_of_values(buf, objects_from(buf, pos), elements_at(buf, pos).unwrap().0),
    decreases buf.len() - pos,
{
    let m = Machine::initial();
    let values = elements_at(buf, pos).unwrap().0;
    let value = value_at(buf, pos).unwrap().0;
    let value_end = value_at(buf, pos).unwrap().1;
    let next = skip_whitespace(buf, value_end);
    lemma_elements_bounds(buf, pos);
    lemma_value_bounds(buf, pos);
    lemma_skip_whitespace(buf, value_end);
    assert(values[0] == value);
    lemma_object_scan(buf, pos, m);
    lemma_whitespace_scan(buf, value_end, m);
    let spans = objects_from(buf, pos);
    if buf[next] == COMMA {
        let following = skip_whitespace(buf, next + 1);
        let others = elements_at(buf, following).unwrap().0;
        lemma_skip_whitespace(buf, next + 1);
        assert(m.step(buf[next], next) == m);
        lemma_whitespace_scan(buf, next + 1, m);
        assert(values =~= seq![value] + others);
        assert forall|i: int| 0 <= i < others.len() implies (#[trigger] others[i]) is Object by {
            assert(others[i] == values[i + 1]);
        }
        lemma_object_elements_scan(buf, following);
        let rest = objects_from(buf, following);
        assert(spans =~= seq![(pos, value_end)] + rest);
        assert forall|i: int| 0 <= i < spans.len() implies value_at(buf, (#[trigger] spans[i]).0)
            == Some((values[i], spans[i].1)) by {
            if i > 0 {
                assert(spans[i] == rest[i - 1]);
                assert(values[i] == others[i - 1]);
            }
        }
    } else {
        assert(m.halts(buf[next]));
        assert(scan_from(buf, next, m) =~= Seq::empty());
        assert(spans =~= seq![(pos, value_end)]);
        assert(values =~= seq![value]);
    }
}

/// On a well-formed array of objects the scan of its body yields exactly the
/// places of its objects: as many ranges as the array has objects, the range
/// of the first object first.
pub proof fn lemma_array_of_objects_scan(buf: Seq<u8>, open: int, values: Seq<Json>)
    requires
        holds_objects(buf, open, values),
    ensures
        spans_of_values(buf, objects_from(buf, open + 1), values),
{
    let m = Machine::initial();
    let first = skip_whitespace(buf, open + 1);
    lemma_skip_whitespace(buf, open + 1);
    lemma_whitespace_scan(buf, open + 1, m);
    if buf[first] == CLOSE_BRACKET {
        assert(m.halts(buf[first]));
        assert(objects_from(buf, open + 1) =~= Seq::empty());
        assert(values =~= Seq::empty());
    } else {
        assert(elements_at(buf, first).unwrap().0 == values);
        lemma_object_elements_scan(buf, first);
    }
}

/// Where the array that a scan locates for `key` is a well-formed array of
/// objects, the scan succeeds and yields exactly the places of those objects.
pub proof fn lemma_well_formed_array_is_scanned(
    buf: Seq<u8>,
    key: Seq<u8>,
    open: int,
    values: Seq<Json>,
)
    requires
        array_body_start(buf, key) == Ok::<int, ScanError>(open + 1),
        holds_objects(buf, open, values),
    ensures
        top_level_objects(buf, key) is Ok,
        spans_of_values(buf, top_level_objects(buf, key).unwrap(), values),
{
    lemma_array_of_objects_scan(buf, open, values);
}

/// `key` is a name between quotes, and the name holds no quote, no backslash
/// and no `[`.
pub open spec fn is_quoted_name(key: Seq<u8>) -> bool {
    &&& key.len() >= 2
    &&& key[0] == QUOTE
    &&& key[key.len() - 1] == QUOTE
    &&& forall|j: int|
        0 < j < key.len() - 1 ==> (#[trigger] key[j]) != QUOTE && key[j] != BACKSLASH && key[j]
            != OPEN_BRACKET
}

/// Each range of `spans` holds, taken by itself, the text of the value of
/// `values` at the same index: `value_at` reads that value from the bytes of
/// the range alone, all of them.
pub open spec fn read_alone(buf: Seq<u8>, spans: Seq<(int, int)>, values: Seq<Json>) -> bool {
    &&& spans.len() == values.len()
    &&& forall|i: int|
        0 <= i < spans.len() ==> value_at(buf.subrange((#[trigger] spans[i]).0, spans[i].1), 0)
            == Some((values[i], spans[i].1 - spans[i].0))
}

/// Where a quoted name occurs, the string that its opening quote opens is the
/// name, and ends behind its closing quote.
pub proof fn lemma_quoted_name_is_string(buf: Seq<u8>, key: Seq<u8>, at: int, j: int)
    requires
        is_quoted_name(key),
        occurs_at(buf, key, at),
        1 <= j < key.len(),
    ensures
        string_end(buf, at + j) == Some(at + key.len()),
    decreases key.len() - j,
{
    assert(buf[at + j] == key[j]);
    if j < key.len() - 1 {
        lemma_quoted_name_is_string(buf, key, at, j + 1);
    }
}

/// Where the first occurrence of a quoted name is the key of a member whose
/// value is an array, the array that a scan locates for the name is that array.
pub proof fn lemma_key_leads_to_array(buf: Seq<u8>, key: Seq<u8>, at: int)
    requires
        is_quoted_name(key),
        is_first_occurrence(buf, key, at),
        key_at(buf, at) is Some,
        key_at(buf, at).unwrap().1 < buf.len(),
        buf[key_at(buf, at).unwrap().1] == OPEN_BRACKET,
    ensures
        array_body_start(buf, key) == Ok::<int, ScanError>(key_at(buf, at).unwrap().1 + 1),
{
    let open = key_at(buf, at).unwrap().1;
    let key_end = string_end(buf, at + 1).unwrap();
    let colon = skip_whitespace(buf, key_end);
    lemma_quoted_name_is_string(buf, key, at, 1);
    lemma_key_bounds(buf, at);
    lemma_skip_whitespace(buf, key_end);
    lemma_skip_whitespace(buf, colon + 1);
    assert forall|j: int| at <= j < open implies buf[j] != OPEN_BRACKET by {
        if j < key_end {
            assert(buf[at + (j - at)] == key[j - at]);
        } else if j < colon {
            assert(is_whitespace(buf[j]));
        } else if j > colon {
            assert(is_whitespace(buf[j]));
        }
    }
    assert(is_first_byte_from(buf, OPEN_BRACKET, at, open));
    lemma_first_occurrence_unique(buf, key, at);
    lemma_first_byte_unique(buf, OPEN_BRACKET, at, open);
}

/// The places of values hold, each by itself, the text of its value.
pub proof fn lemma_spans_read_alone(buf: Seq<u8>, spans: Seq<(int, int)>, values: Seq<Json>)
    requires
        spans_of_values(buf, spans, values),
    ensures
        read_alone(buf, spans, values),
{
    assert forall|i: int| 0 <= i < spans.len() implies value_at(
        buf.subrange((#[trigger] spans[i]).0, spans[i].1),
        0,
    ) == Some((values[i], spans[i].1 - spans[i].0)) by {
        lemma_value_alone(buf, spans[i].0);
    }
}

/// A scan of a well-formed document finds its objects, all of them and each
/// whole.
///
/// Let the first occurrence of the quoted name `key` in `buf` be the key of a
/// member, and let the value of that member be a well-formed array of the
/// objects `values`. Then the scan for `key` succeeds; it yields as many ranges
/// as there are objects; the range at each index is where the object at that
/// index stands in `buf`; and the bytes of that range, parsed by themselves,
/// are that object.
pub proof fn lemma_scan_of_well_formed_document(
    buf: Seq<u8>,
    key: Seq<u8>,
    at: int,
    values: Seq<Json>,
)
    requires
        is_quoted_name(key),
        is_first_occurrence(buf, key, at),
        key_at(buf, at) is Some,
        holds_objects(buf, key_at(buf, at).unwrap().1, values),
    ensures
        top_level_objects(buf, key) is Ok,
        top_level_objects(buf, key).unwrap().len() == values.len(),
        spans_of_values(buf, top_level_objects(buf, key).unwrap(), values),
        read_alone(buf, top_level_objects(buf, key).unwrap(), values),
{
    let open = key_at(buf, at).unwrap().1;
    lemma_key_leads_to_array(buf, key, at);
    lemma_well_formed_array_is_scanned(buf, key, open, values);
    lemma_spans_read_alone(buf, top_level_objects(buf, key).unwrap(), values);
}

/// A scan inside a well-formed record finds the objects of its inner array,
/// all of them and each whole.
///
/// Let `part` be the bytes of `buf` from `low` up to `high`, let the first
/// occurrence of the quoted name `key` in `part` be the key of a member, and
/// let the value of that member be a well-formed array of the objects `values`.
/// Then the nested scan yields as many ranges as there are objects, and the
/// bytes of `buf` in the range at each index, parsed by themselves, are the
/// object at that index.
pub proof fn lemma_nested_scan_of_well_formed_record(
    buf: Seq<u8>,
    low: int,
    high: int,
    key: Seq<u8>,
    at: int,
    values: Seq<Json>,
)
    requires
        0 <= low <= high <= buf.len(),
        is_quoted_name(key),
        is_first_occurrence(buf.subrange(low, high), key, at),
        key_at(buf.subrange(low, high), at) is Some,
        holds_objects(
            buf.subrange(low, high),
            key_at(buf.subrange(low, high), at).unwrap().1,
            values,
        ),
    ensures
        nested_objects(buf, low, high, key).len() == values.len(),
        read_alone(buf, nested_objects(buf, low, high, key), values),
{
    let part = buf.subrange(low, high);
    lemma_scan_of_well_formed_document(part, key, at, values);
    let inner = top_level_objects(part, key).unwrap();
    let outer = nested_objects(buf, low, high, key);
    assert(outer == shifted(inner, low));
    assert forall|i: int| 0 <= i < outer.len() implies value_at(
        buf.subrange((#[trigger] outer[i]).0, outer[i].1),
        0,
    ) == Some((values[i], outer[i].1 - outer[i].0)) by {
        lemma_value_bounds(part, inner[i].0);
        assert(buf.subrange(outer[i].0, outer[i].1) =~= part.subrange(inner[i].0, inner[i].1));
    }
}

} // verus!
