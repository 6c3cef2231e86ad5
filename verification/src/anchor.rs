//! Locating the array that follows a key.
//!
//! The search is textual: a key is found where its bytes first occur in the
//! buffer, whatever surrounds them, and its array starts at the first `[` at or
//! after that place.

use crate::error::ScanError;
use vstd::prelude::*;

verus! {

/// The byte `[`.
pub const OPEN_BRACKET: u8 = 0x5b;

/// `needle` occurs in `hay` with its first byte at index `at`.
pub open spec fn occurs_at(hay: Seq<u8>, needle: Seq<u8>, at: int) -> bool {
    &&& 0 <= at
    &&& at + needle.len() <= hay.len()
    &&& forall|j: int| 0 <= j < needle.len() ==> hay[at + j] == #[trigger] needle[j]
}

/// `at` is the least index at which `needle` occurs in `hay`.
pub open spec fn is_first_occurrence(hay: Seq<u8>, needle: Seq<u8>, at: int) -> bool {
    &&& occurs_at(hay, needle, at)
    &&& forall|j: int| 0 <= j < at ==> !occurs_at(hay, needle, j)
}

/// `needle` occurs somewhere in `hay`.
pub open spec fn occurs(hay: Seq<u8>, needle: Seq<u8>) -> bool {
    exists|at: int| occurs_at(hay, needle, at)
}

/// The least index at which `needle` occurs in `hay`, if it occurs at all.
pub open spec fn first_occurrence(hay: Seq<u8>, needle: Seq<u8>) -> Option<int> {
    if occurs(hay, needle) {
        Some(choose|at: int| is_first_occurrence(hay, needle, at))
    } else {
        None
    }
}

/// `at` is the least index not below `from` that holds `byte`.
pub open spec fn is_first_byte_from(buf: Seq<u8>, byte: u8, from: int, at: int) -> bool {
    &&& 0 <= from <= at < buf.len()
    &&& buf[at] == byte
    &&& forall|j: int| from <= j < at ==> buf[j] != byte
}

/// The least index not below `from` that holds `byte`, if there is one.
pub open spec fn first_byte_from(buf: Seq<u8>, byte: u8, from: int) -> Option<int> {
    if exists|at: int| 0 <= from <= at < buf.len() && buf[at] == byte {
        Some(choose|at: int| is_first_byte_from(buf, byte, from, at))
    } else {
        None
    }
}

/// `key` occurs in `buf`, and no `[` stands at or after its first occurrence.
pub open spec fn lacks_bracket(buf: Seq<u8>, key: Seq<u8>) -> bool {
    exists|at: int|
        is_first_occurrence(buf, key, at) && forall|j: int|
            at <= j < buf.len() ==> buf[j] != OPEN_BRACKET
}

/// The index just behind the `[` that opens the array of `key`: the first `[`
/// at or after the first occurrence of `key`.
pub open spec fn array_body_start(buf: Seq<u8>, key: Seq<u8>) -> Result<int, ScanError> {
    match first_occurrence(buf, key) {
        None => Err(ScanError::AnchorNotFound),
        Some(at) => match first_byte_from(buf, OPEN_BRACKET, at) {
            None => Err(ScanError::BracketNotFound),
            Some(open) => Ok(open + 1),
        },
    }
}

/// An index that was found, or none, as a mathematical integer.
pub open spec fn as_index(found: Option<usize>) -> Option<int> {
    match found {
        Some(at) => Some(at as int),
        None => None,
    }
}

/// Whether the bytes of `needle` stand in `hay` at index `at`.
fn matches_at(hay: &[u8], needle: &[u8], at: usize) -> (same: bool)
    requires
        at + needle.len() <= hay.len(),
    ensures
        same == occurs_at(hay@, needle@, at as int),
{
    let mut j: usize = 0;
    while j < needle.len()
        invariant
            j <= needle.len(),
            at + needle.len() <= hay.len(),
            forall|k: int| 0 <= k < j ==> hay@[at + k] == #[trigger] needle@[k],
        decreases needle.len() - j,
    {
        if hay[at + j] != needle[j] {
            return false;
        }
        j += 1;
    }
    true
}

/// Finds where `needle` first occurs in `hay`.
///
/// An empty `needle` occurs at index 0 of every buffer.
pub fn find_pattern(hay: &[u8], needle: &[u8]) -> (found: Option<usize>)
    ensures
        match found {
            Some(at) => is_first_occurrence(hay@, needle@, at as int),
            None => !occurs(hay@, needle@),
        },
        as_index(found) == first_occurrence(hay@, needle@),
{
    if needle.len() > hay.len() {
        return None;
    }
    let last: usize = hay.len() - needle.len();
    let mut at: usize = 0;
    loop
        invariant
            last == hay.len() - needle.len(),
            at <= last,
            forall|j: int| 0 <= j < at ==> !occurs_at(hay@, needle@, j),
        decreases last - at,
    {
        if matches_at(hay, needle, at) {
            proof {
                lemma_first_occurrence_unique(hay@, needle@, at as int);
            }
            return Some(at);
        }
        if at == last {
            return None;
        }
        at += 1;
    }
}

/// Finds the first index not below `from` that holds `byte`.
pub fn find_byte_from(buf: &[u8], byte: u8, from: usize) -> (found: Option<usize>)
    ensures
        match found {
            Some(at) => is_first_byte_from(buf@, byte, from as int, at as int),
            None => forall|j: int| from <= j < buf@.len() ==> buf@[j] != byte,
        },
        as_index(found) == first_byte_from(buf@, byte, from as int),
{
    let mut at: usize = from;
    while at < buf.len()
        invariant
            from <= at,
            forall|j: int| from <= j < at && j < buf@.len() ==> buf@[j] != byte,
        decreases buf.len() - at,
    {
        if buf[at] == byte {
            proof {
                lemma_first_byte_unique(buf@, byte, from as int, at as int);
            }
            return Some(at);
        }
        at += 1;
    }
    None
}

/// Finds the array of `key`: the index just behind the first `[` at or after
/// the first occurrence of `key`.
///
/// Fails with `AnchorNotFound` exactly where `key` does not occur in `buf`,
/// and with `BracketNotFound` exactly where it occurs and no `[` stands at or
/// after its first occurrence.
pub fn locate_array(buf: &[u8], key: &[u8]) -> (located: Result<usize, ScanError>)
    ensures
        match located {
            Ok(start) => array_body_start(buf@, key@) == Ok::<int, ScanError>(start as int),
            Err(e) => array_body_start(buf@, key@) == Err::<int, ScanError>(e),
        },
        located == Err::<usize, ScanError>(ScanError::AnchorNotFound) <==> !occurs(buf@, key@),
        located == Err::<usize, ScanError>(ScanError::BracketNotFound) <==> lacks_bracket(
            buf@,
            key@,
        ),
        located matches Ok(start) ==> exists|at: int|
            is_first_occurrence(buf@, key@, at) && is_first_byte_from(
                buf@,
                OPEN_BRACKET,
                at,
                start - 1,
            ),
{
    match find_pattern(buf, key) {
        None => Err(ScanError::AnchorNotFound),
        Some(at) => match find_byte_from(buf, OPEN_BRACKET, at) {
            None => Err(ScanError::BracketNotFound),
            Some(open) => {
                assert(open < buf.len());
                Ok(open + 1)
            },
        },
    }
}

/// Where `needle` occurs, it has exactly one first occurrence, and
/// `first_occurrence` names it.
pub proof fn lemma_first_occurrence_unique(hay: Seq<u8>, needle: Seq<u8>, at: int)
    requires
        is_first_occurrence(hay, needle, at),
    ensures
        first_occurrence(hay, needle) == Some(at),
{
    let chosen = choose|i: int| is_first_occurrence(hay, needle, i);
    assert(is_first_occurrence(hay, needle, chosen));
    if chosen < at {
        assert(!occurs_at(hay, needle, chosen));
    } else if at < chosen {
        assert(!occurs_at(hay, needle, at));
    }
}

/// Where `needle` occurs at all, it occurs first somewhere, at or before any
/// index at which it occurs.
pub proof fn lemma_first_occurrence_exists(hay: Seq<u8>, needle: Seq<u8>, at: int)
    requires
        occurs_at(hay, needle, at),
    ensures
        exists|first: int| first <= at && is_first_occurrence(hay, needle, first),
    decreases at,
{
    if exists|j: int| 0 <= j < at && occurs_at(hay, needle, j) {
        let earlier = choose|j: int| 0 <= j < at && occurs_at(hay, needle, j);
        lemma_first_occurrence_exists(hay, needle, earlier);
    } else {
        assert(is_first_occurrence(hay, needle, at));
    }
}

/// `first_occurrence` names the first occurrence of `needle` wherever `needle`
/// occurs, and nothing where it does not.
pub proof fn lemma_first_occurrence(hay: Seq<u8>, needle: Seq<u8>)
    ensures
        match first_occurrence(hay, needle) {
            Some(at) => is_first_occurrence(hay, needle, at),
            None => !occurs(hay, needle),
        },
{
    if occurs(hay, needle) {
        let at = choose|at: int| occurs_at(hay, needle, at);
        lemma_first_occurrence_exists(hay, needle, at);
    }
}

/// Where `byte` stands at or after `from`, it has exactly one first such
/// index, and `first_byte_from` names it.
pub proof fn lemma_first_byte_unique(buf: Seq<u8>, byte: u8, from: int, at: int)
    requires
        is_first_byte_from(buf, byte, from, at),
    ensures
        first_byte_from(buf, byte, from) == Some(at),
{
    let chosen = choose|i: int| is_first_byte_from(buf, byte, from, i);
    assert(is_first_byte_from(buf, byte, from, chosen));
}

} // verus!
