//! A value is read from its own bytes alone.
//!
//! What `value_at` reads at an index depends on no byte before the value and,
//! for all but a scalar, on none behind it. So the bytes of a value, cut out of
//! the buffer, are read by themselves as the same value.

use crate::anchor::OPEN_BRACKET;
use crate::json::{
    elements_at, is_scalar_byte, is_whitespace, key_at, lemma_elements_bounds, lemma_key_bounds,
    lemma_members_bounds, lemma_scalar_end, lemma_skip_whitespace, lemma_string_end,
    lemma_value_bounds, members_at, scalar_end, skip_whitespace, string_end, value_at, COMMA,
};
use crate::machine::{BACKSLASH, CLOSE_BRACE, CLOSE_BRACKET, OPEN_BRACE, QUOTE};
use vstd::prelude::*;

verus! {

/// From index `from` up to `to`, buffer `a` holds the bytes that buffer `b`
/// holds `by` places further on.
pub open spec fn alike(a: Seq<u8>, b: Seq<u8>, by: int, from: int, to: int) -> bool {
    &&& 0 <= from <= to <= a.len()
    &&& 0 <= from + by
    &&& to + by <= b.len()
    &&& forall|i: int| from <= i < to ==> #[trigger] a[i] == b[i + by]
}

/// No scalar goes on at index `at` of `buf`.
pub open spec fn ends_scalar(buf: Seq<u8>, at: int) -> bool {
    at == buf.len() || (0 <= at < buf.len() && !is_scalar_byte(buf[at]))
}

/// Whitespace that ends inside a stretch of like bytes ends at the like place.
pub proof fn lemma_skip_whitespace_alike(a: Seq<u8>, b: Seq<u8>, by: int, pos: int, to: int)
    requires
        alike(a, b, by, pos, to),
        skip_whitespace(a, pos) < to,
    ensures
        skip_whitespace(b, pos + by) == skip_whitespace(a, pos) + by,
    decreases to - pos,
{
    lemma_skip_whitespace(a, pos);
    if is_whitespace(a[pos]) {
        lemma_skip_whitespace_alike(a, b, by, pos + 1, to);
    }
}

/// A scalar in a stretch of like bytes ends at the like place, if it ends
/// inside the stretch or if in both buffers it ends with the stretch.
pub proof fn lemma_scalar_end_alike(a: Seq<u8>, b: Seq<u8>, by: int, pos: int, to: int)
    requires
        alike(a, b, by, pos, to),
        scalar_end(a, pos) <= to,
        scalar_end(a, pos) == to ==> ends_scalar(b, to + by),
    ensures
        scalar_end(b, pos + by) == scalar_end(a, pos) + by,
    decreases to - pos,
{
    lemma_scalar_end(a, pos);
    if pos < to && is_scalar_byte(a[pos]) {
        lemma_scalar_end_alike(a, b, by, pos + 1, to);
    }
}

/// A string of like bytes ends at the like place.
pub proof fn lemma_string_end_alike(a: Seq<u8>, b: Seq<u8>, by: int, pos: int)
    requires
        string_end(a, pos) is Some,
        alike(a, b, by, pos, string_end(a, pos).unwrap()),
    ensures
        string_end(b, pos + by) == Some(string_end(a, pos).unwrap() + by),
    decreases a.len() - pos,
{
    lemma_string_end(a, pos);
    if a[pos] == QUOTE {
    } else if a[pos] == BACKSLASH {
        lemma_string_end(a, pos + 2);
        lemma_string_end_alike(a, b, by, pos + 2);
    } else {
        lemma_string_end(a, pos + 1);
        lemma_string_end_alike(a, b, by, pos + 1);
    }
}

/// A key of like bytes, up to the first byte of its value, is the same key.
pub proof fn lemma_key_alike(a: Seq<u8>, b: Seq<u8>, by: int, pos: int, to: int)
    requires
        key_at(a, pos) is Some,
        alike(a, b, by, pos, to),
        key_at(a, pos).unwrap().1 < to,
    ensures
        key_at(b, pos + by) == Some((key_at(a, pos).unwrap().0, key_at(a, pos).unwrap().1 + by)),
{
    let key_end = string_end(a, pos + 1).unwrap();
    let colon = skip_whitespace(a, key_end);
    lemma_key_bounds(a, pos);
    lemma_string_end_alike(a, b, by, pos + 1);
    lemma_skip_whitespace_alike(a, b, by, key_end, to);
    lemma_skip_whitespace_alike(a, b, by, colon + 1, to);
    assert(a.subrange(pos + 1, key_end - 1) =~= b.subrange(pos + by + 1, key_end + by - 1));
}

/// A value of like bytes is the same value. Of a scalar this holds where in
/// the second buffer, too, the scalar ends with the like bytes.
pub proof fn lemma_value_alike(a: Seq<u8>, b: Seq<u8>, by: int, pos: int)
    requires
        value_at(a, pos) is Some,
        alike(a, b, by, pos, value_at(a, pos).unwrap().1),
        is_scalar_byte(a[pos]) ==> ends_scalar(b, value_at(a, pos).unwrap().1 + by),
    ensures
        value_at(b, pos + by) == Some(
            (value_at(a, pos).unwrap().0, value_at(a, pos).unwrap().1 + by),
        ),
    decreases a.len() - pos, 0nat,
{
    let end = value_at(a, pos).unwrap().1;
    lemma_value_bounds(a, pos);
    lemma_skip_whitespace(a, pos + 1);
    lemma_skip_whitespace(b, pos + by + 1);
    if a[pos] == OPEN_BRACE {
        let first = skip_whitespace(a, pos + 1);
        if a[first] != CLOSE_BRACE {
            lemma_members_bounds(a, first);
        }
        lemma_skip_whitespace_alike(a, b, by, pos + 1, end);
        if a[first] != CLOSE_BRACE {
            lemma_members_alike(a, b, by, first);
        }
    } else if a[pos] == OPEN_BRACKET {
        let first = skip_whitespace(a, pos + 1);
        if a[first] != CLOSE_BRACKET {
            lemma_elements_bounds(a, first);
        }
        lemma_skip_whitespace_alike(a, b, by, pos + 1, end);
        if a[first] != CLOSE_BRACKET {
            lemma_elements_alike(a, b, by, first);
        }
    } else if a[pos] == QUOTE {
        lemma_string_end(a, pos + 1);
        lemma_string_end_alike(a, b, by, pos + 1);
        assert(a.subrange(pos + 1, end - 1) =~= b.subrange(pos + by + 1, end + by - 1));
    } else {
        lemma_scalar_end_alike(a, b, by, pos, end);
        assert(a.subrange(pos, end) =~= b.subrange(pos + by, end + by));
    }
}

/// The values of an array of like bytes are the same values.
pub proof fn lemma_elements_alike(a: Seq<u8>, b: Seq<u8>, by: int, pos: int)
    requires
        elements_at(a, pos) is Some,
        alike(a, b, by, pos, elements_at(a, pos).unwrap().1),
    ensures
        elements_at(b, pos + by) == Some(
            (elements_at(a, pos).unwrap().0, elements_at(a, pos).unwrap().1 + by),
        ),
    decreases a.len() - pos, 1nat,
{
    let end = elements_at(a, pos).unwrap().1;
    let value_end = value_at(a, pos).unwrap().1;
    let next = skip_whitespace(a, value_end);
    lemma_elements_bounds(a, pos);
    lemma_value_bounds(a, pos);
    lemma_skip_whitespace(a, value_end);
    if a[next] == COMMA {
        lemma_skip_whitespace(a, next + 1);
        lemma_elements_bounds(a, skip_whitespace(a, next + 1));
    }
    assert(next < end);
    if is_scalar_byte(a[pos]) {
        lemma_scalar_end(a, pos + 1);
        assert(!is_scalar_byte(a[value_end]));
    }
    lemma_value_alike(a, b, by, pos);
    lemma_skip_whitespace_alike(a, b, by, value_end, end);
    if a[next] == COMMA {
        let following = skip_whitespace(a, next + 1);
        lemma_skip_whitespace(a, next + 1);
        lemma_skip_whitespace_alike(a, b, by, next + 1, end);
        lemma_elements_alike(a, b, by, following);
    }
}

/// The members of an object of like bytes are the same members.
pub proof fn lemma_members_alike(a: Seq<u8>, b: Seq<u8>, by: int, pos: int)
    requires
        members_at(a, pos) is Some,
        alike(a, b, by, pos, members_at(a, pos).unwrap().1),
    ensures
        members_at(b, pos + by) == Some(
            (members_at(a, pos).unwrap().0, members_at(a, pos).unwrap().1 + by),
        ),
    decreases a.len() - pos, 1nat,
{
    let end = members_at(a, pos).unwrap().1;
    let value_start = key_at(a, pos).unwrap().1;
    let value_end = value_at(a, value_start).unwrap().1;
    let next = skip_whitespace(a, value_end);
    lemma_members_bounds(a, pos);
    lemma_key_bounds(a, pos);
    lemma_value_bounds(a, value_start);
    lemma_skip_whitespace(a, value_end);
    if a[next] == COMMA {
        lemma_skip_whitespace(a, next + 1);
        lemma_members_bounds(a, skip_whitespace(a, next + 1));
    }
    assert(next < end);
    lemma_key_alike(a, b, by, pos, end);
    if is_scalar_byte(a[value_start]) {
        lemma_scalar_end(a, value_start + 1);
        assert(!is_scalar_byte(a[value_end]));
    }
    lemma_value_alike(a, b, by, value_start);
    lemma_skip_whitespace_alike(a, b, by, value_end, end);
    if a[next] == COMMA {
        let following = skip_whitespace(a, next + 1);
        lemma_skip_whitespace(a, next + 1);
        lemma_skip_whitespace_alike(a, b, by, next + 1, end);
        lemma_members_alike(a, b, by, following);
    }
}

/// The bytes of a value, taken by themselves, are read as that value: what
/// stands at `pos` of `buf` and ends at `end` is what stands at index 0 of the
/// bytes of `buf` from `pos` up to `end`, and there it ends with the bytes.
pub proof fn lemma_value_alone(buf: Seq<u8>, pos: int)
    requires
        value_at(buf, pos) is Some,
    ensures
        value_at(buf.subrange(pos, value_at(buf, pos).unwrap().1), 0) == Some(
            (value_at(buf, pos).unwrap().0, value_at(buf, pos).unwrap().1 - pos),
        ),
{
    let end = value_at(buf, pos).unwrap().1;
    lemma_value_bounds(buf, pos);
    let part = buf.subrange(pos, end);
    assert(alike(buf, part, -pos, pos, end));
    lemma_value_alike(buf, part, -pos, pos);
}

} // verus!
