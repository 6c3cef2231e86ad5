//! The grammar of JSON texts, as far as a scan depends on it.
//!
//! `value_at` reads one JSON value from a buffer and tells what it holds and
//! where it ends. The grammar is wider than JSON in what it takes for a number
//! or a name (`true`, `null`) and for an escape inside a string: any run of
//! bytes without structure is a scalar, and a backslash escapes whatever byte
//! follows it. So every JSON text is read by it, as the value that it denotes.

use crate::machine::{BACKSLASH, CLOSE_BRACE, CLOSE_BRACKET, OPEN_BRACE, QUOTE};
use crate::anchor::OPEN_BRACKET;
use vstd::prelude::*;

verus! {

/// The byte `,`.
pub const COMMA: u8 = 0x2c;

/// The byte `:`.
pub const COLON: u8 = 0x3a;

/// A JSON value, with its strings and scalars as they are written.
pub enum Json {
    /// A number, `true`, `false` or `null`: the bytes of the token.
    Scalar(Seq<u8>),
    /// A string: the bytes between its quotes, escapes not resolved.
    Text(Seq<u8>),
    /// An array: its values in order.
    Array(Seq<Json>),
    /// An object: its keys, each as the bytes between its quotes, with their
    /// values, in order.
    Object(Seq<(Seq<u8>, Json)>),
}

/// Space, tab, line feed or carriage return.
pub open spec fn is_whitespace(byte: u8) -> bool {
    byte == 0x20 || byte == 0x09 || byte == 0x0a || byte == 0x0d
}

/// A byte that can stand in a number or a name: no whitespace, quote,
/// backslash, comma, colon, brace or bracket.
pub open spec fn is_scalar_byte(byte: u8) -> bool {
    &&& !is_whitespace(byte)
    &&& byte != QUOTE
    &&& byte != BACKSLASH
    &&& byte != COMMA
    &&& byte != COLON
    &&& byte != OPEN_BRACE
    &&& byte != CLOSE_BRACE
    &&& byte != OPEN_BRACKET
    &&& byte != CLOSE_BRACKET
}

/// The first index at or after `pos` that holds no whitespace.
pub open spec fn skip_whitespace(buf: Seq<u8>, pos: int) -> int
    decreases buf.len() - pos,
{
    if 0 <= pos < buf.len() && is_whitespace(buf[pos]) {
        skip_whitespace(buf, pos + 1)
    } else {
        pos
    }
}

/// The first index at or after `pos` that holds no scalar byte.
pub open spec fn scalar_end(buf: Seq<u8>, pos: int) -> int
    decreases buf.len() - pos,
{
    if 0 <= pos < buf.len() && is_scalar_byte(buf[pos]) {
        scalar_end(buf, pos + 1)
    } else {
        pos
    }
}

/// Where the string ends whose content starts at `pos`: the index behind its
/// closing quote, the first quote at or after `pos` that no backslash escapes.
pub open spec fn string_end(buf: Seq<u8>, pos: int) -> Option<int>
    decreases buf.len() - pos,
{
    if pos < 0 || pos >= buf.len() {
        None
    } else if buf[pos] == QUOTE {
        Some(pos + 1)
    } else if buf[pos] == BACKSLASH {
        if pos + 1 < buf.len() {
            string_end(buf, pos + 2)
        } else {
            None
        }
    } else {
        string_end(buf, pos + 1)
    }
}

/// The key that starts at `pos` and the index at which its value starts: a
/// string, then a colon, with whitespace around the colon as it comes.
pub open spec fn key_at(buf: Seq<u8>, pos: int) -> Option<(Seq<u8>, int)> {
    if pos < 0 || pos >= buf.len() || buf[pos] != QUOTE {
        None
    } else {
        match string_end(buf, pos + 1) {
            None => None,
            Some(key_end) => {
                let colon = skip_whitespace(buf, key_end);
                if 0 <= colon < buf.len() && buf[colon] == COLON {
                    Some((buf.subrange(pos + 1, key_end - 1), skip_whitespace(buf, colon + 1)))
                } else {
                    None
                }
            },
        }
    }
}

/// The value that starts at `pos`, and the index behind its last byte.
pub open spec fn value_at(buf: Seq<u8>, pos: int) -> Option<(Json, int)>
    decreases buf.len() - pos, 0nat,
{
    if pos < 0 || pos >= buf.len() {
        None
    } else if buf[pos] == OPEN_BRACE {
        let first = skip_whitespace(buf, pos + 1);
        if first >= buf.len() {
            None
        } else if buf[first] == CLOSE_BRACE {
            Some((Json::Object(Seq::empty()), first + 1))
        } else {
            proof {
                lemma_skip_whitespace(buf, pos + 1);
            }
            match members_at(buf, first) {
                Some((members, end)) => Some((Json::Object(members), end)),
                None => None,
            }
        }
    } else if buf[pos] == OPEN_BRACKET {
        let first = skip_whitespace(buf, pos + 1);
        if first >= buf.len() {
            None
        } else if buf[first] == CLOSE_BRACKET {
            Some((Json::Array(Seq::empty()), first + 1))
        } else {
            proof {
                lemma_skip_whitespace(buf, pos + 1);
            }
            match elements_at(buf, first) {
                Some((elements, end)) => Some((Json::Array(elements), end)),
                None => None,
            }
        }
    } else if buf[pos] == QUOTE {
        match string_end(buf, pos + 1) {
            Some(end) => Some((Json::Text(buf.subrange(pos + 1, end - 1)), end)),
            None => None,
        }
    } else if is_scalar_byte(buf[pos]) {
        Some((Json::Scalar(buf.subrange(pos, scalar_end(buf, pos))), scalar_end(buf, pos)))
    } else {
        None
    }
}

/// A value that starts at `pos` and ends at `end` is not empty and lies in
/// `buf`. This holds of every value that `value_at` reads; `elements_at` and
/// `members_at` ask for it so that they visibly move forward.
pub open spec fn moves_forward(buf: Seq<u8>, pos: int, end: int) -> bool {
    0 <= pos < end <= buf.len()
}

/// The values of an array from the one that starts at `pos` on, and the index
/// behind the `]` that closes the array.
pub open spec fn elements_at(buf: Seq<u8>, pos: int) -> Option<(Seq<Json>, int)>
    decreases buf.len() - pos, 1nat,
{
    match value_at(buf, pos) {
        None => None,
        Some((value, value_end)) => {
            let next = skip_whitespace(buf, value_end);
            if !moves_forward(buf, pos, value_end) || next >= buf.len() {
                None
            } else if buf[next] == CLOSE_BRACKET {
                Some((seq![value], next + 1))
            } else if buf[next] == COMMA {
                proof {
                    lemma_skip_whitespace(buf, value_end);
                    lemma_skip_whitespace(buf, next + 1);
                }
                match elements_at(buf, skip_whitespace(buf, next + 1)) {
                    Some((others, end)) => Some((seq![value] + others, end)),
                    None => None,
                }
            } else {
                None
            }
        },
    }
}

/// The members of an object from the one whose key starts at `pos` on, and the
/// index behind the `}` that closes the object.
pub open spec fn members_at(buf: Seq<u8>, pos: int) -> Option<(Seq<(Seq<u8>, Json)>, int)>
    decreases buf.len() - pos, 1nat,
{
    match key_at(buf, pos) {
        None => None,
        Some((key, value_start)) => {
            proof {
                lemma_key_bounds(buf, pos);
            }
            match value_at(buf, value_start) {
                None => None,
                Some((value, value_end)) => {
                    let next = skip_whitespace(buf, value_end);
                    if !moves_forward(buf, value_start, value_end) || next >= buf.len() {
                        None
                    } else if buf[next] == CLOSE_BRACE {
                        Some((seq![(key, value)], next + 1))
                    } else if buf[next] == COMMA {
                        proof {
                            lemma_skip_whitespace(buf, value_end);
                            lemma_skip_whitespace(buf, next + 1);
                        }
                        match members_at(buf, skip_whitespace(buf, next + 1)) {
                            Some((others, end)) => Some((seq![(key, value)] + others, end)),
                            None => None,
                        }
                    } else {
                        None
                    }
                },
            }
        },
    }
}

/// Whitespace is skipped forward, never beyond the end of the buffer, and up
/// to a byte that is no whitespace.
pub proof fn lemma_skip_whitespace(buf: Seq<u8>, pos: int)
    ensures
        pos <= skip_whitespace(buf, pos),
        pos <= buf.len() ==> skip_whitespace(buf, pos) <= buf.len(),
        0 <= pos && skip_whitespace(buf, pos) < buf.len() ==> !is_whitespace(
            buf[skip_whitespace(buf, pos)],
        ),
        forall|k: int| pos <= k < skip_whitespace(buf, pos) ==> is_whitespace(#[trigger] buf[k]),
    decreases buf.len() - pos,
{
    if 0 <= pos < buf.len() && is_whitespace(buf[pos]) {
        lemma_skip_whitespace(buf, pos + 1);
    }
}

/// A scalar ends at or behind its start, never beyond the end of the buffer,
/// and at a byte that is no scalar byte.
pub proof fn lemma_scalar_end(buf: Seq<u8>, pos: int)
    ensures
        pos <= scalar_end(buf, pos),
        pos <= buf.len() ==> scalar_end(buf, pos) <= buf.len(),
        0 <= pos && scalar_end(buf, pos) < buf.len() ==> !is_scalar_byte(
            buf[scalar_end(buf, pos)],
        ),
        forall|k: int| pos <= k < scalar_end(buf, pos) ==> is_scalar_byte(#[trigger] buf[k]),
    decreases buf.len() - pos,
{
    if 0 <= pos < buf.len() && is_scalar_byte(buf[pos]) {
        lemma_scalar_end(buf, pos + 1);
    }
}

/// A string ends behind a quote, inside the buffer.
pub proof fn lemma_string_end(buf: Seq<u8>, pos: int)
    requires
        string_end(buf, pos) is Some,
    ensures
        0 <= pos < string_end(buf, pos).unwrap() <= buf.len(),
        buf[string_end(buf, pos).unwrap() - 1] == QUOTE,
    decreases buf.len() - pos,
{
    if buf[pos] == QUOTE {
    } else if buf[pos] == BACKSLASH {
        lemma_string_end(buf, pos + 2);
    } else {
        lemma_string_end(buf, pos + 1);
    }
}

/// A key ends before its value starts, inside the buffer.
pub proof fn lemma_key_bounds(buf: Seq<u8>, pos: int)
    requires
        key_at(buf, pos) is Some,
    ensures
        0 <= pos < key_at(buf, pos).unwrap().1 <= buf.len(),
        pos + 1 < string_end(buf, pos + 1).unwrap() <= skip_whitespace(
            buf,
            string_end(buf, pos + 1).unwrap(),
        ) < key_at(buf, pos).unwrap().1,
{
    let key_end = string_end(buf, pos + 1).unwrap();
    lemma_string_end(buf, pos + 1);
    lemma_skip_whitespace(buf, key_end);
    lemma_skip_whitespace(buf, skip_whitespace(buf, key_end) + 1);
}

/// A value is not empty and ends inside the buffer.
pub proof fn lemma_value_bounds(buf: Seq<u8>, pos: int)
    requires
        value_at(buf, pos) is Some,
    ensures
        0 <= pos < value_at(buf, pos).unwrap().1 <= buf.len(),
    decreases buf.len() - pos, 0nat,
{
    if buf[pos] == OPEN_BRACE {
        let first = skip_whitespace(buf, pos + 1);
        lemma_skip_whitespace(buf, pos + 1);
        if buf[first] != CLOSE_BRACE {
            lemma_members_bounds(buf, first);
        }
    } else if buf[pos] == OPEN_BRACKET {
        let first = skip_whitespace(buf, pos + 1);
        lemma_skip_whitespace(buf, pos + 1);
        if buf[first] != CLOSE_BRACKET {
            lemma_elements_bounds(buf, first);
        }
    } else if buf[pos] == QUOTE {
        lemma_string_end(buf, pos + 1);
    } else {
        lemma_scalar_end(buf, pos + 1);
    }
}

/// The values of an array end, behind a `]`, inside the buffer.
pub proof fn lemma_elements_bounds(buf: Seq<u8>, pos: int)
    requires
        elements_at(buf, pos) is Some,
    ensures
        0 <= pos < elements_at(buf, pos).unwrap().1 <= buf.len(),
        buf[elements_at(buf, pos).unwrap().1 - 1] == CLOSE_BRACKET,
        elements_at(buf, pos).unwrap().0.len() > 0,
    decreases buf.len() - pos, 1nat,
{
    let value_end = value_at(buf, pos).unwrap().1;
    let next = skip_whitespace(buf, value_end);
    lemma_skip_whitespace(buf, value_end);
    if buf[next] == COMMA {
        lemma_skip_whitespace(buf, next + 1);
        lemma_elements_bounds(buf, skip_whitespace(buf, next + 1));
    }
}

/// The members of an object end, behind a `}`, inside the buffer.
pub proof fn lemma_members_bounds(buf: Seq<u8>, pos: int)
    requires
        members_at(buf, pos) is Some,
    ensures
        0 <= pos < members_at(buf, pos).unwrap().1 <= buf.len(),
        buf[members_at(buf, pos).unwrap().1 - 1] == CLOSE_BRACE,
        members_at(buf, pos).unwrap().0.len() > 0,
    decreases buf.len() - pos, 1nat,
{
    let value_start = key_at(buf, pos).unwrap().1;
    let value_end = value_at(buf, value_start).unwrap().1;
    let next = skip_whitespace(buf, value_end);
    lemma_key_bounds(buf, pos);
    lemma_skip_whitespace(buf, value_end);
    if buf[next] == COMMA {
        lemma_skip_whitespace(buf, next + 1);
        lemma_members_bounds(buf, skip_whitespace(buf, next + 1));
    }
}

} // verus!
