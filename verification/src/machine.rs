//! The state machine that finds the objects of an array.
//!
//! The machine reads the bytes behind an opening `[` one at a time. It knows
//! whether it is inside a string, whether the byte before was an escaping
//! backslash, and how many braces are open; from that alone it tells where each
//! object of the array starts and ends, and where the array closes.

use vstd::prelude::*;

verus! {

/// The byte `"`.
pub const QUOTE: u8 = 0x22;

/// The byte `\`.
pub const BACKSLASH: u8 = 0x5c;

/// The byte `{`.
pub const OPEN_BRACE: u8 = 0x7b;

/// The byte `}`.
pub const CLOSE_BRACE: u8 = 0x7d;

/// The byte `]`.
pub const CLOSE_BRACKET: u8 = 0x5d;

/// The state of a scan as a mathematical value.
pub struct Machine {
    /// Open braces minus closed ones, counted from the start of the array body.
    pub depth: int,
    /// An opening quote was read and its closing quote was not.
    pub in_string: bool,
    /// The byte before was a backslash that escapes the next byte.
    pub escape_pending: bool,
    /// Where the object that is open at depth 0 began.
    pub current_start: Option<int>,
}

impl Machine {
    /// The state just behind the opening `[`.
    pub open spec fn initial() -> Machine {
        Machine { depth: 0, in_string: false, escape_pending: false, current_start: None }
    }

    /// In this state `byte` is read as structure: it is not escaped, not a
    /// backslash, not a quote and not inside a string.
    pub open spec fn reads_structure(self, byte: u8) -> bool {
        !self.escape_pending && byte != BACKSLASH && byte != QUOTE && !self.in_string
    }

    /// In this state `byte` closes the array and ends the scan.
    pub open spec fn halts(self, byte: u8) -> bool {
        self.reads_structure(byte) && byte == CLOSE_BRACKET && self.depth == 0
    }

    /// The range that reading `byte` at `offset` completes, if it completes one.
    pub open spec fn emits(self, byte: u8, offset: int) -> Option<(int, int)> {
        if self.reads_structure(byte) && byte == CLOSE_BRACE && self.depth == 1 {
            match self.current_start {
                Some(start) => Some((start, offset + 1)),
                None => None,
            }
        } else {
            None
        }
    }

    /// The state after reading `byte` at `offset`.
    pub open spec fn step(self, byte: u8, offset: int) -> Machine {
        if self.escape_pending {
            Machine { escape_pending: false, ..self }
        } else if byte == BACKSLASH {
            Machine { escape_pending: true, ..self }
        } else if byte == QUOTE {
            Machine { in_string: !self.in_string, ..self }
        } else if self.in_string {
            self
        } else if byte == OPEN_BRACE {
            Machine {
                depth: self.depth + 1,
                current_start: if self.depth == 0 {
                    Some(offset)
                } else {
                    self.current_start
                },
                ..self
            }
        } else if byte == CLOSE_BRACE {
            Machine {
                depth: self.depth - 1,
                current_start: if self.depth == 1 {
                    None
                } else {
                    self.current_start
                },
                ..self
            }
        } else {
            self
        }
    }
}

/// Inside a string no byte is read as structure: whatever the byte is, a brace
/// or a bracket too, it moves neither the depth nor the open object, completes
/// no range and does not end the scan; and only a quote that is not escaped
/// ends the string.
pub proof fn lemma_string_bytes_are_inert(m: Machine, byte: u8, offset: int)
    requires
        m.in_string,
    ensures
        m.step(byte, offset).depth == m.depth,
        m.step(byte, offset).current_start == m.current_start,
        m.emits(byte, offset) is None,
        !m.halts(byte),
        m.step(byte, offset).in_string <==> !(byte == QUOTE && !m.escape_pending),
{
}

/// The ranges that the machine completes when it reads `buf` from index `pos`
/// on, starting in state `m`, until it halts or the buffer ends.
pub open spec fn scan_from(buf: Seq<u8>, pos: int, m: Machine) -> Seq<(int, int)>
    decreases buf.len() - pos,
{
    if pos < 0 || pos >= buf.len() {
        Seq::empty()
    } else if m.halts(buf[pos]) {
        Seq::empty()
    } else {
        let rest = scan_from(buf, pos + 1, m.step(buf[pos], pos));
        match m.emits(buf[pos], pos) {
            Some(range) => seq![range] + rest,
            None => rest,
        }
    }
}

/// The ranges of the objects of the array whose body starts at `start`.
pub open spec fn objects_from(buf: Seq<u8>, start: int) -> Seq<(int, int)> {
    scan_from(buf, start, Machine::initial())
}

/// Ranges of 64-bit offsets as pairs of integers.
pub open spec fn as_spans(ranges: Seq<(u64, u64)>) -> Seq<(int, int)> {
    ranges.map_values(|r: (u64, u64)| (r.0 as int, r.1 as int))
}

/// Every range of `spans` moved up by `by`.
pub open spec fn shifted(spans: Seq<(int, int)>, by: int) -> Seq<(int, int)> {
    spans.map_values(|r: (int, int)| (r.0 + by, r.1 + by))
}

/// What reading one byte asks of the caller.
#[derive(Clone, Copy, Debug, PartialEq, Eq)]
pub enum Action {
    /// Nothing: read the next byte.
    Continue,
    /// An object is complete: it spans the bytes from the first index up to,
    /// not including, the second.
    Emit(usize, usize),
    /// The array is closed: read no further.
    Stop,
}

/// The state of a scan.
#[derive(Clone, Copy, Debug)]
pub struct Scanner {
    /// Open braces minus closed ones.
    pub depth: i128,
    /// Inside a string.
    pub in_string: bool,
    /// The next byte is escaped.
    pub escape_pending: bool,
    /// Where the object that is open at depth 0 began.
    pub current_start: Option<usize>,
}

impl View for Scanner {
    type V = Machine;

    open spec fn view(&self) -> Machine {
        Machine {
            depth: self.depth as int,
            in_string: self.in_string,
            escape_pending: self.escape_pending,
            current_start: match self.current_start {
                Some(start) => Some(start as int),
                None => None,
            },
        }
    }
}

impl Scanner {
    /// The scanner just behind the opening `[`.
    pub fn new() -> (scanner: Scanner)
        ensures
            scanner@ == Machine::initial(),
    {
        Scanner { depth: 0, in_string: false, escape_pending: false, current_start: None }
    }

    /// Reads `byte`, which stands at `offset`.
    pub fn step(&mut self, byte: u8, offset: usize) -> (action: Action)
        requires
            i128::MIN < old(self).depth < i128::MAX,
            offset < usize::MAX,
        ensures
            final(self)@ == old(self)@.step(byte, offset as int),
            match action {
                Action::Stop => old(self)@.halts(byte),
                Action::Emit(start, end) => old(self)@.emits(byte, offset as int) == Some(
                    (start as int, end as int),
                ),
                Action::Continue => !old(self)@.halts(byte) && old(self)@.emits(
                    byte,
                    offset as int,
                ).is_none(),
            },
    {
        if self.escape_pending {
            self.escape_pending = false;
            return Action::Continue;
        }
        if byte == BACKSLASH {
            self.escape_pending = true;
            return Action::Continue;
        }
        if byte == QUOTE {
            self.in_string = !self.in_string;
            return Action::Continue;
        }
        if self.in_string {
            return Action::Continue;
        }
        if byte == OPEN_BRACE {
            if self.depth == 0 {
                self.current_start = Some(offset);
            }
            self.depth = self.depth + 1;
            Action::Continue
        } else if byte == CLOSE_BRACE {
            self.depth = self.depth - 1;
            if self.depth == 0 {
                match self.current_start {
                    Some(start) => {
                        self.current_start = None;
                        Action::Emit(start, offset + 1)
                    },
                    None => Action::Continue,
                }
            } else {
                Action::Continue
            }
        } else if byte == CLOSE_BRACKET && self.depth == 0 {
            Action::Stop
        } else {
            Action::Continue
        }
    }
}

} // verus!
