//! What holds of the ranges that a scan yields, whatever the buffer holds.

use crate::machine::{objects_from, scan_from, shifted, Machine, CLOSE_BRACE, OPEN_BRACE};
use vstd::prelude::*;

verus! {

/// `span` lies in `buf`, is not empty, starts with `{` and ends with `}`.
pub open spec fn is_braced(buf: Seq<u8>, span: (int, int)) -> bool {
    &&& 0 <= span.0 < span.1 <= buf.len()
    &&& buf[span.0] == OPEN_BRACE
    &&& buf[span.1 - 1] == CLOSE_BRACE
}

/// Each range of `spans` ends before the next one starts.
pub open spec fn in_order(spans: Seq<(int, int)>) -> bool {
    forall|i: int, j: int| 0 <= i < j < spans.len() ==> (#[trigger] spans[i]).1 <= (#[trigger] spans[j]).0
}

/// Every range of `spans` lies between `low` and `high`.
pub open spec fn all_within(spans: Seq<(int, int)>, low: int, high: int) -> bool {
    forall|i: int| 0 <= i < spans.len() ==> low <= (#[trigger] spans[i]).0 && spans[i].1 <= high
}

/// Every range of `spans` is a braced span of `buf`.
pub open spec fn all_braced(buf: Seq<u8>, spans: Seq<(int, int)>) -> bool {
    forall|i: int| 0 <= i < spans.len() ==> is_braced(buf, #[trigger] spans[i])
}

/// State `m` can be the state of a scan of `buf` whose next byte is at `pos`:
/// an object is open exactly when the depth is positive, and it began with a
/// `{` before `pos`.
pub open spec fn consistent(m: Machine, buf: Seq<u8>, pos: int) -> bool {
    match m.current_start {
        Some(start) => 0 <= start < pos && m.depth >= 1 && buf[start] == OPEN_BRACE,
        None => m.depth <= 0,
    }
}

/// A step from a consistent state leads to a consistent state.
pub proof fn lemma_step_consistent(m: Machine, buf: Seq<u8>, pos: int)
    requires
        0 <= pos < buf.len(),
        consistent(m, buf, pos),
    ensures
        consistent(m.step(buf[pos], pos), buf, pos + 1),
{
}

/// The ranges that a scan yields from a consistent state: braced spans of the
/// buffer, in order, each ending behind `pos`; the first is the object that was
/// open at `pos`, if one was, and all others start at or after `pos`.
pub proof fn lemma_scan_from_spans(buf: Seq<u8>, pos: int, m: Machine)
    requires
        0 <= pos,
        consistent(m, buf, pos),
    ensures
        all_braced(buf, scan_from(buf, pos, m)),
        in_order(scan_from(buf, pos, m)),
        forall|i: int|
            0 <= i < scan_from(buf, pos, m).len() ==> pos < (#[trigger] scan_from(buf, pos, m)[i]).1,
        forall|i: int|
            1 <= i < scan_from(buf, pos, m).len() ==> pos <= (#[trigger] scan_from(buf, pos, m)[i]).0,
        scan_from(buf, pos, m).len() > 0 ==> match m.current_start {
            Some(start) => scan_from(buf, pos, m)[0].0 == start,
            None => pos <= scan_from(buf, pos, m)[0].0,
        },
    decreases buf.len() - pos,
{
    if pos < buf.len() && !m.halts(buf[pos]) {
        let next = m.step(buf[pos], pos);
        let rest = scan_from(buf, pos + 1, next);
        lemma_step_consistent(m, buf, pos);
        lemma_scan_from_spans(buf, pos + 1, next);
        let all = scan_from(buf, pos, m);
        match m.emits(buf[pos], pos) {
            Some(range) => {
                assert(all =~= seq![range] + rest);
                assert(is_braced(buf, range));
                assert forall|i: int| 0 <= i < all.len() implies is_braced(buf, #[trigger] all[i]) by {
                    if i > 0 {
                        assert(all[i] == rest[i - 1]);
                    }
                }
                assert forall|i: int, j: int| 0 <= i < j < all.len() implies (#[trigger] all[i]).1 <= (
                #[trigger] all[j]).0 by {
                    assert(all[j] == rest[j - 1]);
                    if i > 0 {
                        assert(all[i] == rest[i - 1]);
                    }
                }
                assert forall|i: int| 0 <= i < all.len() implies pos < (#[trigger] all[i]).1 by {
                    if i > 0 {
                        assert(all[i] == rest[i - 1]);
                    }
                }
                assert forall|i: int| 1 <= i < all.len() implies pos <= (#[trigger] all[i]).0 by {
                    assert(all[i] == rest[i - 1]);
                }
            },
            None => {
                assert(all =~= rest);
            },
        }
    }
}

/// The ranges of the objects of an array are braced spans of the buffer, in
/// order, none starting before the body of the array.
pub proof fn lemma_objects_from_spans(buf: Seq<u8>, start: int)
    ensures
        all_braced(buf, objects_from(buf, start)),
        in_order(objects_from(buf, start)),
        all_within(objects_from(buf, start), start, buf.len() as int),
{
    if 0 <= start {
        lemma_scan_from_spans(buf, start, Machine::initial());
        let all = objects_from(buf, start);
        assert forall|i: int| 0 <= i < all.len() implies start <= (#[trigger] all[i]).0 && all[i].1
            <= buf.len() by {
            assert(is_braced(buf, all[i]));
        }
    }
}

/// Moving ranges by 0 leaves them as they are.
pub proof fn lemma_shifted_by_zero(spans: Seq<(int, int)>)
    ensures
        shifted(spans, 0) == spans,
{
    assert(shifted(spans, 0) =~= spans);
}

/// Ranges of a part of a buffer, moved up by the place of the part, are ranges
/// of the buffer: braced in it as they were in the part, in the same order, and
/// inside the part.
pub proof fn lemma_shifted_spans(buf: Seq<u8>, low: int, high: int, spans: Seq<(int, int)>)
    requires
        0 <= low <= high <= buf.len(),
        all_braced(buf.subrange(low, high), spans),
        in_order(spans),
    ensures
        all_braced(buf, shifted(spans, low)),
        in_order(shifted(spans, low)),
        all_within(shifted(spans, low), low, high),
{
    let part = buf.subrange(low, high);
    let moved = shifted(spans, low);
    assert forall|i: int| 0 <= i < moved.len() implies is_braced(buf, #[trigger] moved[i]) && low
        <= moved[i].0 && moved[i].1 <= high by {
        assert(is_braced(part, spans[i]));
        assert(part[spans[i].0] == buf[low + spans[i].0]);
        assert(part[spans[i].1 - 1] == buf[low + spans[i].1 - 1]);
    }
    assert forall|i: int, j: int| 0 <= i < j < moved.len() implies (#[trigger] moved[i]).1 <= (
    #[trigger] moved[j]).0 by {
        assert(spans[i].1 <= spans[j].0);
    }
}

} // verus!
