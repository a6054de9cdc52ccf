//! Mathematical model of the line scanner.
//!
//! A scan starts at a cursor, skips leading separators, then consumes the
//! maximal run of bytes the predicate accepts. The functions here define
//! where each of those steps lands on the line's byte sequence; the
//! executable scanner in `line` is proved against them.

use vstd::prelude::*;
use crate::predicates::{
    digit_or_none_continues, is_addr_byte, is_digit_byte, is_digit_dot_byte,
    is_digit_dot_minus_byte, is_non_space_byte, Pred,
};

verus! {

/// First position at or after `i` whose byte is not `b` (the end of the
/// run of `b` starting at `i`), or the end of the line.
pub open spec fn skip_run(s: Seq<u8>, i: int, b: u8) -> int
    decreases s.len() - i,
{
    if i < s.len() && 0 <= i && s[i] == b {
        skip_run(s, i + 1, b)
    } else {
        i
    }
}

/// Like `skip_run`, but never past `end`.
pub open spec fn skip_run_upto(s: Seq<u8>, i: int, end: int, b: u8) -> int
    decreases end - i,
{
    if i < end && 0 <= i && i < s.len() && s[i] == b {
        skip_run_upto(s, i + 1, end, b)
    } else {
        i
    }
}

/// Number of occurrences of `b` in `s[start..end]`.
pub open spec fn count_byte(s: Seq<u8>, b: u8, start: int, end: int) -> int
    decreases end - start,
{
    if start < end {
        count_byte(s, b, start, end - 1) + if 0 <= end - 1 < s.len() && s[end - 1] == b {
            1int
        } else {
            0int
        }
    } else {
        0
    }
}

/// The byte before position `j`, or 0 at the line start.
pub open spec fn prev_byte(s: Seq<u8>, j: int) -> u8 {
    if j > 0 {
        s[j - 1]
    } else {
        0
    }
}

/// The byte after position `j`, or 0 at the line end.
pub open spec fn next_byte(s: Seq<u8>, j: int) -> u8 {
    if j + 1 < s.len() {
        s[j + 1]
    } else {
        0
    }
}

/// Whether a scan that began at `start` continues over the byte at `j`.
/// For the stateful predicates the counter value is determined by the
/// stretch `[start, j)` already scanned, so only the variant matters here.
pub open spec fn pred_cont(p: Pred, s: Seq<u8>, start: int, j: int) -> bool {
    match p {
        Pred::Digits => is_digit_byte(s[j]),
        Pred::DigitsDot => is_digit_dot_byte(s[j]),
        Pred::AddressChars => is_addr_byte(s[j]),
        Pred::DigitsDotMinus => is_digit_dot_minus_byte(s[j]),
        Pred::DigitOrNoneEnd => digit_or_none_continues(s[j], prev_byte(s, j)),
        Pred::NonSpace => is_non_space_byte(s[j]),
        Pred::BracketClose => !(s[j] == 93 && next_byte(s, j) == 32),
        Pred::QuoteEnd { .. } => !(s[j] == 34 && count_byte(s, 34, start, j) >= 1),
        Pred::ReqLineEnd { .. } => !((s[j] == 34 && next_byte(s, j) == 32 && (prev_byte(s, j)
            == 48 || prev_byte(s, j) == 49)) || (s[j] == 32 && count_byte(s, 32, start, j) >= 2)),
    }
}

/// First position at or after `j` where a scan begun at `start` stops, or
/// the end of the line.
pub open spec fn scan_stop(p: Pred, s: Seq<u8>, start: int, j: int) -> int
    decreases s.len() - j,
{
    if j < s.len() {
        if pred_cont(p, s, start, j) {
            scan_stop(p, s, start, j + 1)
        } else {
            j
        }
    } else {
        j
    }
}

/// Where a scan begun at `start` stops.
pub open spec fn scan_end(p: Pred, s: Seq<u8>, start: int) -> int {
    scan_stop(p, s, start, start)
}

/// First position at or after `i` holding `b`, or the end of the line.
pub open spec fn find_byte(s: Seq<u8>, i: int, b: u8) -> int
    decreases s.len() - i,
{
    if i < s.len() {
        if 0 <= i && s[i] == b {
            i
        } else {
            find_byte(s, i + 1, b)
        }
    } else {
        i
    }
}

/// A field extracted by a plain predicate scan: skip leading spaces, take
/// the maximal run the predicate accepts, then skip trailing spaces. Yields
/// the captured bytes and the new cursor; `None` when not a single byte is
/// accepted at the start position.
pub open spec fn extract_with(p: Pred, s: Seq<u8>, i0: int) -> Option<(Seq<u8>, int)> {
    let st = skip_run(s, i0, 32);
    let e = scan_end(p, s, st);
    if e == st {
        None
    } else {
        Some(
            (
                s.subrange(st, e),
                if e < s.len() {
                    skip_run(s, e + 1, 32)
                } else {
                    e
                },
            ),
        )
    }
}

/// The user field: a leading run of `'-'` at the cursor is stripped, then
/// the next space-free token is extracted.
pub open spec fn extract_user(s: Seq<u8>, i0: int) -> Option<(Seq<u8>, int)> {
    extract_with(Pred::NonSpace, s, skip_run(s, i0, 45))
}

/// The bracketed timestamp field: skip spaces and leading `'['`, scan up to
/// (not including) a `']'` followed by a space, then skip trailing `']'`
/// and spaces. The boundary `']'` is consumed but not captured.
pub open spec fn extract_bracket(s: Seq<u8>, i0: int) -> Option<(Seq<u8>, int)> {
    let st = skip_run(s, skip_run(s, i0, 32), 91);
    let e = scan_end(Pred::BracketClose, s, st);
    if e == st {
        None
    } else {
        Some(
            (
                s.subrange(st, e),
                if e < s.len() {
                    skip_run(s, skip_run(s, e + 1, 93), 32)
                } else {
                    e
                },
            ),
        )
    }
}

/// A quoted field: skip leading spaces, scan with the given stateful
/// predicate, strip leading `'"'` from the capture, consume the boundary
/// byte, then skip trailing spaces.
pub open spec fn extract_quoted(p: Pred, s: Seq<u8>, i0: int) -> Option<(Seq<u8>, int)> {
    let st = skip_run(s, i0, 32);
    let e = scan_end(p, s, st);
    if e == st {
        None
    } else {
        Some(
            (
                s.subrange(skip_run_upto(s, st, e, 34), e),
                if e < s.len() {
                    skip_run(s, e + 1, 32)
                } else {
                    e
                },
            ),
        )
    }
}

/// A field wrapped in a `left`/`right` delimiter pair: skip spaces, expect
/// `left`, capture up to the first `right`, consume it. `None` when `left`
/// is absent at the cursor or `right` never follows.
pub open spec fn extract_wrap(s: Seq<u8>, i0: int, left: u8, right: u8) -> Option<
    (Seq<u8>, int),
> {
    let st = skip_run(s, i0, 32);
    if st < s.len() && s[st] == left {
        let e = find_byte(s, st + 1, right);
        if e < s.len() {
            Some((s.subrange(st + 1, e), e + 1))
        } else {
            None
        }
    } else {
        None
    }
}

/// `skip_run` stays between its start and the end of the line, covers only
/// bytes equal to `b`, and stops at the first other byte.
pub proof fn lemma_skip_run(s: Seq<u8>, i: int, b: u8)
    requires
        0 <= i <= s.len(),
    ensures
        i <= skip_run(s, i, b) <= s.len(),
        forall|k: int| i <= k < skip_run(s, i, b) ==> s[k] == b,
        skip_run(s, i, b) < s.len() ==> s[skip_run(s, i, b)] != b,
    decreases s.len() - i,
{
    if i < s.len() && s[i] == b {
        lemma_skip_run(s, i + 1, b);
    }
}

/// The scan stop lies between its start and the end of the line, the
/// predicate holds on everything before it, and fails on it unless the
/// line ended first.
pub proof fn lemma_scan_stop(p: Pred, s: Seq<u8>, start: int, j: int)
    requires
        0 <= j <= s.len(),
    ensures
        j <= scan_stop(p, s, start, j) <= s.len(),
        forall|k: int| j <= k < scan_stop(p, s, start, j) ==> pred_cont(p, s, start, k),
        scan_stop(p, s, start, j) < s.len() ==> !pred_cont(p, s, start, scan_stop(p, s, start, j)),
    decreases s.len() - j,
{
    if j < s.len() && pred_cont(p, s, start, j) {
        lemma_scan_stop(p, s, start, j + 1);
    }
}

/// A position on which the predicate fails, preceded only by positions on
/// which it holds, is exactly where the scan stops.
pub proof fn lemma_scan_stop_at(p: Pred, s: Seq<u8>, start: int, j: int, e: int)
    requires
        0 <= j <= e <= s.len(),
        forall|k: int| j <= k < e ==> pred_cont(p, s, start, k),
        e == s.len() || !pred_cont(p, s, start, e),
    ensures
        scan_stop(p, s, start, j) == e,
    decreases e - j,
{
    if j < e {
        assert(pred_cont(p, s, start, j));
        lemma_scan_stop_at(p, s, start, j + 1, e);
    }
}

} // verus!
