//! The line scanner and the nine field extractors.
//!
//! A `Line` owns a cursor over one log line's bytes. Each `parse_*` method
//! skips leading separators, consumes the maximal run its predicate accepts,
//! consumes the boundary byte (when the predicate stopped on one) and any
//! trailing separators, and hands back the captured bytes. A call that finds
//! no matching byte returns `None` and leaves the cursor where it was.

use vstd::prelude::*;
use vstd::string::StringSliceAdditionalSpecFns;
use crate::predicates::{pred_fresh, Pred};
use crate::scan::{
    count_byte, extract_bracket, extract_quoted, extract_user, extract_with, extract_wrap,
    find_byte, lemma_scan_stop_at, next_byte, pred_cont, prev_byte, scan_end, skip_run,
    skip_run_upto,
};

verus! {

/// Advance past the run of `b` starting at `i`.
fn skip_run_x(text: &[u8], i: usize, b: u8) -> (j: usize)
    requires
        i <= text@.len(),
    ensures
        i <= j <= text@.len(),
        j == skip_run(text@, i as int, b),
{
    let mut j = i;
    while j < text.len() && text[j] == b
        invariant
            i <= j <= text@.len(),
            skip_run(text@, i as int, b) == skip_run(text@, j as int, b),
        decreases text@.len() - j,
    {
        j = j + 1;
    }
    j
}

/// Advance past the run of `b` starting at `i`, but never past `end`.
fn skip_run_upto_x(text: &[u8], i: usize, end: usize, b: u8) -> (j: usize)
    requires
        i <= end <= text@.len(),
    ensures
        i <= j <= end,
        j == skip_run_upto(text@, i as int, end as int, b),
{
    let mut j = i;
    while j < end && text[j] == b
        invariant
            i <= j <= end <= text@.len(),
            skip_run_upto(text@, i as int, end as int, b) == skip_run_upto(
                text@,
                j as int,
                end as int,
                b,
            ),
        decreases end - j,
    {
        j = j + 1;
    }
    j
}

/// Position of the first `b` at or after `i`, or the length of the line.
fn find_byte_x(text: &[u8], i: usize, b: u8) -> (j: usize)
    requires
        i <= text@.len(),
    ensures
        i <= j <= text@.len(),
        j == find_byte(text@, i as int, b),
{
    let mut j = i;
    while j < text.len() && text[j] != b
        invariant
            i <= j <= text@.len(),
            find_byte(text@, i as int, b) == find_byte(text@, j as int, b),
        decreases text@.len() - j,
    {
        j = j + 1;
    }
    j
}

/// Copy `text[a..b]` into a fresh vector.
fn copy_range(text: &[u8], a: usize, b: usize) -> (v: Vec<u8>)
    requires
        a <= b <= text@.len(),
    ensures
        v@ == text@.subrange(a as int, b as int),
{
    let mut v: Vec<u8> = Vec::new();
    let mut k = a;
    while k < b
        invariant
            a <= k <= b <= text@.len(),
            v@ == text@.subrange(a as int, k as int),
        decreases b - k,
    {
        let x = text[k];
        v.push(x);
        k = k + 1;
        proof {
            assert(text@.subrange(a as int, k as int) =~= text@.subrange(a as int, k - 1).push(
                text@[k - 1],
            ));
        }
    }
    v
}

/// Relates the predicate's counters to the stretch `[start, j)` already
/// scanned: each counter equals the count of its byte over that stretch.
spec fn ctr_inv(p: Pred, p0: Pred, s: Seq<u8>, start: int, j: int) -> bool {
    match p0 {
        Pred::QuoteEnd { .. } => p matches Pred::QuoteEnd { seen } && seen == count_byte(
            s,
            34,
            start,
            j,
        ) && seen <= 1,
        Pred::ReqLineEnd { .. } => p matches Pred::ReqLineEnd { spaces } && spaces == count_byte(
            s,
            32,
            start,
            j,
        ) && spaces <= 2,
        _ => p == p0,
    }
}

/// Run the predicate from `start` and report where the scan stops.
fn scan_x(text: &[u8], start: usize, cond: Pred) -> (e: usize)
    requires
        start <= text@.len(),
        pred_fresh(cond),
    ensures
        start <= e <= text@.len(),
        e == scan_end(cond, text@, start as int),
{
    let ghost s = text@;
    let ghost p0 = cond;
    let mut p = cond;
    let mut j = start;
    loop
        invariant
            start <= j <= s.len(),
            text@ == s,
            p0 == cond,
            forall|k: int| start <= k < j ==> pred_cont(p0, s, start as int, k),
            ctr_inv(p, p0, s, start as int, j as int),
        decreases s.len() - j,
    {
        if j == text.len() {
            proof {
                lemma_scan_stop_at(p0, s, start as int, start as int, j as int);
            }
            return j;
        }
        let x = text[j];
        let prev: u8 = if j > 0 {
            text[j - 1]
        } else {
            0
        };
        let next: u8 = if j + 1 < text.len() {
            text[j + 1]
        } else {
            0
        };
        let c = p.advance(x, prev, next);
        proof {
            assert(prev == prev_byte(s, j as int));
            assert(next == next_byte(s, j as int));
            assert(c == pred_cont(p0, s, start as int, j as int));
        }
        if !c {
            proof {
                lemma_scan_stop_at(p0, s, start as int, start as int, j as int);
            }
            return j;
        }
        j = j + 1;
    }
}

/// Cursor over one log line's bytes.
#[derive(Clone, Copy)]
pub struct Line<'a> {
    index: usize,
    text: &'a [u8],
}

impl<'a> Line<'a> {
    /// The line's bytes.
    pub closed spec fn bytes(self) -> Seq<u8> {
        self.text@
    }

    /// The cursor position.
    pub closed spec fn pos(self) -> int {
        self.index as int
    }

    /// The cursor never passes the end of the line.
    pub closed spec fn wf(self) -> bool {
        self.index <= self.text@.len()
    }

    /// A scanner over `text`, with the cursor at the line start.
    pub fn new(text: &'a str) -> (l: Line<'a>)
        ensures
            l.wf(),
            l.bytes() == text.spec_bytes(),
            l.pos() == 0,
    {
        Line { index: 0, text: text.as_bytes() }
    }

    /// Extract the next field the predicate accepts: skip leading spaces,
    /// capture the maximal accepted run, consume the boundary byte and
    /// trailing spaces. `None`, with the cursor untouched, when no byte is
    /// accepted at the start of the scan.
    pub fn parse_item_trim_space(&mut self, cond: Pred) -> (r: Option<Vec<u8>>)
        requires
            old(self).wf(),
            pred_fresh(cond),
        ensures
            final(self).wf(),
            final(self).bytes() == old(self).bytes(),
            match extract_with(cond, old(self).bytes(), old(self).pos()) {
                None => r is None && *final(self) == *old(self),
                Some(capcur) => r matches Some(v) && v@ == capcur.0 && final(self).pos()
                    == capcur.1,
            },
    {
        let st = skip_run_x(self.text, self.index, 32);
        let e = scan_x(self.text, st, cond);
        if e == st {
            return None;
        }
        let cap = copy_range(self.text, st, e);
        let ni = if e < self.text.len() {
            skip_run_x(self.text, e + 1, 32)
        } else {
            e
        };
        self.index = ni;
        Some(cap)
    }

    /// Extract the field between a `left` delimiter at the cursor (after
    /// spaces) and the first following `right` delimiter, consuming both.
    pub fn parse_item_wrap_string(&mut self, left: u8, right: u8) -> (r: Option<Vec<u8>>)
        requires
            old(self).wf(),
        ensures
            final(self).wf(),
            final(self).bytes() == old(self).bytes(),
            match extract_wrap(old(self).bytes(), old(self).pos(), left, right) {
                None => r is None && *final(self) == *old(self),
                Some(capcur) => r matches Some(v) && v@ == capcur.0 && final(self).pos()
                    == capcur.1,
            },
    {
        let st = skip_run_x(self.text, self.index, 32);
        if st == self.text.len() {
            return None;
        }
        if self.text[st] != left {
            return None;
        }
        let e = find_byte_x(self.text, st + 1, right);
        if e == self.text.len() {
            return None;
        }
        let cap = copy_range(self.text, st + 1, e);
        self.index = e + 1;
        Some(cap)
    }

    /// Shared body of the quoted-field extractors: scan with the given
    /// stateful predicate and strip leading quotes from the capture.
    fn parse_quoted(&mut self, cond: Pred) -> (r: Option<Vec<u8>>)
        requires
            old(self).wf(),
            pred_fresh(cond),
        ensures
            final(self).wf(),
            final(self).bytes() == old(self).bytes(),
            match extract_quoted(cond, old(self).bytes(), old(self).pos()) {
                None => r is None && *final(self) == *old(self),
                Some(capcur) => r matches Some(v) && v@ == capcur.0 && final(self).pos()
                    == capcur.1,
            },
    {
        let st = skip_run_x(self.text, self.index, 32);
        let e = scan_x(self.text, st, cond);
        if e == st {
            return None;
        }
        let q = skip_run_upto_x(self.text, st, e, 34);
        let cap = copy_range(self.text, q, e);
        let ni = if e < self.text.len() {
            skip_run_x(self.text, e + 1, 32)
        } else {
            e
        };
        self.index = ni;
        Some(cap)
    }

    /// The client-address field: a run of address bytes.
    pub fn parse_remote_addr(&mut self) -> (r: Option<Vec<u8>>)
        requires
            old(self).wf(),
        ensures
            final(self).wf(),
            final(self).bytes() == old(self).bytes(),
            match extract_with(Pred::AddressChars, old(self).bytes(), old(self).pos()) {
                None => r is None && *final(self) == *old(self),
                Some(capcur) => r matches Some(v) && v@ == capcur.0 && final(self).pos()
                    == capcur.1,
            },
    {
        self.parse_item_trim_space(Pred::AddressChars)
    }

    /// The user field: a leading run of `'-'` is stripped, then the next
    /// space-free token is taken.
    pub fn parse_remote_user(&mut self) -> (r: Option<Vec<u8>>)
        requires
            old(self).wf(),
        ensures
            final(self).wf(),
            final(self).bytes() == old(self).bytes(),
            match extract_user(old(self).bytes(), old(self).pos()) {
                None => r is None && *final(self) == *old(self),
                Some(capcur) => r matches Some(v) && v@ == capcur.0 && final(self).pos()
                    == capcur.1,
            },
    {
        let d = skip_run_x(self.text, self.index, 45);
        let mut l2 = *self;
        l2.index = d;
        let r = l2.parse_item_trim_space(Pred::NonSpace);
        if r.is_some() {
            self.index = l2.index;
        }
        r
    }

    /// The timestamp field: the bytes between a leading `'['` and the first
    /// `']'` that is followed by a space (or the line end).
    pub fn parse_time_local(&mut self) -> (r: Option<Vec<u8>>)
        requires
            old(self).wf(),
        ensures
            final(self).wf(),
            final(self).bytes() == old(self).bytes(),
            match extract_bracket(old(self).bytes(), old(self).pos()) {
                None => r is None && *final(self) == *old(self),
                Some(capcur) => r matches Some(v) && v@ == capcur.0 && final(self).pos()
                    == capcur.1,
            },
    {
        let st0 = skip_run_x(self.text, self.index, 32);
        let st = skip_run_x(self.text, st0, 91);
        let e = scan_x(self.text, st, Pred::BracketClose);
        if e == st {
            return None;
        }
        let cap = copy_range(self.text, st, e);
        let ni = if e < self.text.len() {
            let a = skip_run_x(self.text, e + 1, 93);
            skip_run_x(self.text, a, 32)
        } else {
            e
        };
        self.index = ni;
        Some(cap)
    }

    /// The request-line field: ends at a `'"'` that sits between an
    /// HTTP-version digit and a space, or at the third space, or at the
    /// line end, whichever comes first; leading quotes are stripped.
    pub fn parse_request_line(&mut self) -> (r: Option<Vec<u8>>)
        requires
            old(self).wf(),
        ensures
            final(self).wf(),
            final(self).bytes() == old(self).bytes(),
            match extract_quoted(
                Pred::ReqLineEnd { spaces: 0 },
                old(self).bytes(),
                old(self).pos(),
            ) {
                None => r is None && *final(self) == *old(self),
                Some(capcur) => r matches Some(v) && v@ == capcur.0 && final(self).pos()
                    == capcur.1,
            },
    {
        self.parse_quoted(Pred::ReqLineEnd { spaces: 0 })
    }

    /// The status-code field: a run of digits.
    pub fn parse_status_code(&mut self) -> (r: Option<Vec<u8>>)
        requires
            old(self).wf(),
        ensures
            final(self).wf(),
            final(self).bytes() == old(self).bytes(),
            match extract_with(Pred::Digits, old(self).bytes(), old(self).pos()) {
                None => r is None && *final(self) == *old(self),
                Some(capcur) => r matches Some(v) && v@ == capcur.0 && final(self).pos()
                    == capcur.1,
            },
    {
        self.parse_item_trim_space(Pred::Digits)
    }

    /// The byte-count field: a run of digits.
    pub fn parse_body_bytes_sent(&mut self) -> (r: Option<Vec<u8>>)
        requires
            old(self).wf(),
        ensures
            final(self).wf(),
            final(self).bytes() == old(self).bytes(),
            match extract_with(Pred::Digits, old(self).bytes(), old(self).pos()) {
                None => r is None && *final(self) == *old(self),
                Some(capcur) => r matches Some(v) && v@ == capcur.0 && final(self).pos()
                    == capcur.1,
            },
    {
        self.parse_item_trim_space(Pred::Digits)
    }

    /// The referer field: ends at the second quote of the scan.
    pub fn parse_http_referer(&mut self) -> (r: Option<Vec<u8>>)
        requires
            old(self).wf(),
        ensures
            final(self).wf(),
            final(self).bytes() == old(self).bytes(),
            match extract_quoted(Pred::QuoteEnd { seen: 0 }, old(self).bytes(), old(self).pos()) {
                None => r is None && *final(self) == *old(self),
                Some(capcur) => r matches Some(v) && v@ == capcur.0 && final(self).pos()
                    == capcur.1,
            },
    {
        self.parse_quoted(Pred::QuoteEnd { seen: 0 })
    }

    /// The user-agent field: ends at the second quote of the scan.
    pub fn parse_http_user_agent(&mut self) -> (r: Option<Vec<u8>>)
        requires
            old(self).wf(),
        ensures
            final(self).wf(),
            final(self).bytes() == old(self).bytes(),
            match extract_quoted(Pred::QuoteEnd { seen: 0 }, old(self).bytes(), old(self).pos()) {
                None => r is None && *final(self) == *old(self),
                Some(capcur) => r matches Some(v) && v@ == capcur.0 && final(self).pos()
                    == capcur.1,
            },
    {
        self.parse_quoted(Pred::QuoteEnd { seen: 0 })
    }

    /// The forwarded-for field: ends at the second quote of the scan.
    pub fn parse_http_x_forwarded_for(&mut self) -> (r: Option<Vec<u8>>)
        requires
            old(self).wf(),
        ensures
            final(self).wf(),
            final(self).bytes() == old(self).bytes(),
            match extract_quoted(Pred::QuoteEnd { seen: 0 }, old(self).bytes(), old(self).pos()) {
                None => r is None && *final(self) == *old(self),
                Some(capcur) => r matches Some(v) && v@ == capcur.0 && final(self).pos()
                    == capcur.1,
            },
    {
        self.parse_quoted(Pred::QuoteEnd { seen: 0 })
    }
}

} // verus!
