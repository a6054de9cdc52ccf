//! The record parser: nine scanner calls in fixed order decode one line
//! into a `LogRecord`; any missing field, or a byte count that does not fit,
//! rejects the whole line.

use vstd::prelude::*;
use vstd::string::StringSliceAdditionalSpecFns;
use crate::predicates::{is_digit_byte, Pred};
use crate::line::Line;
use crate::scan::{
    count_byte, extract_bracket, extract_quoted, extract_user, extract_with, lemma_scan_stop,
    lemma_skip_run, next_byte, pred_cont, prev_byte, scan_end, skip_run, skip_run_upto,
};

verus! {

/// Numeric value of a digit string, most significant digit first.
pub open spec fn digits_val(s: Seq<u8>) -> int
    decreases s.len(),
{
    if s.len() == 0 {
        0
    } else {
        digits_val(s.drop_last()) * 10 + (s.last() - 48)
    }
}

/// Every byte is an ASCII digit.
pub open spec fn all_digits(s: Seq<u8>) -> bool {
    forall|i: int| 0 <= i < s.len() ==> is_digit_byte(s[i])
}

/// The number a digit field denotes: defined for a nonempty digit string
/// whose value fits in a `u64`, absent otherwise.
pub open spec fn spec_parse_u64(s: Seq<u8>) -> Option<u64> {
    if s.len() > 0 && all_digits(s) && digits_val(s) <= u64::MAX {
        Some(digits_val(s) as u64)
    } else {
        None
    }
}

/// A digit string's value is never negative.
pub proof fn lemma_digits_val_nonneg(s: Seq<u8>)
    requires
        all_digits(s),
    ensures
        digits_val(s) >= 0,
    decreases s.len(),
{
    if s.len() > 0 {
        assert(all_digits(s.drop_last()));
        lemma_digits_val_nonneg(s.drop_last());
    }
}

/// Extending a digit string to the right can only grow its value.
pub proof fn lemma_digits_val_prefix(s: Seq<u8>, j: int)
    requires
        all_digits(s),
        0 <= j <= s.len(),
    ensures
        digits_val(s.subrange(0, j)) <= digits_val(s),
    decreases s.len() - j,
{
    if j == s.len() {
        assert(s.subrange(0, j) =~= s);
    } else {
        let a = s.subrange(0, j);
        let b = s.subrange(0, j + 1);
        assert(b.drop_last() =~= a);
        assert(all_digits(a));
        lemma_digits_val_nonneg(a);
        assert(digits_val(b) == digits_val(a) * 10 + (b.last() - 48));
        lemma_digits_val_prefix(s, j + 1);
    }
}

/// Parse a digit field to a number. `None` when the field is empty, holds a
/// non-digit, or denotes a value above `u64::MAX`.
pub fn bytes_to_u64(s: &Vec<u8>) -> (r: Option<u64>)
    ensures
        r == spec_parse_u64(s@),
{
    if s.len() == 0 {
        return None;
    }
    let mut acc: u64 = 0;
    let mut k: usize = 0;
    while k < s.len()
        invariant
            0 <= k <= s@.len(),
            all_digits(s@.subrange(0, k as int)),
            acc == digits_val(s@.subrange(0, k as int)),
        decreases s@.len() - k,
    {
        let b = s[k];
        if !(48 <= b && b <= 57) {
            proof {
                assert(!is_digit_byte(s@[k as int]));
            }
            return None;
        }
        let d: u64 = (b - 48) as u64;
        let ghost pre = s@.subrange(0, k as int);
        let ghost ext = s@.subrange(0, k as int + 1);
        proof {
            assert(ext.drop_last() =~= pre);
            assert(ext.last() == s@[k as int]);
            assert(all_digits(ext));
            assert(digits_val(ext) == digits_val(pre) * 10 + d);
        }
        let m = match acc.checked_mul(10) {
            Some(m) => m,
            None => {
                proof {
                    if all_digits(s@) {
                        lemma_digits_val_prefix(s@, k as int + 1);
                        assert(digits_val(s@) > u64::MAX);
                    }
                }
                return None;
            },
        };
        let v = match m.checked_add(d) {
            Some(v) => v,
            None => {
                proof {
                    if all_digits(s@) {
                        lemma_digits_val_prefix(s@, k as int + 1);
                        assert(digits_val(s@) > u64::MAX);
                    }
                }
                return None;
            },
        };
        acc = v;
        k = k + 1;
    }
    proof {
        assert(s@.subrange(0, s@.len() as int) =~= s@);
    }
    Some(acc)
}

/// The nine decoded fields of one record, as byte sequences plus the byte
/// count as a number.
pub struct RecordView {
    pub remote_addr: Seq<u8>,
    pub remote_user: Seq<u8>,
    pub time_local: Seq<u8>,
    pub request_line: Seq<u8>,
    pub status_code: Seq<u8>,
    pub body_bytes_sent: u64,
    pub http_referer: Seq<u8>,
    pub http_user_agent: Seq<u8>,
    pub http_x_forwarded_for: Seq<u8>,
}

/// What the record parser decodes from a line's bytes: the nine fields in
/// fixed order, each taken up where the previous one left the cursor.
/// `None` when any field is absent or the byte count does not fit.
pub open spec fn spec_parse_record(s: Seq<u8>) -> Option<RecordView> {
    match extract_with(Pred::AddressChars, s, 0) {
        None => None,
        Some(addr) => match extract_user(s, addr.1) {
            None => None,
            Some(user) => match extract_bracket(s, user.1) {
                None => None,
                Some(time) => match extract_quoted(Pred::ReqLineEnd { spaces: 0 }, s, time.1) {
                    None => None,
                    Some(req) => match extract_with(Pred::Digits, s, req.1) {
                        None => None,
                        Some(status) => match extract_with(Pred::Digits, s, status.1) {
                            None => None,
                            Some(body) => match spec_parse_u64(body.0) {
                                None => None,
                                Some(n) => match extract_quoted(
                                    Pred::QuoteEnd { seen: 0 },
                                    s,
                                    body.1,
                                ) {
                                    None => None,
                                    Some(referer) => match extract_quoted(
                                        Pred::QuoteEnd { seen: 0 },
                                        s,
                                        referer.1,
                                    ) {
                                        None => None,
                                        Some(agent) => match extract_quoted(
                                            Pred::QuoteEnd { seen: 0 },
                                            s,
                                            agent.1,
                                        ) {
                                            None => None,
                                            Some(fwd) => Some(
                                                RecordView {
                                                    remote_addr: addr.0,
                                                    remote_user: user.0,
                                                    time_local: time.0,
                                                    request_line: req.0,
                                                    status_code: status.0,
                                                    body_bytes_sent: n,
                                                    http_referer: referer.0,
                                                    http_user_agent: agent.0,
                                                    http_x_forwarded_for: fwd.0,
                                                },
                                            ),
                                        },
                                    },
                                },
                            },
                        },
                    },
                },
            },
        },
    }
}

/// One decoded log record.
pub struct LogRecord {
    pub remote_addr: Vec<u8>,
    pub remote_user: Vec<u8>,
    pub time_local: Vec<u8>,
    pub request_line: Vec<u8>,
    pub status_code: Vec<u8>,
    pub body_bytes_sent: u64,
    pub http_referer: Vec<u8>,
    pub http_user_agent: Vec<u8>,
    pub http_x_forwarded_for: Vec<u8>,
}

impl View for LogRecord {
    type V = RecordView;

    open spec fn view(&self) -> RecordView {
        RecordView {
            remote_addr: self.remote_addr@,
            remote_user: self.remote_user@,
            time_local: self.time_local@,
            request_line: self.request_line@,
            status_code: self.status_code@,
            body_bytes_sent: self.body_bytes_sent,
            http_referer: self.http_referer@,
            http_user_agent: self.http_user_agent@,
            http_x_forwarded_for: self.http_x_forwarded_for@,
        }
    }
}

/// Decode one line into a record, or `None` for an unparsed line.
pub fn parse_record(s: &str) -> (r: Option<LogRecord>)
    ensures
        match spec_parse_record(s.spec_bytes()) {
            None => r is None,
            Some(rv) => r matches Some(rec) && rec@ == rv,
        },
{
    let mut l = Line::new(s);
    let remote_addr = match l.parse_remote_addr() {
        Some(v) => v,
        None => {
            return None;
        },
    };
    let remote_user = match l.parse_remote_user() {
        Some(v) => v,
        None => {
            return None;
        },
    };
    let time_local = match l.parse_time_local() {
        Some(v) => v,
        None => {
            return None;
        },
    };
    let request_line = match l.parse_request_line() {
        Some(v) => v,
        None => {
            return None;
        },
    };
    let status_code = match l.parse_status_code() {
        Some(v) => v,
        None => {
            return None;
        },
    };
    let body_bytes = match l.parse_body_bytes_sent() {
        Some(v) => v,
        None => {
            return None;
        },
    };
    let http_referer = match l.parse_http_referer() {
        Some(v) => v,
        None => {
            return None;
        },
    };
    let http_user_agent = match l.parse_http_user_agent() {
        Some(v) => v,
        None => {
            return None;
        },
    };
    let http_x_forwarded_for = match l.parse_http_x_forwarded_for() {
        Some(v) => v,
        None => {
            return None;
        },
    };
    let body_bytes_sent = match bytes_to_u64(&body_bytes) {
        Some(n) => n,
        None => {
            return None;
        },
    };
    Some(
        LogRecord {
            remote_addr,
            remote_user,
            time_local,
            request_line,
            status_code,
            body_bytes_sent,
            http_referer,
            http_user_agent,
            http_x_forwarded_for,
        },
    )
}

/// The record parser is a pure function of the line's bytes: two lines with
/// the same bytes always decode to the same nine fields.
pub proof fn lemma_record_parser_deterministic(a: Seq<u8>, b: Seq<u8>)
    requires
        a == b,
    ensures
        spec_parse_record(a) == spec_parse_record(b),
{
}

/// Where a quote-parity field comes from: the capture starts at the first
/// non-space byte after the cursor and ends exactly at the scan's stop,
/// which is the second quote of the scan — a `'"'` with one `'"'` already
/// seen — exclusive of that closing quote; any leading `'"'` bytes are
/// stripped from the capture. When no second quote occurs the capture runs
/// to the line end.
pub proof fn lemma_quote_field_extraction(s: Seq<u8>, i0: int)
    requires
        0 <= i0 <= s.len(),
    ensures
        ({
            let st = skip_run(s, i0, 32);
            let e = scan_end(Pred::QuoteEnd { seen: 0 }, s, st);
            &&& st <= e <= s.len()
            &&& forall|k: int| st <= k < e ==> !(s[k] == 34 && count_byte(s, 34, st, k) >= 1)
            &&& (e < s.len() ==> s[e] == 34 && count_byte(s, 34, st, e) >= 1)
            &&& match extract_quoted(Pred::QuoteEnd { seen: 0 }, s, i0) {
                None => e == st,
                Some(capcur) => capcur.0 == s.subrange(skip_run_upto(s, st, e, 34), e),
            }
        }),
{
    let st = skip_run(s, i0, 32);
    let e = scan_end(Pred::QuoteEnd { seen: 0 }, s, st);
    lemma_skip_run(s, i0, 32);
    lemma_scan_stop(Pred::QuoteEnd { seen: 0 }, s, st, st);
    assert forall|k: int| st <= k < e implies !(s[k] == 34 && count_byte(s, 34, st, k) >= 1) by {
        assert(pred_cont(Pred::QuoteEnd { seen: 0 }, s, st, k));
    }
    if e < s.len() {
        assert(!pred_cont(Pred::QuoteEnd { seen: 0 }, s, st, e));
    }
}

/// Stop condition of the request-line scan at position `k` of a scan that
/// began at `st`: a `'"'` framed by an HTTP-version digit and a space, or a
/// third space.
pub open spec fn req_line_stop(s: Seq<u8>, st: int, k: int) -> bool {
    (s[k] == 34 && next_byte(s, k) == 32 && (prev_byte(s, k) == 48 || prev_byte(s, k) == 49))
        || (s[k] == 32 && count_byte(s, 32, st, k) >= 2)
}

/// Where the request-line scan stops: at the first `'"'` that is preceded
/// by an HTTP-version digit (`'0'` or `'1'`) and followed by a space, or at
/// the third space of the scan, whichever comes first — or at the line end
/// when neither ever occurs, the capture then being accepted as it stands.
pub proof fn lemma_request_line_end(s: Seq<u8>, i0: int)
    requires
        0 <= i0 <= s.len(),
    ensures
        ({
            let st = skip_run(s, i0, 32);
            let e = scan_end(Pred::ReqLineEnd { spaces: 0 }, s, st);
            &&& st <= e <= s.len()
            &&& forall|k: int| st <= k < e ==> !req_line_stop(s, st, k)
            &&& (e < s.len() ==> req_line_stop(s, st, e))
            &&& match extract_quoted(Pred::ReqLineEnd { spaces: 0 }, s, i0) {
                None => e == st,
                Some(capcur) => capcur.0 == s.subrange(skip_run_upto(s, st, e, 34), e),
            }
        }),
{
    let st = skip_run(s, i0, 32);
    lemma_skip_run(s, i0, 32);
    lemma_scan_stop(Pred::ReqLineEnd { spaces: 0 }, s, st, st);
    assert(forall|k: int| st <= k < s.len() ==> pred_cont(Pred::ReqLineEnd { spaces: 0 }, s, st, k)
        == !req_line_stop(s, st, k));
}

} // verus!
