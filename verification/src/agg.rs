//! The streaming aggregation engine.
//!
//! A `LineParser` owns the frequency tables and running totals. `parse`
//! decodes one line and, when the record is valid, folds it into the state;
//! an unparsed line leaves the state untouched. The state's mathematical
//! view is one map per table plus the two totals, and `spec_ingest` says
//! exactly how one record moves that view.

use vstd::prelude::*;
use vstd::string::StringSliceAdditionalSpecFns;
use crate::record::{parse_record, spec_parse_record, LogRecord, RecordView};
use crate::table::{
    clone_key, code_add, code_val, crows_map, has_key, inner_wf, key_index, keys_distinct,
    lemma_code_add, lemma_row_add, lemma_row_add_sum, lemma_sum_nonneg,
    lemma_val_le_sum, row_add, row_val, rows_map, sat_add64, sat_add_u64, sum_vals, CodeTable,
    Table,
};

verus! {

/// The bytes of the success status code, the literal text `"200"`.
pub open spec fn ok_status() -> Seq<u8> {
    seq![50u8, 48u8, 48u8]
}

/// True iff `v` holds exactly the status bytes `"200"`.
pub fn is_ok_status(v: &Vec<u8>) -> (r: bool)
    ensures
        r == (v@ == ok_status()),
{
    if v.len() != 3 {
        proof {
            assert(v@ != ok_status());
        }
        return false;
    }
    let r = v[0] == 50 && v[1] == 48 && v[2] == 48;
    proof {
        if r {
            assert(v@ =~= ok_status());
        } else {
            assert(v@ != ok_status());
        }
    }
    r
}

/// The aggregation state as mathematics: a map from field value to count
/// for each of the nine frequency tables, the traffic map from request
/// line to cumulative bytes, the bad-status breakdown, and the totals.
pub struct AggView {
    pub remote_addr: Map<Seq<u8>, int>,
    pub remote_user: Map<Seq<u8>, int>,
    pub time_local: Map<Seq<u8>, int>,
    pub request_line: Map<Seq<u8>, int>,
    pub status: Map<Seq<u8>, int>,
    pub http_referer: Map<Seq<u8>, int>,
    pub http_user_agent: Map<Seq<u8>, int>,
    pub http_x_forwarded_for: Map<Seq<u8>, int>,
    pub http_sent: Map<Seq<u8>, int>,
    pub http_bad_code: Map<Seq<u8>, Map<Seq<u8>, int>>,
    pub total_bytes_sent: int,
    pub total_lines: int,
}

/// `m` with `amt` more under `k`, saturating at `u64::MAX`; an absent key
/// counts from 0.
pub open spec fn bump(m: Map<Seq<u8>, int>, k: Seq<u8>, amt: int) -> Map<Seq<u8>, int> {
    m.insert(
        k,
        sat_add64(
            if m.dom().contains(k) {
                m[k]
            } else {
                0
            },
            amt,
        ),
    )
}

/// How one valid record moves the aggregation state: every frequency table
/// counts its field once, the traffic map gains the record's bytes under
/// its request line, the totals grow, and — unless the status is `"200"` —
/// the bad-status breakdown counts the request line under the status code.
pub open spec fn spec_ingest(a: AggView, r: RecordView) -> AggView {
    AggView {
        remote_addr: bump(a.remote_addr, r.remote_addr, 1),
        remote_user: bump(a.remote_user, r.remote_user, 1),
        time_local: bump(a.time_local, r.time_local, 1),
        request_line: bump(a.request_line, r.request_line, 1),
        status: bump(a.status, r.status_code, 1),
        http_referer: bump(a.http_referer, r.http_referer, 1),
        http_user_agent: bump(a.http_user_agent, r.http_user_agent, 1),
        http_x_forwarded_for: bump(a.http_x_forwarded_for, r.http_x_forwarded_for, 1),
        http_sent: bump(a.http_sent, r.request_line, r.body_bytes_sent as int),
        http_bad_code: if r.status_code == ok_status() {
            a.http_bad_code
        } else {
            a.http_bad_code.insert(
                r.status_code,
                bump(
                    if a.http_bad_code.dom().contains(r.status_code) {
                        a.http_bad_code[r.status_code]
                    } else {
                        Map::empty()
                    },
                    r.request_line,
                    1,
                ),
            )
        },
        total_bytes_sent: sat_add64(a.total_bytes_sent, r.body_bytes_sent as int),
        total_lines: sat_add64(a.total_lines, 1),
    }
}

/// The aggregation state: nine frequency tables, the traffic table, the
/// bad-status breakdown and the totals. Tables are read directly for
/// reporting once ingestion is done.
pub struct LineParser {
    pub remote_addr_data: Table,
    pub remote_user_data: Table,
    pub time_local_data: Table,
    pub request_line_data: Table,
    pub status_data: Table,
    pub http_referer_data: Table,
    pub http_user_agent_data: Table,
    pub http_x_forwarded_for_data: Table,
    pub http_sent_data: Table,
    pub http_bad_code_data: CodeTable,
    pub total_bytes_sent: u64,
    pub total_lines: u64,
}

impl View for LineParser {
    type V = AggView;

    open spec fn view(&self) -> AggView {
        AggView {
            remote_addr: self.remote_addr_data.as_map(),
            remote_user: self.remote_user_data.as_map(),
            time_local: self.time_local_data.as_map(),
            request_line: self.request_line_data.as_map(),
            status: self.status_data.as_map(),
            http_referer: self.http_referer_data.as_map(),
            http_user_agent: self.http_user_agent_data.as_map(),
            http_x_forwarded_for: self.http_x_forwarded_for_data.as_map(),
            http_sent: self.http_sent_data.as_map(),
            http_bad_code: self.http_bad_code_data.as_map(),
            total_bytes_sent: self.total_bytes_sent as int,
            total_lines: self.total_lines as int,
        }
    }
}

impl LineParser {
    /// All tables well formed.
    pub open spec fn wf(self) -> bool {
        &&& self.remote_addr_data.wf()
        &&& self.remote_user_data.wf()
        &&& self.time_local_data.wf()
        &&& self.request_line_data.wf()
        &&& self.status_data.wf()
        &&& self.http_referer_data.wf()
        &&& self.http_user_agent_data.wf()
        &&& self.http_x_forwarded_for_data.wf()
        &&& self.http_sent_data.wf()
        &&& self.http_bad_code_data.wf()
    }

    /// The bad-status breakdown squares with the status table: the literal
    /// `"200"` never appears as a code in it; every other status code on
    /// record does; each code's nested counts sum to that code's count in
    /// the status table; and the status counts sum to the lines taken in.
    pub open spec fn counts_ok(self) -> bool {
        let st = self.status_data.rows();
        let bad = self.http_bad_code_data.rows();
        &&& sum_vals(st) == self.total_lines
        &&& !has_key(bad, ok_status())
        &&& forall|i: int|
            0 <= i < bad.len() ==> has_key(st, #[trigger] bad[i].0) && sum_vals(bad[i].1)
                == row_val(st, bad[i].0)
        &&& forall|i: int|
            0 <= i < st.len() ==> (#[trigger] st[i].0) == ok_status() || has_key(bad, st[i].0)
    }

    /// A fresh, empty aggregation state.
    pub fn new() -> (p: LineParser)
        ensures
            p.wf(),
            p.counts_ok(),
            p@.remote_addr == Map::<Seq<u8>, int>::empty(),
            p@.remote_user == Map::<Seq<u8>, int>::empty(),
            p@.time_local == Map::<Seq<u8>, int>::empty(),
            p@.request_line == Map::<Seq<u8>, int>::empty(),
            p@.status == Map::<Seq<u8>, int>::empty(),
            p@.http_referer == Map::<Seq<u8>, int>::empty(),
            p@.http_user_agent == Map::<Seq<u8>, int>::empty(),
            p@.http_x_forwarded_for == Map::<Seq<u8>, int>::empty(),
            p@.http_sent == Map::<Seq<u8>, int>::empty(),
            p@.http_bad_code == Map::<Seq<u8>, Map<Seq<u8>, int>>::empty(),
            p@.total_lines == 0,
            p@.total_bytes_sent == 0,
    {
        let p = LineParser {
            remote_addr_data: Table::new(),
            remote_user_data: Table::new(),
            time_local_data: Table::new(),
            request_line_data: Table::new(),
            status_data: Table::new(),
            http_referer_data: Table::new(),
            http_user_agent_data: Table::new(),
            http_x_forwarded_for_data: Table::new(),
            http_sent_data: Table::new(),
            http_bad_code_data: CodeTable::new(),
            total_bytes_sent: 0,
            total_lines: 0,
        };
        proof {
            assert(rows_map(p.remote_addr_data.rows()) =~= Map::<Seq<u8>, int>::empty());
            assert(crows_map(p.http_bad_code_data.rows()) =~= Map::<
                Seq<u8>,
                Map<Seq<u8>, int>,
            >::empty());
        }
        p
    }

    /// Fold one decoded record into the state. Never fails; counting
    /// saturates at `u64::MAX` instead of overflowing.
    pub fn ingest(&mut self, rec: LogRecord)
        requires
            old(self).wf(),
        ensures
            final(self).wf(),
            final(self)@ == spec_ingest(old(self)@, rec@),
            old(self).counts_ok() && old(self)@.total_lines < u64::MAX
                ==> final(self).counts_ok(),
    {
        let ghost st0 = self.status_data.rows();
        let ghost bad0 = self.http_bad_code_data.rows();
        self.total_lines = sat_add_u64(self.total_lines, 1);
        self.total_bytes_sent = sat_add_u64(self.total_bytes_sent, rec.body_bytes_sent);
        let not_ok = !is_ok_status(&rec.status_code);
        if not_ok {
            let code = clone_key(&rec.status_code);
            let req = clone_key(&rec.request_line);
            self.http_bad_code_data.add(code, req);
        }
        let req2 = clone_key(&rec.request_line);
        self.http_sent_data.add(req2, rec.body_bytes_sent);
        self.remote_addr_data.add(rec.remote_addr, 1);
        self.remote_user_data.add(rec.remote_user, 1);
        self.time_local_data.add(rec.time_local, 1);
        self.request_line_data.add(rec.request_line, 1);
        self.status_data.add(rec.status_code, 1);
        self.http_referer_data.add(rec.http_referer, 1);
        self.http_user_agent_data.add(rec.http_user_agent, 1);
        self.http_x_forwarded_for_data.add(rec.http_x_forwarded_for, 1);
        proof {
            let a0 = old(self)@;
            let rv = rec@;
            lemma_row_add(old(self).remote_addr_data.rows(), rv.remote_addr, 1);
            lemma_row_add(old(self).remote_user_data.rows(), rv.remote_user, 1);
            lemma_row_add(old(self).time_local_data.rows(), rv.time_local, 1);
            lemma_row_add(old(self).request_line_data.rows(), rv.request_line, 1);
            lemma_row_add(st0, rv.status_code, 1);
            lemma_row_add(old(self).http_referer_data.rows(), rv.http_referer, 1);
            lemma_row_add(old(self).http_user_agent_data.rows(), rv.http_user_agent, 1);
            lemma_row_add(
                old(self).http_x_forwarded_for_data.rows(),
                rv.http_x_forwarded_for,
                1,
            );
            lemma_row_add(old(self).http_sent_data.rows(), rv.request_line, rv.body_bytes_sent);
            if rv.status_code != ok_status() {
                lemma_code_add(bad0, rv.status_code, rv.request_line);
                lemma_row_add(code_val(bad0, rv.status_code), rv.request_line, 1);
                assert(rows_map(Seq::<(Seq<u8>, u64)>::empty()) =~= Map::<Seq<u8>, int>::empty());
                assert(self.http_bad_code_data.as_map() == spec_ingest(a0, rv).http_bad_code);
            }
            assert(self@ == spec_ingest(a0, rv));
            if old(self).counts_ok() && a0.total_lines < u64::MAX {
                lemma_counts_ok_step(
                    st0,
                    bad0,
                    rv.status_code,
                    rv.request_line,
                    old(self).total_lines as int,
                    self.status_data.rows(),
                    self.http_bad_code_data.rows(),
                );
                assert(self.counts_ok());
            }
        }
    }

    /// Decode one line; on success fold the record in and answer `true`,
    /// otherwise leave the state exactly as it was and answer `false`.
    pub fn parse(&mut self, s: &str) -> (r: bool)
        requires
            old(self).wf(),
        ensures
            final(self).wf(),
            match spec_parse_record(s.spec_bytes()) {
                None => r == false && *final(self) == *old(self),
                Some(rv) => r == true && final(self)@ == spec_ingest(old(self)@, rv),
            },
            old(self).counts_ok() && old(self)@.total_lines < u64::MAX
                ==> final(self).counts_ok(),
    {
        match parse_record(s) {
            None => false,
            Some(rec) => {
                self.ingest(rec);
                true
            },
        }
    }
}

/// One ingestion step keeps the bad-status breakdown squared with the
/// status table, as long as the line total has not saturated.
proof fn lemma_counts_ok_step(
    st0: Seq<(Seq<u8>, u64)>,
    bad0: Seq<(Seq<u8>, Seq<(Seq<u8>, u64)>)>,
    scode: Seq<u8>,
    req: Seq<u8>,
    tl0: int,
    st1: Seq<(Seq<u8>, u64)>,
    bad1: Seq<(Seq<u8>, Seq<(Seq<u8>, u64)>)>,
)
    requires
        keys_distinct(st0),
        keys_distinct(bad0),
        inner_wf(bad0),
        sum_vals(st0) == tl0,
        0 <= tl0 < u64::MAX,
        !has_key(bad0, ok_status()),
        forall|i: int|
            0 <= i < bad0.len() ==> has_key(st0, #[trigger] bad0[i].0) && sum_vals(bad0[i].1)
                == row_val(st0, bad0[i].0),
        forall|i: int|
            0 <= i < st0.len() ==> (#[trigger] st0[i].0) == ok_status() || has_key(
                bad0,
                st0[i].0,
            ),
        st1 == row_add(st0, scode, 1),
        scode == ok_status() ==> bad1 == bad0,
        scode != ok_status() ==> bad1 == code_add(bad0, scode, req),
    ensures
        sum_vals(st1) == tl0 + 1,
        !has_key(bad1, ok_status()),
        forall|i: int|
            0 <= i < bad1.len() ==> has_key(st1, #[trigger] bad1[i].0) && sum_vals(bad1[i].1)
                == row_val(st1, bad1[i].0),
        forall|i: int|
            0 <= i < st1.len() ==> (#[trigger] st1[i].0) == ok_status() || has_key(
                bad1,
                st1[i].0,
            ),
{
    lemma_row_add(st0, scode, 1);
    // the bumped status count cannot saturate
    if has_key(st0, scode) {
        let i = key_index(st0, scode);
        assert(0 <= i < st0.len() && st0[i].0 == scode);
        lemma_val_le_sum(st0, i);
        assert(row_val(st0, scode) <= tl0);
    } else {
        lemma_sum_nonneg(st0);
    }
    lemma_row_add_sum(st0, scode, 1);
    assert(sum_vals(st1) == tl0 + 1);
    assert(row_val(st1, scode) == row_val(st0, scode) + 1);
    if scode == ok_status() {
        assert(bad1 == bad0);
        assert forall|i: int| 0 <= i < bad1.len() implies has_key(st1, #[trigger] bad1[i].0)
            && sum_vals(bad1[i].1) == row_val(st1, bad1[i].0) by {
            let k = bad1[i].0;
            assert(k != ok_status());
            assert(row_val(st1, k) == row_val(st0, k));
            assert(has_key(st1, k) == has_key(st0, k));
        }
        assert forall|i: int| 0 <= i < st1.len() implies (#[trigger] st1[i].0) == ok_status()
            || has_key(bad1, st1[i].0) by {
            if has_key(st0, scode) {
                assert(st1[i].0 == st0[i].0);
            } else {
                if i < st0.len() {
                    assert(st1[i].0 == st0[i].0);
                } else {
                    assert(st1[i].0 == scode);
                }
            }
        }
    } else {
        assert(bad1 == code_add(bad0, scode, req));
        lemma_code_add(bad0, scode, req);
        let inner0 = code_val(bad0, scode);
        lemma_row_add(inner0, req, 1);
        // the bumped nested count cannot saturate
        if has_key(bad0, scode) {
            let ci = key_index(bad0, scode);
            assert(0 <= ci < bad0.len() && bad0[ci].0 == scode);
            assert(keys_distinct(inner0));
            assert(sum_vals(inner0) == row_val(st0, scode));
            if has_key(inner0, req) {
                let ri = key_index(inner0, req);
                assert(0 <= ri < inner0.len() && inner0[ri].0 == req);
                lemma_val_le_sum(inner0, ri);
            }
            lemma_row_add_sum(inner0, req, 1);
        } else {
            // a code absent from the breakdown is absent from the status
            // table too, so its count was 0
            if has_key(st0, scode) {
                let si = key_index(st0, scode);
                assert(0 <= si < st0.len() && st0[si].0 == scode);
                assert(has_key(bad0, scode));
            }
            assert(row_val(st0, scode) == 0);
            assert(inner0 =~= Seq::<(Seq<u8>, u64)>::empty());
            lemma_row_add_sum(inner0, req, 1);
            assert(sum_vals(row_add(inner0, req, 1)) == 1);
        }
        assert(!has_key(bad1, ok_status()));
        assert forall|i: int| 0 <= i < bad1.len() implies has_key(st1, #[trigger] bad1[i].0)
            && sum_vals(bad1[i].1) == row_val(st1, bad1[i].0) by {
            if has_key(bad0, scode) {
                let ci = key_index(bad0, scode);
                assert(0 <= ci < bad0.len() && bad0[ci].0 == scode);
                if i == ci {
                    assert(bad1[i] == (scode, row_add(inner0, req, 1)));
                    assert(sum_vals(bad1[i].1) == row_val(st0, scode) + 1);
                } else {
                    assert(bad1[i] == bad0[i]);
                    let k = bad0[i].0;
                    assert(k != scode);
                    assert(row_val(st1, k) == row_val(st0, k));
                    assert(has_key(st1, k) == has_key(st0, k));
                }
            } else {
                if i < bad0.len() {
                    assert(bad1[i] == bad0[i]);
                    let k = bad0[i].0;
                    assert(k != scode);
                    assert(row_val(st1, k) == row_val(st0, k));
                    assert(has_key(st1, k) == has_key(st0, k));
                } else {
                    assert(bad1[i] == (scode, seq![(req, 1u64)]));
                    assert(bad1[i].1 =~= row_add(inner0, req, 1));
                    assert(sum_vals(bad1[i].1) == 1);
                    assert(row_val(st1, scode) == 1);
                }
            }
        }
        assert forall|i: int| 0 <= i < st1.len() implies (#[trigger] st1[i].0) == ok_status()
            || has_key(bad1, st1[i].0) by {
            let k = st1[i].0;
            if i < st0.len() && st1[i].0 == st0[i].0 {
                if st0[i].0 != ok_status() {
                    assert(has_key(bad0, st0[i].0));
                    if st0[i].0 == scode {
                        assert(has_key(bad1, scode));
                    } else {
                        assert(has_key(bad1, st0[i].0) == has_key(bad0, st0[i].0));
                    }
                }
            } else {
                assert(k == scode);
                assert(has_key(bad1, scode));
            }
        }
    }
}

/// The state after a stream of records, folded in arrival order.
pub open spec fn spec_ingest_all(a: AggView, recs: Seq<RecordView>) -> AggView
    decreases recs.len(),
{
    if recs.len() == 0 {
        a
    } else {
        spec_ingest_all(spec_ingest(a, recs[0]), recs.drop_first())
    }
}

/// Total byte count of a stream of records.
pub open spec fn sum_bodies(recs: Seq<RecordView>) -> int
    decreases recs.len(),
{
    if recs.len() == 0 {
        0
    } else {
        recs[0].body_bytes_sent + sum_bodies(recs.drop_first())
    }
}

/// A stream's byte count is never negative.
pub proof fn lemma_sum_bodies_nonneg(recs: Seq<RecordView>)
    ensures
        sum_bodies(recs) >= 0,
    decreases recs.len(),
{
    if recs.len() > 0 {
        lemma_sum_bodies_nonneg(recs.drop_first());
    }
}

/// The stream's decoded records, in arrival order: one per line the
/// record parser accepts.
pub open spec fn successes(lines: Seq<Seq<u8>>) -> Seq<RecordView>
    decreases lines.len(),
{
    if lines.len() == 0 {
        Seq::empty()
    } else {
        match spec_parse_record(lines[0]) {
            None => successes(lines.drop_first()),
            Some(r) => seq![r] + successes(lines.drop_first()),
        }
    }
}

/// The aggregation state after a stream of raw lines: each line the record
/// parser accepts is folded in, every other line is skipped.
pub open spec fn spec_parse_all(a: AggView, lines: Seq<Seq<u8>>) -> AggView
    decreases lines.len(),
{
    if lines.len() == 0 {
        a
    } else {
        match spec_parse_record(lines[0]) {
            None => spec_parse_all(a, lines.drop_first()),
            Some(r) => spec_parse_all(spec_ingest(a, r), lines.drop_first()),
        }
    }
}

/// Feeding a stream of lines is the same as ingesting exactly the records
/// of the lines that parse.
pub proof fn lemma_parse_all_ingests_successes(a: AggView, lines: Seq<Seq<u8>>)
    ensures
        spec_parse_all(a, lines) == spec_ingest_all(a, successes(lines)),
    decreases lines.len(),
{
    if lines.len() > 0 {
        match spec_parse_record(lines[0]) {
            None => {
                lemma_parse_all_ingests_successes(a, lines.drop_first());
            },
            Some(r) => {
                let s = successes(lines.drop_first());
                assert((seq![r] + s).drop_first() =~= s);
                assert((seq![r] + s)[0] == r);
                lemma_parse_all_ingests_successes(spec_ingest(a, r), lines.drop_first());
            },
        }
    }
}

/// Totals law over a stream of lines: as long as neither total saturates,
/// `total_lines` grows by exactly the number of lines the record parser
/// accepted, and `total_bytes_sent` by exactly the sum of their byte
/// counts.
pub proof fn lemma_parse_all_totals(a: AggView, lines: Seq<Seq<u8>>)
    requires
        0 <= a.total_lines,
        0 <= a.total_bytes_sent,
        a.total_lines + successes(lines).len() <= u64::MAX,
        a.total_bytes_sent + sum_bodies(successes(lines)) <= u64::MAX,
    ensures
        spec_parse_all(a, lines).total_lines == a.total_lines + successes(lines).len(),
        spec_parse_all(a, lines).total_bytes_sent == a.total_bytes_sent + sum_bodies(
            successes(lines),
        ),
{
    lemma_parse_all_ingests_successes(a, lines);
    lemma_ingest_totals(a, successes(lines));
}

/// Totals law: as long as neither total saturates, `total_lines` grows by
/// exactly the number of records taken in, and `total_bytes_sent` by
/// exactly the sum of their byte counts.
pub proof fn lemma_ingest_totals(a: AggView, recs: Seq<RecordView>)
    requires
        0 <= a.total_lines,
        0 <= a.total_bytes_sent,
        a.total_lines + recs.len() <= u64::MAX,
        a.total_bytes_sent + sum_bodies(recs) <= u64::MAX,
    ensures
        spec_ingest_all(a, recs).total_lines == a.total_lines + recs.len(),
        spec_ingest_all(a, recs).total_bytes_sent == a.total_bytes_sent + sum_bodies(recs),
    decreases recs.len(),
{
    if recs.len() > 0 {
        let a1 = spec_ingest(a, recs[0]);
        lemma_sum_bodies_nonneg(recs.drop_first());
        assert(a1.total_lines == a.total_lines + 1);
        assert(a1.total_bytes_sent == a.total_bytes_sent + recs[0].body_bytes_sent);
        lemma_ingest_totals(a1, recs.drop_first());
    }
}

} // verus!
