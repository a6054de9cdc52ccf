//! Frequency tables.
//!
//! A table maps a decoded field value (a byte string) to a count. It is
//! kept as a vector of rows with pairwise-distinct keys and modeled as a
//! `Map`; adding saturates at `u64::MAX` rather than overflow. A nested
//! table keyed by status code holds one inner table per code.

use vstd::prelude::*;

verus! {

/// `a + b`, stopped at `u64::MAX`.
pub open spec fn sat_add64(a: int, b: int) -> int {
    if a + b > u64::MAX {
        u64::MAX as int
    } else {
        a + b
    }
}

/// `a + b`, stopped at `u64::MAX`.
pub fn sat_add_u64(a: u64, b: u64) -> (r: u64)
    ensures
        r as int == sat_add64(a as int, b as int),
{
    if a > u64::MAX - b {
        u64::MAX
    } else {
        a + b
    }
}

/// The rows' keys are pairwise distinct.
pub open spec fn keys_distinct<T>(rs: Seq<(Seq<u8>, T)>) -> bool {
    forall|i: int, j: int| 0 <= i < j < rs.len() ==> rs[i].0 != rs[j].0
}

/// Some row holds key `k`.
pub open spec fn has_key<T>(rs: Seq<(Seq<u8>, T)>, k: Seq<u8>) -> bool {
    exists|i: int| 0 <= i < rs.len() && rs[i].0 == k
}

/// The row index of key `k` (meaningful when `has_key` holds).
pub open spec fn key_index<T>(rs: Seq<(Seq<u8>, T)>, k: Seq<u8>) -> int {
    choose|i: int| 0 <= i < rs.len() && rs[i].0 == k
}

/// With distinct keys, a row holding `k` is the row `key_index` names.
pub proof fn lemma_key_index_unique<T>(rs: Seq<(Seq<u8>, T)>, k: Seq<u8>, i: int)
    requires
        keys_distinct(rs),
        0 <= i < rs.len(),
        rs[i].0 == k,
    ensures
        has_key(rs, k),
        key_index(rs, k) == i,
{
    assert(has_key(rs, k));
    let j = key_index(rs, k);
    assert(0 <= j < rs.len() && rs[j].0 == k);
}

/// The count stored under `k`, or 0 when `k` is absent.
pub open spec fn row_val(rs: Seq<(Seq<u8>, u64)>, k: Seq<u8>) -> int {
    if has_key(rs, k) {
        rs[key_index(rs, k)].1 as int
    } else {
        0
    }
}

/// The rows after `amt` is added (saturating) to `k`'s count, a new row
/// being appended when `k` is absent.
pub open spec fn row_add(rs: Seq<(Seq<u8>, u64)>, k: Seq<u8>, amt: u64) -> Seq<(Seq<u8>, u64)> {
    if has_key(rs, k) {
        rs.update(key_index(rs, k), (k, sat_add64(row_val(rs, k), amt as int) as u64))
    } else {
        rs.push((k, amt))
    }
}

/// The rows as a map from key to count.
pub open spec fn rows_map(rs: Seq<(Seq<u8>, u64)>) -> Map<Seq<u8>, int> {
    Map::new(|k: Seq<u8>| has_key(rs, k), |k: Seq<u8>| row_val(rs, k))
}

/// Sum of all counts.
pub open spec fn sum_vals(rs: Seq<(Seq<u8>, u64)>) -> int
    decreases rs.len(),
{
    if rs.len() == 0 {
        0
    } else {
        sum_vals(rs.drop_last()) + rs.last().1
    }
}

/// A sum of counts is never negative.
pub proof fn lemma_sum_nonneg(rs: Seq<(Seq<u8>, u64)>)
    ensures
        sum_vals(rs) >= 0,
    decreases rs.len(),
{
    if rs.len() > 0 {
        lemma_sum_nonneg(rs.drop_last());
    }
}

/// Appending a row adds its count to the sum.
pub proof fn lemma_sum_push(rs: Seq<(Seq<u8>, u64)>, e: (Seq<u8>, u64))
    ensures
        sum_vals(rs.push(e)) == sum_vals(rs) + e.1,
{
    assert(rs.push(e).drop_last() =~= rs);
}

/// Replacing a row moves the sum by the difference of the counts.
pub proof fn lemma_sum_update(rs: Seq<(Seq<u8>, u64)>, i: int, e: (Seq<u8>, u64))
    requires
        0 <= i < rs.len(),
    ensures
        sum_vals(rs.update(i, e)) == sum_vals(rs) - rs[i].1 + e.1,
    decreases rs.len(),
{
    let rs2 = rs.update(i, e);
    if i == rs.len() - 1 {
        assert(rs2.drop_last() =~= rs.drop_last());
    } else {
        assert(rs2.drop_last() =~= rs.drop_last().update(i, e));
        lemma_sum_update(rs.drop_last(), i, e);
    }
}

/// No single count exceeds the sum of all counts.
pub proof fn lemma_val_le_sum(rs: Seq<(Seq<u8>, u64)>, i: int)
    requires
        0 <= i < rs.len(),
    ensures
        rs[i].1 <= sum_vals(rs),
    decreases rs.len(),
{
    if i == rs.len() - 1 {
        lemma_sum_nonneg(rs.drop_last());
    } else {
        lemma_val_le_sum(rs.drop_last(), i);
    }
}

/// Effect of `row_add` on rows with distinct keys: `k`'s count becomes the
/// saturating sum, every other key keeps its count, and the map view gains
/// exactly the one binding.
pub proof fn lemma_row_add(rs: Seq<(Seq<u8>, u64)>, k: Seq<u8>, amt: u64)
    requires
        keys_distinct(rs),
    ensures
        keys_distinct(row_add(rs, k, amt)),
        has_key(row_add(rs, k, amt), k),
        row_val(row_add(rs, k, amt), k) == sat_add64(row_val(rs, k), amt as int),
        forall|k2: Seq<u8>| k2 != k ==> #[trigger] has_key(row_add(rs, k, amt), k2) == has_key(
            rs,
            k2,
        ),
        forall|k2: Seq<u8>| k2 != k ==> #[trigger] row_val(row_add(rs, k, amt), k2) == row_val(
            rs,
            k2,
        ),
        rows_map(row_add(rs, k, amt)) == rows_map(rs).insert(
            k,
            sat_add64(row_val(rs, k), amt as int),
        ),
        row_add(rs, k, amt).len() == if has_key(rs, k) {
            rs.len() as int
        } else {
            rs.len() + 1int
        },
        forall|i: int|
            0 <= i < rs.len() && rs[i].0 != k ==> #[trigger] row_add(rs, k, amt)[i] == rs[i],
{
    let rs2 = row_add(rs, k, amt);
    if has_key(rs, k) {
        let i = key_index(rs, k);
        assert(0 <= i < rs.len() && rs[i].0 == k);
        assert(forall|j: int| 0 <= j < rs2.len() ==> rs2[j].0 == rs[j].0);
        assert(keys_distinct(rs2));
        assert forall|k2: Seq<u8>| #[trigger] has_key(rs2, k2) == has_key(rs, k2) by {
            if has_key(rs, k2) {
                let j = key_index(rs, k2);
                assert(rs2[j].0 == k2);
            }
            if has_key(rs2, k2) {
                let j = key_index(rs2, k2);
                assert(rs[j].0 == k2);
            }
        }
        lemma_key_index_unique(rs2, k, i);
        assert forall|k2: Seq<u8>| k2 != k && has_key(rs, k2) implies #[trigger] row_val(rs2, k2)
            == row_val(rs, k2) by {
            let j = key_index(rs, k2);
            assert(0 <= j < rs.len() && rs[j].0 == k2);
            assert(j != i);
            lemma_key_index_unique(rs2, k2, j);
        }
    } else {
        assert(forall|j: int| 0 <= j < rs.len() ==> rs2[j] == rs[j]);
        assert(rs2[rs.len() as int] == (k, amt));
        assert forall|i: int, j: int| 0 <= i < j < rs2.len() implies rs2[i].0 != rs2[j].0 by {
            if j < rs.len() {
            } else {
                assert(rs2[j].0 == k);
                assert(!(rs[i].0 == k));
            }
        }
        lemma_key_index_unique(rs2, k, rs.len() as int);
        assert forall|k2: Seq<u8>| k2 != k implies #[trigger] has_key(rs2, k2) == has_key(
            rs,
            k2,
        ) by {
            if has_key(rs, k2) {
                let j = key_index(rs, k2);
                assert(rs2[j].0 == k2);
            }
            if has_key(rs2, k2) {
                let j = key_index(rs2, k2);
                assert(0 <= j < rs2.len() && rs2[j].0 == k2);
                assert(j < rs.len());
                assert(rs[j].0 == k2);
            }
        }
        assert forall|k2: Seq<u8>| k2 != k && has_key(rs, k2) implies #[trigger] row_val(rs2, k2)
            == row_val(rs, k2) by {
            let j = key_index(rs, k2);
            assert(0 <= j < rs.len() && rs[j].0 == k2);
            lemma_key_index_unique(rs2, k2, j);
        }
        assert(row_val(rs2, k) == amt as int);
    }
    assert(rows_map(rs2) =~= rows_map(rs).insert(k, sat_add64(row_val(rs, k), amt as int)));
}

/// When `k`'s count does not saturate, `row_add` grows the sum by `amt`.
pub proof fn lemma_row_add_sum(rs: Seq<(Seq<u8>, u64)>, k: Seq<u8>, amt: u64)
    requires
        keys_distinct(rs),
        has_key(rs, k) ==> row_val(rs, k) + amt <= u64::MAX,
    ensures
        sum_vals(row_add(rs, k, amt)) == sum_vals(rs) + amt,
{
    if has_key(rs, k) {
        let i = key_index(rs, k);
        assert(0 <= i < rs.len() && rs[i].0 == k);
        lemma_sum_update(rs, i, (k, sat_add64(row_val(rs, k), amt as int) as u64));
    } else {
        lemma_sum_push(rs, (k, amt));
    }
}

/// Rows of a key-count vector, as byte strings with their counts.
pub open spec fn view_rows(es: Seq<(Vec<u8>, u64)>) -> Seq<(Seq<u8>, u64)> {
    es.map(|i: int, e: (Vec<u8>, u64)| (e.0@, e.1))
}

/// A frequency table: distinct keys, one saturating count per key.
pub struct Table {
    pub entries: Vec<(Vec<u8>, u64)>,
}

impl Table {
    /// The rows, as byte strings with their counts.
    pub closed spec fn rows(self) -> Seq<(Seq<u8>, u64)> {
        view_rows(self.entries@)
    }

    /// Keys are pairwise distinct.
    pub open spec fn wf(self) -> bool {
        keys_distinct(self.rows())
    }

    /// The table as a map from key to count.
    pub open spec fn as_map(self) -> Map<Seq<u8>, int> {
        rows_map(self.rows())
    }

    /// An empty table.
    pub fn new() -> (t: Table)
        ensures
            t.wf(),
            t.rows() == Seq::<(Seq<u8>, u64)>::empty(),
    {
        let t = Table { entries: Vec::new() };
        proof {
            assert(t.rows() =~= Seq::<(Seq<u8>, u64)>::empty());
        }
        t
    }

    /// Number of rows.
    pub fn len(&self) -> (n: usize)
        ensures
            n == self.rows().len(),
    {
        self.entries.len()
    }

    /// The row holding `key`, if any.
    fn find(&self, key: &Vec<u8>) -> (o: Option<usize>)
        ensures
            match o {
                Some(i) => i < self.rows().len() && self.rows()[i as int].0 == key@,
                None => !has_key(self.rows(), key@),
            },
    {
        let ghost rs = self.rows();
        let mut i: usize = 0;
        while i < self.entries.len()
            invariant
                0 <= i <= self.entries.len(),
                rs == self.rows(),
                rs.len() == self.entries.len(),
                forall|j: int| 0 <= j < i ==> rs[j].0 != key@,
            decreases self.entries.len() - i,
        {
            let e = &self.entries[i];
            if bytes_eq(&e.0, key) {
                return Some(i);
            }
            i = i + 1;
        }
        None
    }

    /// Add `amt` to `key`'s count, saturating at `u64::MAX`; an absent key
    /// is inserted with count `amt`.
    pub fn add(&mut self, key: Vec<u8>, amt: u64)
        requires
            old(self).wf(),
        ensures
            final(self).wf(),
            final(self).rows() == row_add(old(self).rows(), key@, amt),
    {
        let ghost rs = self.rows();
        match self.find(&key) {
            Some(i) => {
                let (k0, c0) = self.entries.remove(i);
                let c1 = sat_add_u64(c0, amt);
                self.entries.insert(i, (k0, c1));
                proof {
                    lemma_key_index_unique(rs, key@, i as int);
                    assert(k0@ == key@);
                    assert(c0 == rs[i as int].1);
                    assert(self.rows() =~= rs.update(
                        i as int,
                        (key@, sat_add64(row_val(rs, key@), amt as int) as u64),
                    ));
                    lemma_row_add(rs, key@, amt);
                }
            },
            None => {
                self.entries.push((key, amt));
                proof {
                    assert(self.rows() =~= rs.push((key@, amt)));
                    lemma_row_add(rs, key@, amt);
                }
            },
        }
    }

    /// The count stored under `key`, 0 when absent.
    pub fn get(&self, key: &Vec<u8>) -> (c: u64)
        requires
            self.wf(),
        ensures
            c as int == row_val(self.rows(), key@),
    {
        match self.find(key) {
            Some(i) => {
                proof {
                    lemma_key_index_unique(self.rows(), key@, i as int);
                }
                self.entries[i].1
            },
            None => 0,
        }
    }

    /// The key of row `i`.
    pub fn key_at(&self, i: usize) -> (k: &Vec<u8>)
        requires
            i < self.rows().len(),
        ensures
            k@ == self.rows()[i as int].0,
    {
        &self.entries[i].0
    }

    /// The count of row `i`.
    pub fn val_at(&self, i: usize) -> (c: u64)
        requires
            i < self.rows().len(),
        ensures
            c == self.rows()[i as int].1,
    {
        self.entries[i].1
    }
}

/// The inner rows stored under code `k`, or no rows when `k` is absent.
pub open spec fn code_val(crs: Seq<(Seq<u8>, Seq<(Seq<u8>, u64)>)>, k: Seq<u8>) -> Seq<
    (Seq<u8>, u64),
> {
    if has_key(crs, k) {
        crs[key_index(crs, k)].1
    } else {
        Seq::empty()
    }
}

/// The nested rows after one occurrence of `req` is recorded under `code`.
pub open spec fn code_add(
    crs: Seq<(Seq<u8>, Seq<(Seq<u8>, u64)>)>,
    code: Seq<u8>,
    req: Seq<u8>,
) -> Seq<(Seq<u8>, Seq<(Seq<u8>, u64)>)> {
    if has_key(crs, code) {
        crs.update(key_index(crs, code), (code, row_add(crs[key_index(crs, code)].1, req, 1)))
    } else {
        crs.push((code, seq![(req, 1u64)]))
    }
}

/// Every inner table has distinct keys.
pub open spec fn inner_wf(crs: Seq<(Seq<u8>, Seq<(Seq<u8>, u64)>)>) -> bool {
    forall|i: int| 0 <= i < crs.len() ==> keys_distinct(#[trigger] crs[i].1)
}

/// The nested rows as a map from code to inner map.
pub open spec fn crows_map(crs: Seq<(Seq<u8>, Seq<(Seq<u8>, u64)>)>) -> Map<
    Seq<u8>,
    Map<Seq<u8>, int>,
> {
    Map::new(|k: Seq<u8>| has_key(crs, k), |k: Seq<u8>| rows_map(code_val(crs, k)))
}

/// Effect of `code_add` on nested rows with distinct keys: `code`'s inner
/// rows gain one occurrence of `req` (a fresh code starts with that one
/// row), every other code keeps its rows.
pub proof fn lemma_code_add(crs: Seq<(Seq<u8>, Seq<(Seq<u8>, u64)>)>, code: Seq<u8>, req: Seq<u8>)
    requires
        keys_distinct(crs),
        inner_wf(crs),
    ensures
        keys_distinct(code_add(crs, code, req)),
        inner_wf(code_add(crs, code, req)),
        has_key(code_add(crs, code, req), code),
        code_val(code_add(crs, code, req), code) == row_add(code_val(crs, code), req, 1),
        forall|k2: Seq<u8>| k2 != code ==> #[trigger] has_key(code_add(crs, code, req), k2)
            == has_key(crs, k2),
        forall|k2: Seq<u8>| k2 != code ==> #[trigger] code_val(code_add(crs, code, req), k2)
            == code_val(crs, k2),
        crows_map(code_add(crs, code, req)) == crows_map(crs).insert(
            code,
            rows_map(row_add(code_val(crs, code), req, 1)),
        ),
        code_add(crs, code, req).len() == if has_key(crs, code) {
            crs.len() as int
        } else {
            crs.len() + 1int
        },
        forall|i: int|
            0 <= i < crs.len() && crs[i].0 != code ==> #[trigger] code_add(crs, code, req)[i]
                == crs[i],
{
    let crs2 = code_add(crs, code, req);
    if has_key(crs, code) {
        let i = key_index(crs, code);
        assert(0 <= i < crs.len() && crs[i].0 == code);
        lemma_row_add(crs[i].1, req, 1);
        assert(forall|j: int| 0 <= j < crs2.len() ==> crs2[j].0 == crs[j].0);
        assert(keys_distinct(crs2));
        assert forall|k2: Seq<u8>| #[trigger] has_key(crs2, k2) == has_key(crs, k2) by {
            if has_key(crs, k2) {
                let j = key_index(crs, k2);
                assert(crs2[j].0 == k2);
            }
            if has_key(crs2, k2) {
                let j = key_index(crs2, k2);
                assert(crs[j].0 == k2);
            }
        }
        lemma_key_index_unique(crs2, code, i);
        assert forall|k2: Seq<u8>| k2 != code && has_key(crs, k2) implies #[trigger] code_val(
            crs2,
            k2,
        ) == code_val(crs, k2) by {
            let j = key_index(crs, k2);
            assert(0 <= j < crs.len() && crs[j].0 == k2);
            assert(j != i);
            lemma_key_index_unique(crs2, k2, j);
        }
        assert forall|j: int| 0 <= j < crs2.len() implies keys_distinct(#[trigger] crs2[j].1) by {
            if j != i {
                assert(crs2[j].1 == crs[j].1);
            }
        }
    } else {
        assert(forall|j: int| 0 <= j < crs.len() ==> crs2[j] == crs[j]);
        assert(crs2[crs.len() as int] == (code, seq![(req, 1u64)]));
        assert forall|i: int, j: int| 0 <= i < j < crs2.len() implies crs2[i].0 != crs2[j].0 by {
            if j < crs.len() {
            } else {
                assert(crs2[j].0 == code);
                assert(!(crs[i].0 == code));
            }
        }
        lemma_key_index_unique(crs2, code, crs.len() as int);
        assert forall|k2: Seq<u8>| k2 != code implies #[trigger] has_key(crs2, k2) == has_key(
            crs,
            k2,
        ) by {
            if has_key(crs, k2) {
                let j = key_index(crs, k2);
                assert(crs2[j].0 == k2);
            }
            if has_key(crs2, k2) {
                let j = key_index(crs2, k2);
                assert(0 <= j < crs2.len() && crs2[j].0 == k2);
                assert(j < crs.len());
                assert(crs[j].0 == k2);
            }
        }
        assert forall|k2: Seq<u8>| k2 != code && has_key(crs, k2) implies #[trigger] code_val(
            crs2,
            k2,
        ) == code_val(crs, k2) by {
            let j = key_index(crs, k2);
            assert(0 <= j < crs.len() && crs[j].0 == k2);
            lemma_key_index_unique(crs2, k2, j);
        }
        assert(code_val(crs2, code) =~= row_add(code_val(crs, code), req, 1));
        assert forall|j: int| 0 <= j < crs2.len() implies keys_distinct(#[trigger] crs2[j].1) by {
            if j < crs.len() {
                assert(crs2[j].1 == crs[j].1);
            } else {
                let one = seq![(req, 1u64)];
                assert(crs2[j].1 == one);
                assert(keys_distinct(one));
            }
        }
    }
    assert(crows_map(crs2) =~= crows_map(crs).insert(
        code,
        rows_map(row_add(code_val(crs, code), req, 1)),
    ));
}

/// The bad-status breakdown: one inner table of request lines per status
/// code, codes pairwise distinct.
pub struct CodeTable {
    pub entries: Vec<(Vec<u8>, Table)>,
}

impl CodeTable {
    /// The rows: each code's bytes with its inner rows.
    pub closed spec fn rows(self) -> Seq<(Seq<u8>, Seq<(Seq<u8>, u64)>)> {
        self.entries@.map(|i: int, e: (Vec<u8>, Table)| (e.0@, e.1.rows()))
    }

    /// Codes pairwise distinct, every inner table well formed.
    pub open spec fn wf(self) -> bool {
        keys_distinct(self.rows()) && inner_wf(self.rows())
    }

    /// The nested table as a map from code to inner map.
    pub open spec fn as_map(self) -> Map<Seq<u8>, Map<Seq<u8>, int>> {
        crows_map(self.rows())
    }

    /// An empty nested table.
    pub fn new() -> (t: CodeTable)
        ensures
            t.wf(),
            t.rows() == Seq::<(Seq<u8>, Seq<(Seq<u8>, u64)>)>::empty(),
    {
        let t = CodeTable { entries: Vec::new() };
        proof {
            assert(t.rows() =~= Seq::<(Seq<u8>, Seq<(Seq<u8>, u64)>)>::empty());
        }
        t
    }

    /// Number of codes.
    pub fn len(&self) -> (n: usize)
        ensures
            n == self.rows().len(),
    {
        self.entries.len()
    }

    /// The row holding `code`, if any.
    fn find(&self, code: &Vec<u8>) -> (o: Option<usize>)
        ensures
            match o {
                Some(i) => i < self.rows().len() && self.rows()[i as int].0 == code@,
                None => !has_key(self.rows(), code@),
            },
    {
        let ghost rs = self.rows();
        let mut i: usize = 0;
        while i < self.entries.len()
            invariant
                0 <= i <= self.entries.len(),
                rs == self.rows(),
                rs.len() == self.entries.len(),
                forall|j: int| 0 <= j < i ==> rs[j].0 != code@,
            decreases self.entries.len() - i,
        {
            let e = &self.entries[i];
            if bytes_eq(&e.0, code) {
                return Some(i);
            }
            i = i + 1;
        }
        None
    }

    /// Record one occurrence of `req` under `code`.
    pub fn add(&mut self, code: Vec<u8>, req: Vec<u8>)
        requires
            old(self).wf(),
        ensures
            final(self).wf(),
            final(self).rows() == code_add(old(self).rows(), code@, req@),
    {
        let ghost rs = self.rows();
        match self.find(&code) {
            Some(i) => {
                let (k0, mut t) = self.entries.remove(i);
                proof {
                    lemma_key_index_unique(rs, code@, i as int);
                    assert(k0@ == code@);
                    assert(t.rows() == rs[i as int].1);
                    assert(keys_distinct(t.rows()));
                }
                t.add(req, 1);
                self.entries.insert(i, (k0, t));
                proof {
                    assert(self.rows() =~= rs.update(
                        i as int,
                        (code@, row_add(rs[i as int].1, req@, 1)),
                    ));
                    lemma_code_add(rs, code@, req@);
                }
            },
            None => {
                let mut t = Table::new();
                t.add(req, 1);
                self.entries.push((code, t));
                proof {
                    assert(t.rows() =~= seq![(req@, 1u64)]);
                    assert(self.rows() =~= rs.push((code@, seq![(req@, 1u64)])));
                    lemma_code_add(rs, code@, req@);
                }
            },
        }
    }

    /// The inner table stored under `code`, if any.
    pub fn get(&self, code: &Vec<u8>) -> (o: Option<&Table>)
        requires
            self.wf(),
        ensures
            match o {
                Some(t) => has_key(self.rows(), code@) && t.rows() == code_val(
                    self.rows(),
                    code@,
                ) && t.wf(),
                None => !has_key(self.rows(), code@),
            },
    {
        match self.find(code) {
            Some(i) => {
                proof {
                    lemma_key_index_unique(self.rows(), code@, i as int);
                }
                let e = &self.entries[i];
                Some(&e.1)
            },
            None => None,
        }
    }

    /// The code of row `i`.
    pub fn key_at(&self, i: usize) -> (k: &Vec<u8>)
        requires
            i < self.rows().len(),
        ensures
            k@ == self.rows()[i as int].0,
    {
        &self.entries[i].0
    }

    /// The inner table of row `i`.
    pub fn table_at(&self, i: usize) -> (t: &Table)
        requires
            i < self.rows().len(),
            self.wf(),
        ensures
            t.rows() == self.rows()[i as int].1,
            t.wf(),
    {
        proof {
            assert(keys_distinct(self.rows()[i as int].1));
        }
        &self.entries[i].1
    }
}

/// Byte-wise equality of two keys.
pub fn bytes_eq(a: &Vec<u8>, b: &Vec<u8>) -> (r: bool)
    ensures
        r == (a@ == b@),
{
    if a.len() != b.len() {
        return false;
    }
    let mut i: usize = 0;
    while i < a.len()
        invariant
            0 <= i <= a@.len(),
            a@.len() == b@.len(),
            forall|j: int| 0 <= j < i ==> a@[j] == b@[j],
        decreases a@.len() - i,
    {
        if a[i] != b[i] {
            return false;
        }
        i = i + 1;
    }
    proof {
        assert(a@ =~= b@);
    }
    true
}

/// Copy a key.
pub fn clone_key(v: &Vec<u8>) -> (r: Vec<u8>)
    ensures
        r@ == v@,
{
    let mut r: Vec<u8> = Vec::new();
    let mut i: usize = 0;
    while i < v.len()
        invariant
            0 <= i <= v@.len(),
            r@ == v@.subrange(0, i as int),
        decreases v@.len() - i,
    {
        let x = v[i];
        r.push(x);
        i = i + 1;
        proof {
            assert(v@.subrange(0, i as int) =~= v@.subrange(0, i - 1).push(v@[i - 1]));
        }
    }
    proof {
        assert(v@.subrange(0, v@.len() as int) =~= v@);
    }
    r
}

} // verus!
