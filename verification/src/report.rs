//! Report-side computation: human-scaled byte formatting, the two table
//! rankings, and the report configuration. Rendering itself (column widths,
//! labels, colors) is left to the surrounding program.

use vstd::prelude::*;
use vstd::arithmetic::div_mod::{
    lemma_div_decreases, lemma_div_denominator, lemma_div_pos_is_pos, lemma_fundamental_div_mod,
    lemma_mod_bound,
};
use vstd::arithmetic::mul::lemma_mul_inequality;
use vstd::multiset::Multiset;
use crate::agg::LineParser;
use crate::table::{clone_key, view_rows, Table};

verus! {

/// Moving one row from the pool to the ranked output keeps the combined
/// contents.
proof fn lemma_transfer(
    a: Seq<(Seq<u8>, u64)>,
    b: Seq<(Seq<u8>, u64)>,
    m: int,
    total: Multiset<(Seq<u8>, u64)>,
)
    requires
        0 <= m < b.len(),
        a.to_multiset().add(b.to_multiset()) == total,
    ensures
        a.push(b[m]).to_multiset().add(b.remove(m).to_multiset()) == total,
{
    broadcast use vstd::seq_lib::group_to_multiset_ensures;

    let x = b[m];
    assert(b.contains(x));
    assert(b.to_multiset().count(x) > 0);
    assert(a.push(x).to_multiset() =~= a.to_multiset().insert(x));
    assert(b.remove(m).to_multiset() =~= b.to_multiset().remove(x));
    assert(a.to_multiset().insert(x).add(b.to_multiset().remove(x)) =~= a.to_multiset().add(
        b.to_multiset(),
    ));
}

/// Lexicographic byte order: the empty string first, then by the first
/// differing byte.
pub open spec fn lex_le(a: Seq<u8>, b: Seq<u8>) -> bool
    decreases a.len(),
{
    if a.len() == 0 {
        true
    } else if b.len() == 0 {
        false
    } else if a[0] < b[0] {
        true
    } else if a[0] > b[0] {
        false
    } else {
        lex_le(a.drop_first(), b.drop_first())
    }
}

/// Every byte string precedes itself.
pub proof fn lemma_lex_refl(a: Seq<u8>)
    ensures
        lex_le(a, a),
    decreases a.len(),
{
    if a.len() > 0 {
        lemma_lex_refl(a.drop_first());
    }
}

/// Of two byte strings, one always precedes the other.
pub proof fn lemma_lex_total(a: Seq<u8>, b: Seq<u8>)
    ensures
        lex_le(a, b) || lex_le(b, a),
    decreases a.len(),
{
    if a.len() > 0 && b.len() > 0 && a[0] == b[0] {
        lemma_lex_total(a.drop_first(), b.drop_first());
    }
}

/// Compare two keys lexicographically.
pub fn lex_le_bytes(a: &Vec<u8>, b: &Vec<u8>) -> (r: bool)
    ensures
        r == lex_le(a@, b@),
{
    proof {
        assert(a@.skip(0) =~= a@);
        assert(b@.skip(0) =~= b@);
    }
    let mut i: usize = 0;
    loop
        invariant
            i <= a@.len(),
            i <= b@.len(),
            lex_le(a@, b@) == lex_le(a@.skip(i as int), b@.skip(i as int)),
        decreases a@.len() - i,
    {
        if i == a.len() {
            proof {
                assert(a@.skip(i as int) =~= Seq::<u8>::empty());
            }
            return true;
        }
        if i == b.len() {
            proof {
                assert(b@.skip(i as int) =~= Seq::<u8>::empty());
                assert(a@.skip(i as int).len() > 0);
            }
            return false;
        }
        let x = a[i];
        let y = b[i];
        proof {
            assert(a@.skip(i as int)[0] == a@[i as int]);
            assert(b@.skip(i as int)[0] == b@[i as int]);
        }
        if x < y {
            return true;
        }
        if x > y {
            return false;
        }
        i = i + 1;
        proof {
            assert(a@.skip(i - 1).drop_first() =~= a@.skip(i as int));
            assert(b@.skip(i - 1).drop_first() =~= b@.skip(i as int));
        }
    }
}

/// Copy a table's rows into a vector, in table order.
fn copy_rows(t: &Table) -> (v: Vec<(Vec<u8>, u64)>)
    ensures
        view_rows(v@) == t.rows(),
{
    let mut v: Vec<(Vec<u8>, u64)> = Vec::new();
    let mut i: usize = 0;
    proof {
        assert(view_rows(v@) =~= t.rows().subrange(0, 0));
    }
    while i < t.len()
        invariant
            0 <= i <= t.rows().len(),
            view_rows(v@) == t.rows().subrange(0, i as int),
        decreases t.rows().len() - i,
    {
        let k = clone_key(t.key_at(i));
        let c = t.val_at(i);
        let ghost v0 = v@;
        v.push((k, c));
        i = i + 1;
        proof {
            assert(view_rows(v@) =~= view_rows(v0).push((k@, c)));
            assert((k@, c) == t.rows()[i - 1]);
            assert(view_rows(v@) =~= t.rows().subrange(0, i as int));
        }
    }
    proof {
        assert(t.rows().subrange(0, t.rows().len() as int) =~= t.rows());
    }
    v
}

/// Rank a table's rows by descending count; rows with equal counts keep
/// their table order. The result holds exactly the table's rows.
pub fn sort_by_value(t: &Table) -> (v: Vec<(Vec<u8>, u64)>)
    ensures
        view_rows(v@).to_multiset() == t.rows().to_multiset(),
        forall|i: int| 0 <= i && i + 1 < v@.len() ==> (#[trigger] v@[i]).1 >= v@[i + 1].1,
{
    let mut rest = copy_rows(t);
    let mut v: Vec<(Vec<u8>, u64)> = Vec::new();
    proof {
        broadcast use vstd::seq_lib::group_to_multiset_ensures;

        assert(view_rows(v@) =~= Seq::<(Seq<u8>, u64)>::empty());
        assert(view_rows(v@).to_multiset().add(view_rows(rest@).to_multiset()) =~= t.rows()
            .to_multiset());
    }
    while rest.len() > 0
        invariant
            view_rows(v@).to_multiset().add(view_rows(rest@).to_multiset()) == t.rows()
                .to_multiset(),
            forall|a: int| 0 <= a && a + 1 < v@.len() ==> (#[trigger] v@[a]).1 >= v@[a + 1].1,
            forall|a: int, b: int|
                0 <= a < v@.len() && 0 <= b < rest@.len() ==> (#[trigger] v@[a]).1 >= (
                #[trigger] rest@[b]).1,
        decreases rest@.len(),
    {
        let mut m: usize = 0;
        let mut j: usize = 1;
        while j < rest.len()
            invariant
                m < j <= rest@.len(),
                forall|a: int| 0 <= a < j ==> rest@[m as int].1 >= (#[trigger] rest@[a]).1,
            decreases rest@.len() - j,
        {
            if rest[j].1 > rest[m].1 {
                m = j;
            }
            j = j + 1;
        }
        let ghost r0 = rest@;
        let ghost v0 = v@;
        let e = rest.remove(m);
        v.push(e);
        proof {
            let x = r0[m as int];
            assert(v@ == v0.push(x));
            assert(view_rows(r0.remove(m as int)) =~= view_rows(r0).remove(m as int));
            assert(view_rows(v0.push(x)) =~= view_rows(v0).push((x.0@, x.1)));
            assert(view_rows(r0)[m as int] == (x.0@, x.1));
            lemma_transfer(view_rows(v0), view_rows(r0), m as int, t.rows().to_multiset());
            assert(view_rows(v@).to_multiset().add(view_rows(rest@).to_multiset()) == t.rows()
                .to_multiset());
            assert forall|a: int| 0 <= a && a + 1 < v@.len() implies (#[trigger] v@[a]).1 >= v@[a
                + 1].1 by {
                assert(v@[a] == v0[a]);
                if a + 1 == v@.len() - 1 {
                    assert(v@[a + 1] == x);
                    assert(v0[a].1 >= r0[m as int].1);
                } else {
                    assert(v@[a + 1] == v0[a + 1]);
                }
            }
            assert forall|a: int, b: int|
                0 <= a < v@.len() && 0 <= b < rest@.len() implies (#[trigger] v@[a]).1 >= (
            #[trigger] rest@[b]).1 by {
                let bb = if b < m as int {
                    b
                } else {
                    b + 1
                };
                assert(rest@[b] == r0[bb]);
                if a < v0.len() {
                    assert(v0[a].1 >= r0[bb].1);
                } else {
                    assert(v@[a] == x);
                    assert(r0[m as int].1 >= r0[bb].1);
                }
            }
        }
    }
    v
}

/// Rank a table's rows by ascending key, in lexicographic byte order; the
/// result holds exactly the table's rows.
#[verifier::rlimit(100)]
pub fn sort_by_key(t: &Table) -> (v: Vec<(Vec<u8>, u64)>)
    ensures
        view_rows(v@).to_multiset() == t.rows().to_multiset(),
        forall|i: int| 0 <= i && i + 1 < v@.len() ==> lex_le((#[trigger] v@[i]).0@, v@[i + 1].0@),
{
    let mut rest = copy_rows(t);
    let mut v: Vec<(Vec<u8>, u64)> = Vec::new();
    proof {
        broadcast use vstd::seq_lib::group_to_multiset_ensures;

        assert(view_rows(v@) =~= Seq::<(Seq<u8>, u64)>::empty());
        assert(view_rows(v@).to_multiset().add(view_rows(rest@).to_multiset()) =~= t.rows()
            .to_multiset());
    }
    while rest.len() > 0
        invariant
            view_rows(v@).to_multiset().add(view_rows(rest@).to_multiset()) == t.rows()
                .to_multiset(),
            forall|a: int| 0 <= a && a + 1 < v@.len() ==> lex_le((#[trigger] v@[a]).0@, v@[a + 1].0@),
            forall|a: int, b: int|
                0 <= a < v@.len() && 0 <= b < rest@.len() ==> lex_le(
                    (#[trigger] v@[a]).0@,
                    (#[trigger] rest@[b]).0@,
                ),
        decreases rest@.len(),
    {
        let mut m: usize = 0;
        let mut j: usize = 1;
        proof {
            lemma_lex_refl(rest@[0].0@);
        }
        while j < rest.len()
            invariant
                m < j <= rest@.len(),
                forall|a: int| 0 <= a < j ==> lex_le(rest@[m as int].0@, #[trigger] rest@[a].0@),
            decreases rest@.len() - j,
        {
            let ghost mprev = m as int;
            if !lex_le_bytes(&rest[m].0, &rest[j].0) {
                m = j;
                proof {
                    lemma_lex_total(rest@[mprev].0@, rest@[j as int].0@);
                    assert forall|a: int| 0 <= a < j + 1 implies lex_le(
                        rest@[m as int].0@,
                        #[trigger] rest@[a].0@,
                    ) by {
                        if a < j {
                            lemma_lex_trans_helper(
                                rest@[j as int].0@,
                                rest@[mprev].0@,
                                rest@[a].0@,
                            );
                        } else {
                            lemma_lex_refl(rest@[j as int].0@);
                        }
                    }
                }
            } else {
                proof {
                    assert(lex_le(rest@[m as int].0@, rest@[j as int].0@));
                }
            }
            j = j + 1;
        }
        let ghost r0 = rest@;
        let ghost v0 = v@;
        let e = rest.remove(m);
        v.push(e);
        proof {
            let x = r0[m as int];
            assert(v@ == v0.push(x));
            assert(view_rows(r0.remove(m as int)) =~= view_rows(r0).remove(m as int));
            assert(view_rows(v0.push(x)) =~= view_rows(v0).push((x.0@, x.1)));
            assert(view_rows(r0)[m as int] == (x.0@, x.1));
            lemma_transfer(view_rows(v0), view_rows(r0), m as int, t.rows().to_multiset());
            assert(view_rows(v@).to_multiset().add(view_rows(rest@).to_multiset()) == t.rows()
                .to_multiset());
            assert forall|a: int| 0 <= a && a + 1 < v@.len() implies lex_le(
                (#[trigger] v@[a]).0@,
                v@[a + 1].0@,
            ) by {
                assert(v@[a] == v0[a]);
                if a + 1 == v@.len() - 1 {
                    assert(v@[a + 1] == x);
                    assert(lex_le(v0[a].0@, r0[m as int].0@));
                } else {
                    assert(v@[a + 1] == v0[a + 1]);
                }
            }
            assert forall|a: int, b: int|
                0 <= a < v@.len() && 0 <= b < rest@.len() implies lex_le(
                (#[trigger] v@[a]).0@,
                (#[trigger] rest@[b]).0@,
            ) by {
                let bb = if b < m as int {
                    b
                } else {
                    b + 1
                };
                assert(rest@[b] == r0[bb]);
                if a < v0.len() {
                    assert(lex_le(v0[a].0@, r0[bb].0@));
                } else {
                    assert(v@[a] == x);
                    assert(lex_le(r0[m as int].0@, r0[bb].0@));
                }
            }
        }
    }
    v
}

/// Lexicographic order is transitive.
pub proof fn lemma_lex_trans_helper(a: Seq<u8>, b: Seq<u8>, c: Seq<u8>)
    requires
        lex_le(a, b),
        lex_le(b, c),
    ensures
        lex_le(a, c),
    decreases a.len(),
{
    if a.len() > 0 && b.len() > 0 && c.len() > 0 && a[0] == b[0] && b[0] == c[0] {
        lemma_lex_trans_helper(a.drop_first(), b.drop_first(), c.drop_first());
    }
}

/// The decimal digit character for `d` (values 0 through 9).
pub open spec fn digit_char(d: int) -> char {
    if d == 0 {
        '0'
    } else if d == 1 {
        '1'
    } else if d == 2 {
        '2'
    } else if d == 3 {
        '3'
    } else if d == 4 {
        '4'
    } else if d == 5 {
        '5'
    } else if d == 6 {
        '6'
    } else if d == 7 {
        '7'
    } else if d == 8 {
        '8'
    } else {
        '9'
    }
}

/// Decimal digits of `m`, most significant first.
pub open spec fn dec_digits(m: int) -> Seq<char>
    decreases m,
    via dec_digits_dec
{
    if m < 10 {
        seq![digit_char(m)]
    } else {
        dec_digits(m / 10).push(digit_char(m % 10))
    }
}

#[via_fn]
proof fn dec_digits_dec(m: int) {
    if m >= 10 {
        lemma_div_pos_is_pos(m, 10);
        lemma_div_decreases(m, 10);
    }
}

/// 1024 to the `k`th power.
pub open spec fn pow1024(k: nat) -> int
    decreases k,
{
    if k == 0 {
        1
    } else {
        1024 * pow1024((k - 1) as nat)
    }
}

/// `pow1024` is positive and grows past its exponent.
proof fn lemma_pow1024_ge(k: nat)
    ensures
        pow1024(k) >= k + 1,
    decreases k,
{
    if k > 0 {
        lemma_pow1024_ge((k - 1) as nat);
    }
}

/// How often `m` must be divided by 1024 before it falls under 1024.
pub open spec fn upos(m: int) -> nat
    decreases m,
    via upos_dec
{
    if m < 1024 {
        0
    } else {
        1 + upos(m / 1024)
    }
}

#[via_fn]
proof fn upos_dec(m: int) {
    if m >= 1024 {
        lemma_div_pos_is_pos(m, 1024);
        lemma_div_decreases(m, 1024);
    }
}

/// The unit shown after `pos` divisions by 1024.
pub open spec fn unit_label(pos: int) -> Seq<char> {
    if pos == 0 {
        seq!['B']
    } else if pos == 1 {
        seq!['K', 'B']
    } else if pos == 2 {
        seq!['M', 'B']
    } else if pos == 3 {
        seq!['G', 'B']
    } else if pos == 4 {
        seq!['T', 'B']
    } else if pos == 5 {
        seq!['P', 'B']
    } else if pos == 6 {
        seq!['E', 'B']
    } else if pos == 7 {
        seq!['Z', 'B']
    } else {
        seq!['Y', 'B']
    }
}

/// The human-scaled rendering of a byte count `n`: up to 1024 the raw
/// count with the unit `B`; above that, `n` scaled by 1024 until it falls
/// under 1024, shown with two decimal places (rounded half up, a carry
/// moving into the integer part) and the matching unit.
pub open spec fn spec_byte_format(n: int) -> Seq<char> {
    if n <= 1024 {
        dec_digits(n) + seq![' ', 'B']
    } else {
        let d = pow1024(upos(n));
        let q0 = n / d;
        let c0 = ((n % d) * 100 + d / 2) / d;
        let q = if c0 == 100 {
            q0 + 1
        } else {
            q0
        };
        let c = if c0 == 100 {
            0int
        } else {
            c0
        };
        dec_digits(q) + seq!['.'] + seq![digit_char(c / 10)] + seq![digit_char(c % 10)] + seq![' ']
            + unit_label(upos(n) as int)
    }
}

/// Append the digit character for `d` to `s`.
fn push_digit(s: &mut String, d: u64)
    requires
        d < 10,
    ensures
        final(s)@ == old(s)@ + seq![digit_char(d as int)],
{
    if d == 0 {
        s.append("0");
        proof {
            reveal_strlit("0");
            assert(old(s)@ + "0"@ =~= old(s)@ + seq![digit_char(0)]);
        }
    } else if d == 1 {
        s.append("1");
        proof {
            reveal_strlit("1");
            assert(old(s)@ + "1"@ =~= old(s)@ + seq![digit_char(1)]);
        }
    } else if d == 2 {
        s.append("2");
        proof {
            reveal_strlit("2");
            assert(old(s)@ + "2"@ =~= old(s)@ + seq![digit_char(2)]);
        }
    } else if d == 3 {
        s.append("3");
        proof {
            reveal_strlit("3");
            assert(old(s)@ + "3"@ =~= old(s)@ + seq![digit_char(3)]);
        }
    } else if d == 4 {
        s.append("4");
        proof {
            reveal_strlit("4");
            assert(old(s)@ + "4"@ =~= old(s)@ + seq![digit_char(4)]);
        }
    } else if d == 5 {
        s.append("5");
        proof {
            reveal_strlit("5");
            assert(old(s)@ + "5"@ =~= old(s)@ + seq![digit_char(5)]);
        }
    } else if d == 6 {
        s.append("6");
        proof {
            reveal_strlit("6");
            assert(old(s)@ + "6"@ =~= old(s)@ + seq![digit_char(6)]);
        }
    } else if d == 7 {
        s.append("7");
        proof {
            reveal_strlit("7");
            assert(old(s)@ + "7"@ =~= old(s)@ + seq![digit_char(7)]);
        }
    } else if d == 8 {
        s.append("8");
        proof {
            reveal_strlit("8");
            assert(old(s)@ + "8"@ =~= old(s)@ + seq![digit_char(8)]);
        }
    } else {
        s.append("9");
        proof {
            reveal_strlit("9");
            assert(old(s)@ + "9"@ =~= old(s)@ + seq![digit_char(9)]);
        }
    }
}

/// Append the decimal digits of `m` to `s`.
fn append_dec(s: &mut String, m: u64)
    ensures
        final(s)@ == old(s)@ + dec_digits(m as int),
    decreases m,
{
    if m < 10 {
        push_digit(s, m);
    } else {
        append_dec(s, m / 10);
        proof {
            lemma_mod_bound(m as int, 10);
        }
        push_digit(s, m % 10);
        proof {
            assert(old(s)@ + dec_digits((m / 10) as int) + seq![digit_char((m % 10) as int)]
                =~= old(s)@ + dec_digits(m as int));
        }
    }
}

/// Append the unit for `pos` divisions by 1024 to `s`.
fn append_unit(s: &mut String, pos: u64)
    ensures
        final(s)@ == old(s)@ + unit_label(pos as int),
{
    if pos == 0 {
        s.append("B");
        proof {
            reveal_strlit("B");
            assert(old(s)@ + "B"@ =~= old(s)@ + unit_label(0));
        }
    } else if pos == 1 {
        s.append("KB");
        proof {
            reveal_strlit("KB");
            assert(old(s)@ + "KB"@ =~= old(s)@ + unit_label(1));
        }
    } else if pos == 2 {
        s.append("MB");
        proof {
            reveal_strlit("MB");
            assert(old(s)@ + "MB"@ =~= old(s)@ + unit_label(2));
        }
    } else if pos == 3 {
        s.append("GB");
        proof {
            reveal_strlit("GB");
            assert(old(s)@ + "GB"@ =~= old(s)@ + unit_label(3));
        }
    } else if pos == 4 {
        s.append("TB");
        proof {
            reveal_strlit("TB");
            assert(old(s)@ + "TB"@ =~= old(s)@ + unit_label(4));
        }
    } else if pos == 5 {
        s.append("PB");
        proof {
            reveal_strlit("PB");
            assert(old(s)@ + "PB"@ =~= old(s)@ + unit_label(5));
        }
    } else if pos == 6 {
        s.append("EB");
        proof {
            reveal_strlit("EB");
            assert(old(s)@ + "EB"@ =~= old(s)@ + unit_label(6));
        }
    } else if pos == 7 {
        s.append("ZB");
        proof {
            reveal_strlit("ZB");
            assert(old(s)@ + "ZB"@ =~= old(s)@ + unit_label(7));
        }
    } else {
        s.append("YB");
        proof {
            reveal_strlit("YB");
            assert(old(s)@ + "YB"@ =~= old(s)@ + unit_label(pos as int));
        }
    }
}

/// Render a byte count with a human-scaled unit: a raw count up to 1024,
/// else two decimal places and the unit reached by dividing by 1024.
pub fn byte_format(n: u64) -> (r: String)
    ensures
        r@ == spec_byte_format(n as int),
{
    if n <= 1024 {
        let mut s = String::new();
        append_dec(&mut s, n);
        s.append(" B");
        proof {
            reveal_strlit(" B");
            assert(s@ =~= spec_byte_format(n as int));
        }
        return s;
    }
    let ghost ni = n as int;
    let mut d: u64 = 1;
    let mut pos: u64 = 0;
    proof {
        assert(ni / 1 == ni);
    }
    while n / d >= 1024
        invariant
            1 <= d,
            pos < d,
            d as int == pow1024(pos as nat),
            upos(ni) == pos + upos(ni / (d as int)),
            ni == n,
            n > 1024,
        decreases n / d,
    {
        proof {
            lemma_pow1024_ge((pos + 1) as nat);
        }
        proof {
            let di = d as int;
            lemma_fundamental_div_mod(ni, di);
            lemma_mod_bound(ni, di);
            lemma_mul_inequality(1024, ni / di, di);
            assert(1024 * di <= (ni / di) * di);
            assert(ni >= 1024 * di);
            lemma_div_denominator(ni, di, 1024);
            assert((ni / di) / 1024 == ni / (di * 1024));
            assert(upos(ni / di) == 1 + upos(ni / (di * 1024)));
        }
        d = d * 1024;
        pos = pos + 1;
        proof {
            let di = d as int;
            lemma_div_pos_is_pos(ni, di);
            lemma_div_decreases(ni, di);
        }
    }
    proof {
        assert(upos(ni / (d as int)) == 0);
        assert(pos as nat == upos(ni));
    }
    let q0 = n / d;
    let r = n % d;
    proof {
        lemma_mod_bound(ni, d as int);
    }
    let c128: u128 = ((r as u128) * 100 + (d as u128) / 2) / (d as u128);
    proof {
        let di = d as int;
        let x = (r as int) * 100 + di / 2;
        lemma_div_pos_is_pos(di, 2);
        lemma_mul_inequality(r as int, di - 1, 100);
        assert(x <= (di - 1) * 100 + di / 2);
        lemma_fundamental_div_mod(x, di);
        lemma_mod_bound(x, di);
        if x / di >= 101 {
            lemma_mul_inequality(101, x / di, di);
            assert(101 * di <= (x / di) * di);
            assert(x >= 101 * di);
            assert(di / 2 <= di) by {
                lemma_fundamental_div_mod(di, 2);
                lemma_mod_bound(di, 2);
            }
            assert(false);
        }
        assert(x / di <= 100);
        lemma_div_pos_is_pos(x, di);
    }
    let c0 = c128 as u64;
    let q: u64 = if c0 == 100 {
        q0 + 1
    } else {
        q0
    };
    let c: u64 = if c0 == 100 {
        0
    } else {
        c0
    };
    proof {
        lemma_mod_bound(c as int, 10);
        lemma_div_pos_is_pos(c as int, 10);
    }
    let mut s = String::new();
    append_dec(&mut s, q);
    s.append(".");
    push_digit(&mut s, c / 10);
    push_digit(&mut s, c % 10);
    s.append(" ");
    append_unit(&mut s, pos);
    proof {
        reveal_strlit(".");
        reveal_strlit(" ");
        assert("."@ =~= seq!['.']);
        assert(" "@ =~= seq![' ']);
        assert(s@ =~= spec_byte_format(n as int));
    }
    s
}

/// The report configuration: the finished aggregation state, the row limit
/// of each ranking, and the terminal width the renderer may use.
pub struct InfoPrinter {
    pub parser: LineParser,
    pub limit: usize,
    pub terminal_width: usize,
}

impl InfoPrinter {
    /// Wrap a finished aggregation state for reporting: the row limit is
    /// 100 and the width is the given terminal width where it is sensible
    /// (20 through 9999), else 100.
    pub fn new(parser: LineParser, width: usize) -> (p: InfoPrinter)
        ensures
            p.parser == parser,
            p.limit == 100,
            p.terminal_width == if 20 <= width <= 9999 {
                width as int
            } else {
                100int
            },
    {
        InfoPrinter {
            parser,
            limit: 100,
            terminal_width: if 20 <= width && width <= 9999 {
                width
            } else {
                100
            },
        }
    }
}

} // verus!
