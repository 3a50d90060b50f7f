use vstd::prelude::*;
use crate::models::{Date, DateStats, DomainStats, MonthStats, Ratio, RegionStats, Transaction};
use crate::seq_math::seq_sum;
use vstd::seq_lib::lemma_multiset_commutative;
use crate::stats::{calculate_median, median2_of};
use crate::text::{
    lemma_lex_lt_asymmetric, lemma_lex_lt_connected, lemma_lex_lt_irreflexive,
    lemma_lex_lt_transitive, lex_lt, str_lt,
};

verus! {

/// The grouping dimensions the aggregator supports: geographic region,
/// transaction domain, calendar month (with or without the year), and
/// calendar day.
#[derive(Clone, Copy, PartialEq, Eq, Structural)]
pub enum Dimension {
    Region,
    Domain,
    MonthOnly,
    YearMonth,
    Day,
}

/// Output ordering policies: ascending by group key, or descending by group
/// total (ties broken ascending by key).
#[derive(Clone, Copy, PartialEq, Eq, Structural)]
pub enum Order {
    ByKey,
    ByTotalDesc,
}

/// A group key at run time: text for region and domain, a number for the
/// calendar dimensions.
pub enum GroupKey {
    Text(String),
    Number(u64),
}

impl Clone for GroupKey {
    fn clone(&self) -> (r: Self)
        ensures
            r == *self,
    {
        match self {
            GroupKey::Text(s) => GroupKey::Text(s.clone()),
            GroupKey::Number(n) => GroupKey::Number(*n),
        }
    }
}

/// A group key as a mathematical value.
pub enum KeyVal {
    Text(Seq<char>),
    Number(int),
}

pub open spec fn key_model(k: GroupKey) -> KeyVal {
    match k {
        GroupKey::Text(s) => KeyVal::Text(s@),
        GroupKey::Number(n) => KeyVal::Number(n as int),
    }
}

/// The year-and-month bucket key, packed as `year * 100 + month` so that the
/// numeric order is the chronological order.
pub open spec fn year_month_key_of(d: Date) -> int {
    d.year * 100 + d.month
}

/// The calendar-day bucket key, packed as `year * 512 + month * 32 + day` so
/// that for well-formed dates the numeric order is the chronological order
/// and the packing is reversible.
pub open spec fn day_key_of(d: Date) -> int {
    d.year * 512 + d.month * 32 + d.day
}

/// The key a transaction falls under, per dimension.
pub open spec fn key_of_spec(t: Transaction, dim: Dimension) -> KeyVal {
    match dim {
        Dimension::Region => KeyVal::Text(t.location@),
        Dimension::Domain => KeyVal::Text(t.domain@),
        Dimension::MonthOnly => KeyVal::Number(t.date.month as int),
        Dimension::YearMonth => KeyVal::Number(year_month_key_of(t.date)),
        Dimension::Day => KeyVal::Number(day_key_of(t.date)),
    }
}

/// Strict order on keys: text keys lexicographically, numeric keys
/// numerically.  (Keys of the two shapes never meet within one dimension.)
pub open spec fn key_lt(a: KeyVal, b: KeyVal) -> bool {
    match (a, b) {
        (KeyVal::Text(x), KeyVal::Text(y)) => lex_lt(x, y),
        (KeyVal::Text(_), KeyVal::Number(_)) => true,
        (KeyVal::Number(_), KeyVal::Text(_)) => false,
        (KeyVal::Number(x), KeyVal::Number(y)) => x < y,
    }
}

pub proof fn lemma_key_lt_connected(a: KeyVal, b: KeyVal)
    requires
        !key_lt(a, b),
        !key_lt(b, a),
    ensures
        a == b,
{
    if a is Text && b is Text {
        lemma_lex_lt_connected(a->Text_0, b->Text_0);
    }
}

pub proof fn lemma_key_lt_asymmetric(a: KeyVal, b: KeyVal)
    requires
        key_lt(a, b),
    ensures
        !key_lt(b, a),
        a != b,
{
    if a is Text && b is Text {
        lemma_lex_lt_asymmetric(a->Text_0, b->Text_0);
    }
}

pub proof fn lemma_key_lt_transitive(a: KeyVal, b: KeyVal, c: KeyVal)
    requires
        key_lt(a, b),
        key_lt(b, c),
    ensures
        key_lt(a, c),
{
    if a is Text && b is Text && c is Text {
        lemma_lex_lt_transitive(a->Text_0, b->Text_0, c->Text_0);
    }
}

fn key_lt_exec(a: &GroupKey, b: &GroupKey) -> (r: bool)
    ensures
        r == key_lt(key_model(*a), key_model(*b)),
{
    match (a, b) {
        (GroupKey::Text(x), GroupKey::Text(y)) => str_lt(x.as_str(), y.as_str()),
        (GroupKey::Text(_), GroupKey::Number(_)) => true,
        (GroupKey::Number(_), GroupKey::Text(_)) => false,
        (GroupKey::Number(x), GroupKey::Number(y)) => *x < *y,
    }
}

fn key_eq_exec(a: &GroupKey, b: &GroupKey) -> (r: bool)
    ensures
        r == (key_model(*a) == key_model(*b)),
{
    match (a, b) {
        (GroupKey::Text(x), GroupKey::Text(y)) => x.eq(y),
        (GroupKey::Number(x), GroupKey::Number(y)) => *x == *y,
        (GroupKey::Text(_), GroupKey::Number(_)) => false,
        (GroupKey::Number(_), GroupKey::Text(_)) => false,
    }
}

/// Computes the run-time key of a transaction for a dimension.
fn key_of(t: &Transaction, dim: Dimension) -> (k: GroupKey)
    requires
        t.date.wf(),
    ensures
        key_model(k) == key_of_spec(*t, dim),
{
    match dim {
        Dimension::Region => GroupKey::Text(t.location.clone()),
        Dimension::Domain => GroupKey::Text(t.domain.clone()),
        Dimension::MonthOnly => GroupKey::Number(t.date.month as u64),
        Dimension::YearMonth => GroupKey::Number(
            (t.date.year as u64) * 100 + (t.date.month as u64),
        ),
        Dimension::Day => GroupKey::Number(
            (t.date.year as u64) * 512 + (t.date.month as u64) * 32 + (t.date.day as u64),
        ),
    }
}

/// The `value` fields of the transactions under key `k`, in input order.
pub open spec fn values_for(s: Seq<Transaction>, dim: Dimension, k: KeyVal) -> Seq<u64>
    decreases s.len(),
{
    if s.len() == 0 {
        Seq::empty()
    } else {
        values_for(s.drop_last(), dim, k) + if key_of_spec(s.last(), dim) == k {
            seq![s.last().value]
        } else {
            Seq::empty()
        }
    }
}

/// The sum of `transaction_count` over the transactions under key `k`.
pub open spec fn tc_for(s: Seq<Transaction>, dim: Dimension, k: KeyVal) -> int
    decreases s.len(),
{
    if s.len() == 0 {
        0
    } else {
        tc_for(s.drop_last(), dim, k) + if key_of_spec(s.last(), dim) == k {
            s.last().transaction_count as int
        } else {
            0
        }
    }
}

/// The sum of `value` over all transactions.
pub open spec fn value_total(s: Seq<Transaction>) -> int
    decreases s.len(),
{
    if s.len() == 0 {
        0
    } else {
        value_total(s.drop_last()) + s.last().value
    }
}

/// The sum of `transaction_count` over all transactions.
pub open spec fn tc_total(s: Seq<Transaction>) -> int
    decreases s.len(),
{
    if s.len() == 0 {
        0
    } else {
        tc_total(s.drop_last()) + s.last().transaction_count
    }
}

/// Some transaction of the sequence falls under key `k`.
pub open spec fn key_present(s: Seq<Transaction>, dim: Dimension, k: KeyVal) -> bool {
    exists|j: int| 0 <= j < s.len() && key_of_spec(s[j], dim) == k
}

/// Extending the input by one transaction extends that transaction's group
/// by its value and transaction count, and leaves every other group as it
/// was.
proof fn lemma_group_snoc(s: Seq<Transaction>, i: int, dim: Dimension, k: KeyVal)
    requires
        0 <= i < s.len(),
    ensures
        key_of_spec(s[i], dim) == k ==> values_for(s.take(i + 1), dim, k) == values_for(
            s.take(i),
            dim,
            k,
        ).push(s[i].value),
        key_of_spec(s[i], dim) != k ==> values_for(s.take(i + 1), dim, k) == values_for(
            s.take(i),
            dim,
            k,
        ),
        key_of_spec(s[i], dim) == k ==> tc_for(s.take(i + 1), dim, k) == tc_for(s.take(i), dim, k)
            + s[i].transaction_count,
        key_of_spec(s[i], dim) != k ==> tc_for(s.take(i + 1), dim, k) == tc_for(s.take(i), dim, k),
{
    let pfx = s.take(i + 1);
    assert(pfx.drop_last() =~= s.take(i));
    assert(pfx.last() == s[i]);
    if key_of_spec(s[i], dim) == k {
        assert(values_for(s.take(i), dim, k) + seq![s[i].value] =~= values_for(
            s.take(i),
            dim,
            k,
        ).push(s[i].value));
    } else {
        assert(values_for(s.take(i), dim, k) + Seq::<u64>::empty() =~= values_for(
            s.take(i),
            dim,
            k,
        ));
    }
}

/// A key under which no transaction falls has an empty group.
proof fn lemma_absent_key_empty(s: Seq<Transaction>, dim: Dimension, k: KeyVal)
    requires
        !key_present(s, dim, k),
    ensures
        values_for(s, dim, k) == Seq::<u64>::empty(),
        tc_for(s, dim, k) == 0,
    decreases s.len(),
{
    if s.len() > 0 {
        assert(!key_present(s.drop_last(), dim, k)) by {
            if key_present(s.drop_last(), dim, k) {
                let j = choose|j: int|
                    0 <= j < s.drop_last().len() && key_of_spec(s.drop_last()[j], dim) == k;
                assert(key_of_spec(s[j], dim) == k);
            }
        }
        assert(key_of_spec(s.last(), dim) != k) by {
            if key_of_spec(s.last(), dim) == k {
                assert(key_of_spec(s[s.len() - 1], dim) == k);
            }
        }
        lemma_absent_key_empty(s.drop_last(), dim, k);
        assert(values_for(s, dim, k) =~= Seq::<u64>::empty());
    }
}

/// A key under which some transaction falls has a non-empty group.
proof fn lemma_present_key_nonempty(s: Seq<Transaction>, dim: Dimension, k: KeyVal)
    requires
        key_present(s, dim, k),
    ensures
        values_for(s, dim, k).len() >= 1,
    decreases s.len(),
{
    if s.len() > 0 {
        if key_of_spec(s.last(), dim) == k {
        } else {
            let j = choose|j: int| 0 <= j < s.len() && key_of_spec(s[j], dim) == k;
            assert(j < s.len() - 1);
            assert(s.drop_last()[j] == s[j]);
            lemma_present_key_nonempty(s.drop_last(), dim, k);
        }
    }
}

/// A group's value sum never exceeds the sum over all transactions.
proof fn lemma_group_sum_le_total(s: Seq<Transaction>, dim: Dimension, k: KeyVal)
    ensures
        seq_sum(values_for(s, dim, k)) <= value_total(s),
        0 <= seq_sum(values_for(s, dim, k)),
    decreases s.len(),
{
    if s.len() == 0 {
    } else {
        lemma_group_sum_le_total(s.drop_last(), dim, k);
        if key_of_spec(s.last(), dim) == k {
            let prev = values_for(s.drop_last(), dim, k);
            assert(values_for(s, dim, k) =~= prev.push(s.last().value));
            assert(values_for(s, dim, k).drop_last() =~= prev);
        } else {
            assert(values_for(s, dim, k) =~= values_for(s.drop_last(), dim, k));
        }
    }
}

/// A group's transaction-count sum never exceeds the sum over all
/// transactions, and is bounded by the length times the field's maximum.
proof fn lemma_group_tc_le_total(s: Seq<Transaction>, dim: Dimension, k: KeyVal)
    ensures
        tc_for(s, dim, k) <= tc_total(s),
        0 <= tc_for(s, dim, k),
        tc_total(s) <= s.len() * (u32::MAX as int),
    decreases s.len(),
{
    if s.len() > 0 {
        lemma_group_tc_le_total(s.drop_last(), dim, k);
        assert((s.len() - 1) * (u32::MAX as int) + (u32::MAX as int) == s.len() * (
        u32::MAX as int)) by (nonlinear_arith);
    }
}

/// One group under construction: its key, the values seen so far in input
/// order, and the running transaction-count sum.
struct Group {
    key: GroupKey,
    values: Vec<u64>,
    tc_sum: u128,
}

/// The grouping pass invariant: groups strictly sorted by key, each group
/// holding exactly its key's values and transaction-count sum, no group
/// without a witness, and every transaction covered by some group.
spec fn groups_wf(gs: Seq<Group>, s: Seq<Transaction>, dim: Dimension) -> bool {
    &&& forall|a: int, b: int|
        0 <= a < b < gs.len() ==> key_lt(key_model(gs[a].key), key_model(gs[b].key))
    &&& forall|a: int|
        0 <= a < gs.len() ==> (#[trigger] gs[a]).values@ == values_for(
            s,
            dim,
            key_model(gs[a].key),
        )
    &&& forall|a: int|
        0 <= a < gs.len() ==> (#[trigger] gs[a]).tc_sum as int == tc_for(
            s,
            dim,
            key_model(gs[a].key),
        )
    &&& forall|a: int| 0 <= a < gs.len() ==> key_present(s, dim, key_model((#[trigger] gs[a]).key))
    &&& forall|j: int|
        0 <= j < s.len() ==> exists|a: int|
            0 <= a < gs.len() && key_model(gs[a].key) == #[trigger] key_of_spec(s[j], dim)
}

/// A single pass that partitions the transactions into groups, one per
/// distinct key, kept sorted ascending by key.
#[verifier::loop_isolation(false)]
#[verifier::rlimit(40)]
fn group_transactions(transactions: &Vec<Transaction>, dim: Dimension) -> (gs: Vec<Group>)
    requires
        forall|j: int| 0 <= j < transactions@.len() ==> (#[trigger] transactions@[j]).date.wf(),
    ensures
        groups_wf(gs@, transactions@, dim),
{
    let n = transactions.len();
    let mut gs: Vec<Group> = Vec::new();
    proof {
        assert(transactions@.take(0) =~= Seq::<Transaction>::empty());
    }
    let mut i: usize = 0;
    while i < n
        invariant
            i <= n,
            groups_wf(gs@, transactions@.take(i as int), dim),
        decreases n - i,
    {
        let ghost pfx = transactions@.take(i as int);
        let ghost pfx1 = transactions@.take(i + 1);
        let k = key_of(&transactions[i], dim);
        let ghost km = key_model(k);
        proof {
            assert(km == key_of_spec(transactions@[i as int], dim));
            assert(pfx1.drop_last() =~= pfx);
            assert(pfx1.last() == transactions@[i as int]);
            assert forall|j: int| 0 <= j < i implies pfx1[j] == pfx[j] by {}
        }
        let mut m: usize = 0;
        while m < gs.len() && key_lt_exec(&gs[m].key, &k)
            invariant
                m <= gs@.len(),
                forall|a: int| 0 <= a < m ==> key_lt(key_model((#[trigger] gs@[a]).key), km),
            decreases gs@.len() - m,
        {
            m = m + 1;
        }
        proof {
            // every group before position m has a key strictly below km, and
            // every group at or after it a key strictly above or equal
            assert forall|a: int| 0 <= a < m implies key_model((#[trigger] gs@[a]).key) != km by {
                lemma_key_lt_asymmetric(key_model(gs@[a].key), km);
            }
        }
        let matched = if m < gs.len() {
            key_eq_exec(&gs[m].key, &k)
        } else {
            false
        };
        let ghost gs_old = gs@;
        if matched {
            let mut g = gs.remove(m);
            g.values.push(transactions[i].value);
            proof {
                lemma_group_tc_le_total(pfx, dim, km);
                assert(pfx.len() * (u32::MAX as int) + (u32::MAX as int) < u128::MAX)
                    by (nonlinear_arith)
                    requires pfx.len() <= 0xffff_ffff_ffff_ffff;
            }
            g.tc_sum = g.tc_sum + (transactions[i].transaction_count as u128);
            gs.insert(m, g);
            proof {
                let gnew = gs@;
                assert(gnew =~= gs_old.update(m as int, gnew[m as int]));
                assert(key_model(gnew[m as int].key) == km);
                assert forall|a: int| 0 <= a < gnew.len() && a != m implies gnew[a] == gs_old[a]
                    by {}
                assert forall|a: int| 0 <= a < gnew.len() && a != m implies key_model(
                    gnew[a].key,
                ) != km by {
                    if a < m {
                        lemma_key_lt_asymmetric(key_model(gs_old[a].key), km);
                    } else {
                        assert(key_lt(key_model(gs_old[m as int].key), key_model(gs_old[a].key)));
                        lemma_key_lt_asymmetric(km, key_model(gs_old[a].key));
                    }
                }
                assert forall|a: int| 0 <= a < gnew.len() implies (#[trigger] gnew[a]).values@
                    == values_for(pfx1, dim, key_model(gnew[a].key)) && gnew[a].tc_sum as int
                    == tc_for(pfx1, dim, key_model(gnew[a].key)) by {
                    lemma_group_snoc(transactions@, i as int, dim, key_model(gnew[a].key));
                }
                assert forall|a: int| 0 <= a < gnew.len() implies key_present(
                    pfx1,
                    dim,
                    key_model((#[trigger] gnew[a]).key),
                ) by {
                    let ka = key_model(gnew[a].key);
                    let j = choose|j: int| 0 <= j < pfx.len() && key_of_spec(pfx[j], dim) == ka;
                    assert(key_of_spec(pfx1[j], dim) == ka);
                }
                assert forall|j: int| 0 <= j < pfx1.len() implies exists|a: int|
                    0 <= a < gnew.len() && key_model(gnew[a].key) == #[trigger] key_of_spec(
                        pfx1[j],
                        dim,
                    ) by {
                    if j < i {
                        let a = choose|a: int|
                            0 <= a < gs_old.len() && key_model(gs_old[a].key) == key_of_spec(
                                pfx[j],
                                dim,
                            );
                        assert(key_model(gnew[a].key) == key_of_spec(pfx1[j], dim));
                    } else {
                        assert(key_model(gnew[m as int].key) == key_of_spec(pfx1[j], dim));
                    }
                }
            }
        } else {
            proof {
                if m < gs_old.len() {
                    let gm = key_model(gs_old[m as int].key);
                    assert(key_lt(km, gm)) by {
                        if !key_lt(km, gm) {
                            lemma_key_lt_connected(gm, km);
                        }
                    }
                }
                assert forall|a: int| m <= a < gs_old.len() implies key_lt(
                    km,
                    key_model((#[trigger] gs_old[a]).key),
                ) by {
                    if a > m {
                        assert(key_lt(key_model(gs_old[m as int].key), key_model(gs_old[a].key)));
                        lemma_key_lt_transitive(
                            km,
                            key_model(gs_old[m as int].key),
                            key_model(gs_old[a].key),
                        );
                    }
                }
                assert forall|a: int| 0 <= a < gs_old.len() implies key_model(
                    (#[trigger] gs_old[a]).key,
                ) != km by {
                    if a < m {
                        lemma_key_lt_asymmetric(key_model(gs_old[a].key), km);
                    } else {
                        lemma_key_lt_asymmetric(km, key_model(gs_old[a].key));
                    }
                }
                assert(!key_present(pfx, dim, km)) by {
                    if key_present(pfx, dim, km) {
                        let j = choose|j: int|
                            0 <= j < pfx.len() && key_of_spec(pfx[j], dim) == km;
                        assert(key_of_spec(transactions@[j], dim) == km);
                        assert(exists|a: int|
                            0 <= a < gs_old.len() && key_model(gs_old[a].key) == key_of_spec(
                                pfx[j],
                                dim,
                            ));
                    }
                }
                lemma_absent_key_empty(pfx, dim, km);
            }
            let mut vs: Vec<u64> = Vec::new();
            vs.push(transactions[i].value);
            let g = Group {
                key: k,
                values: vs,
                tc_sum: transactions[i].transaction_count as u128,
            };
            gs.insert(m, g);
            proof {
                let gnew = gs@;
                gs_old.insert_ensures(m as int, gnew[m as int]);
                assert(key_model(gnew[m as int].key) == km);
                assert(gnew[m as int].values@ =~= seq![transactions@[i as int].value]);
                assert forall|a: int, b: int| 0 <= a < b < gnew.len() implies key_lt(
                    key_model(gnew[a].key),
                    key_model(gnew[b].key),
                ) by {
                    let p = m as int;
                    if b < p {
                        assert(gnew[a] == gs_old[a] && gnew[b] == gs_old[b]);
                    } else if a > p {
                        assert(gnew[a] == gs_old[a - 1] && gnew[b] == gs_old[b - 1]);
                    } else if a == p {
                        assert(gnew[b] == gs_old[b - 1]);
                        assert(key_lt(km, key_model(gs_old[b - 1].key)));
                    } else if b == p {
                        assert(gnew[a] == gs_old[a]);
                        assert(key_lt(key_model(gs_old[a].key), km));
                    } else {
                        assert(a < p < b);
                        assert(gnew[a] == gs_old[a] && gnew[b] == gs_old[b - 1]);
                        assert(key_lt(key_model(gs_old[a].key), km));
                        assert(key_lt(km, key_model(gs_old[b - 1].key)));
                        lemma_key_lt_transitive(
                            key_model(gs_old[a].key),
                            km,
                            key_model(gs_old[b - 1].key),
                        );
                    }
                }
                assert forall|a: int| 0 <= a < gnew.len() implies (#[trigger] gnew[a]).values@
                    == values_for(pfx1, dim, key_model(gnew[a].key)) && gnew[a].tc_sum as int
                    == tc_for(pfx1, dim, key_model(gnew[a].key)) by {
                    let ka = key_model(gnew[a].key);
                    lemma_group_snoc(transactions@, i as int, dim, ka);
                    if a < m {
                        assert(gnew[a] == gs_old[a]);
                        assert(ka != km);
                    } else if a > m {
                        assert(gnew[a] == gs_old[a - 1]);
                        assert(ka != km);
                    } else {
                        assert(values_for(pfx, dim, km) == Seq::<u64>::empty());
                        assert(values_for(pfx1, dim, km) == values_for(pfx, dim, km).push(
                            transactions@[i as int].value,
                        ));
                        assert(values_for(pfx1, dim, km) =~= seq![transactions@[i as int].value]);
                    }
                }
                assert forall|a: int| 0 <= a < gnew.len() implies key_present(
                    pfx1,
                    dim,
                    key_model((#[trigger] gnew[a]).key),
                ) by {
                    let ka = key_model(gnew[a].key);
                    if a == m {
                        assert(key_of_spec(pfx1[i as int], dim) == ka);
                    } else {
                        let olda: int = if a < m {
                            a
                        } else {
                            a - 1
                        };
                        assert(gnew[a] == gs_old[olda]);
                        let j = choose|j: int| 0 <= j < pfx.len() && key_of_spec(pfx[j], dim) == ka;
                        assert(key_of_spec(pfx1[j], dim) == ka);
                    }
                }
                assert forall|j: int| 0 <= j < pfx1.len() implies exists|a: int|
                    0 <= a < gnew.len() && key_model(gnew[a].key) == #[trigger] key_of_spec(
                        pfx1[j],
                        dim,
                    ) by {
                    if j < i {
                        let a = choose|a: int|
                            0 <= a < gs_old.len() && key_model(gs_old[a].key) == key_of_spec(
                                pfx[j],
                                dim,
                            );
                        if a < m {
                            assert(key_model(gnew[a].key) == key_of_spec(pfx1[j], dim));
                        } else {
                            assert(gnew[a + 1] == gs_old[a]);
                            assert(key_model(gnew[a + 1].key) == key_of_spec(pfx1[j], dim));
                        }
                    } else {
                        assert(key_model(gnew[m as int].key) == key_of_spec(pfx1[j], dim));
                    }
                }
            }
        }
        i = i + 1;
    }
    proof {
        assert(transactions@.take(n as int) =~= transactions@);
    }
    gs
}

/// One output row of the generic aggregator: the group's key, the sum of its
/// values, the sum of its transaction counts, the exact average and median of
/// its values, and the number of contributing records.
pub struct GroupStat {
    pub key: GroupKey,
    pub total: u128,
    pub transaction_count: u128,
    pub average: Ratio,
    pub median: Ratio,
    pub count: usize,
}

impl Clone for GroupStat {
    fn clone(&self) -> (r: Self)
        ensures
            r == *self,
    {
        GroupStat {
            key: self.key.clone(),
            total: self.total,
            transaction_count: self.transaction_count,
            average: self.average,
            median: self.median,
            count: self.count,
        }
    }
}

/// A statistics row is correct for the input: its fields are exactly the
/// count, sum, transaction-count sum, exact average and exact median of the
/// values that fall under its key.
pub open spec fn stat_ok(s: Seq<Transaction>, dim: Dimension, st: GroupStat) -> bool {
    let k = key_model(st.key);
    let vs = values_for(s, dim, k);
    &&& st.count == vs.len()
    &&& vs.len() >= 1
    &&& st.total as int == seq_sum(vs)
    &&& st.transaction_count as int == tc_for(s, dim, k)
    &&& st.average.num == st.total
    &&& st.average.den == st.count as u128
    &&& st.median.den == 2
    &&& st.median.num == median2_of(vs)
}

/// The output order: ascending by key, or descending by total with ties
/// broken ascending by key.
pub open spec fn stat_le(order: Order, a: GroupStat, b: GroupStat) -> bool {
    match order {
        Order::ByKey => key_lt(key_model(a.key), key_model(b.key)),
        Order::ByTotalDesc => a.total > b.total || (a.total == b.total && key_lt(
            key_model(a.key),
            key_model(b.key),
        )),
    }
}

proof fn lemma_stat_desc_transitive(a: GroupStat, b: GroupStat, c: GroupStat)
    requires
        stat_le(Order::ByTotalDesc, a, b),
        stat_le(Order::ByTotalDesc, b, c),
    ensures
        stat_le(Order::ByTotalDesc, a, c),
{
    if a.total == b.total && b.total == c.total {
        lemma_key_lt_transitive(key_model(a.key), key_model(b.key), key_model(c.key));
    }
}

fn stat_desc_before(a: &GroupStat, b: &GroupStat) -> (r: bool)
    ensures
        r == stat_le(Order::ByTotalDesc, *a, *b),
{
    if a.total > b.total {
        true
    } else if a.total == b.total {
        key_lt_exec(&a.key, &b.key)
    } else {
        false
    }
}

/// The sum of the `count` fields over a sequence of statistics rows.
pub open spec fn counts_total(r: Seq<GroupStat>) -> int
    decreases r.len(),
{
    if r.len() == 0 {
        0
    } else {
        counts_total(r.drop_last()) + r.last().count
    }
}

/// How many group sizes a sequence of keys accounts for: the sum, over the
/// keys, of the number of transactions under each key.
pub open spec fn sum_group_counts(s: Seq<Transaction>, dim: Dimension, keys: Seq<KeyVal>) -> int
    decreases keys.len(),
{
    if keys.len() == 0 {
        0
    } else {
        sum_group_counts(s, dim, keys.drop_last()) + values_for(s, dim, keys.last()).len()
    }
}

/// How often a key occurs in a sequence of keys.
pub open spec fn key_occurrences(keys: Seq<KeyVal>, k: KeyVal) -> int
    decreases keys.len(),
{
    if keys.len() == 0 {
        0
    } else {
        key_occurrences(keys.drop_last(), k) + if keys.last() == k {
            1int
        } else {
            0int
        }
    }
}

proof fn lemma_occurrences_absent(keys: Seq<KeyVal>, k: KeyVal)
    requires
        forall|a: int| 0 <= a < keys.len() ==> keys[a] != k,
    ensures
        key_occurrences(keys, k) == 0,
    decreases keys.len(),
{
    if keys.len() > 0 {
        lemma_occurrences_absent(keys.drop_last(), k);
    }
}

proof fn lemma_occurrences_distinct(keys: Seq<KeyVal>, k: KeyVal)
    requires
        forall|a: int, b: int| 0 <= a < b < keys.len() ==> keys[a] != keys[b],
        exists|a: int| 0 <= a < keys.len() && keys[a] == k,
    ensures
        key_occurrences(keys, k) == 1,
    decreases keys.len(),
{
    if keys.last() == k {
        assert forall|a: int| 0 <= a < keys.drop_last().len() implies keys.drop_last()[a] != k by {
            assert(keys[a] == keys.drop_last()[a]);
        }
        lemma_occurrences_absent(keys.drop_last(), k);
    } else {
        let w = choose|a: int| 0 <= a < keys.len() && keys[a] == k;
        assert(w < keys.len() - 1);
        assert(keys.drop_last()[w] == k);
        lemma_occurrences_distinct(keys.drop_last(), k);
    }
}

proof fn lemma_sum_counts_empty(dim: Dimension, keys: Seq<KeyVal>)
    ensures
        sum_group_counts(Seq::<Transaction>::empty(), dim, keys) == 0,
    decreases keys.len(),
{
    if keys.len() > 0 {
        lemma_sum_counts_empty(dim, keys.drop_last());
    }
}

proof fn lemma_sum_counts_snoc(s: Seq<Transaction>, dim: Dimension, keys: Seq<KeyVal>)
    requires
        s.len() > 0,
    ensures
        sum_group_counts(s, dim, keys) == sum_group_counts(s.drop_last(), dim, keys)
            + key_occurrences(keys, key_of_spec(s.last(), dim)),
    decreases keys.len(),
{
    if keys.len() > 0 {
        lemma_sum_counts_snoc(s, dim, keys.drop_last());
        let k = keys.last();
        if key_of_spec(s.last(), dim) == k {
            assert(values_for(s, dim, k).len() == values_for(s.drop_last(), dim, k).len() + 1);
        } else {
            assert(values_for(s, dim, k).len() == values_for(s.drop_last(), dim, k).len());
        }
    }
}

/// The groups partition the input: when the keys are distinct and every
/// transaction's key is among them, the group sizes add up to the number of
/// transactions, and each transaction's key matches exactly one of the keys.
pub proof fn lemma_groups_partition(s: Seq<Transaction>, dim: Dimension, keys: Seq<KeyVal>)
    requires
        forall|a: int, b: int| 0 <= a < b < keys.len() ==> keys[a] != keys[b],
        forall|j: int|
            0 <= j < s.len() ==> exists|a: int|
                0 <= a < keys.len() && keys[a] == #[trigger] key_of_spec(s[j], dim),
    ensures
        sum_group_counts(s, dim, keys) == s.len(),
        forall|j: int|
            0 <= j < s.len() ==> key_occurrences(keys, #[trigger] key_of_spec(s[j], dim)) == 1,
    decreases s.len(),
{
    assert forall|j: int| 0 <= j < s.len() implies key_occurrences(
        keys,
        #[trigger] key_of_spec(s[j], dim),
    ) == 1 by {
        lemma_occurrences_distinct(keys, key_of_spec(s[j], dim));
    }
    if s.len() == 0 {
        assert(s =~= Seq::<Transaction>::empty());
        lemma_sum_counts_empty(dim, keys);
    } else {
        assert forall|j: int| 0 <= j < s.drop_last().len() implies exists|a: int|
            0 <= a < keys.len() && keys[a] == #[trigger] key_of_spec(s.drop_last()[j], dim) by {
            assert(s.drop_last()[j] == s[j]);
        }
        lemma_groups_partition(s.drop_last(), dim, keys);
        lemma_sum_counts_snoc(s, dim, keys);
    }
}

proof fn lemma_counts_total_insert(r: Seq<GroupStat>, m: int, x: GroupStat)
    requires
        0 <= m <= r.len(),
    ensures
        counts_total(r.insert(m, x)) == counts_total(r) + x.count,
    decreases r.len(),
{
    if m == r.len() {
        assert(r.insert(m, x) =~= r.push(x));
        assert(r.push(x).drop_last() =~= r);
    } else {
        assert(r.insert(m, x).drop_last() =~= r.drop_last().insert(m, x));
        assert(r.insert(m, x).last() == r.last());
        lemma_counts_total_insert(r.drop_last(), m, x);
    }
}

proof fn lemma_counts_total_take_succ(r: Seq<GroupStat>, a: int)
    requires
        0 <= a < r.len(),
    ensures
        counts_total(r.take(a + 1)) == counts_total(r.take(a)) + r[a].count,
{
    assert(r.take(a + 1).drop_last() =~= r.take(a));
    assert(r.take(a + 1).last() == r[a]);
}

/// Sums a vector of values exactly, into a 128-bit accumulator that cannot
/// overflow.
fn sum_values(v: &Vec<u64>) -> (s: u128)
    ensures
        s as int == seq_sum(v@),
{
    let n = v.len();
    let mut s: u128 = 0;
    proof {
        assert(v@.take(0) =~= Seq::<u64>::empty());
    }
    let mut t: usize = 0;
    while t < n
        invariant
            n == v@.len(),
            t <= n,
            s as int == seq_sum(v@.take(t as int)),
        decreases n - t,
    {
        proof {
            crate::seq_math::lemma_seq_sum_le_len_max(v@.take(t as int));
            assert(v@.take(t as int).len() * (u64::MAX as int) + (u64::MAX as int) < u128::MAX)
                by (nonlinear_arith)
                requires v@.take(t as int).len() <= 0xffff_ffff_ffff_ffff;
            crate::seq_math::lemma_seq_sum_take_succ(v@, t as int);
        }
        s = s + (v[t] as u128);
        t = t + 1;
    }
    proof {
        assert(v@.take(n as int) =~= v@);
    }
    s
}

/// Reorders statistics rows descending by total, ties broken ascending by
/// key, by insertion into a fresh vector.  The rows themselves are kept:
/// the result is a permutation of the input.
#[verifier::loop_isolation(false)]
fn sort_stats_by_total_desc(stats: &Vec<GroupStat>) -> (r: Vec<GroupStat>)
    requires
        forall|a: int, b: int|
            0 <= a < b < stats@.len() ==> key_model(stats@[a].key) != key_model(stats@[b].key),
    ensures
        r@.len() == stats@.len(),
        r@.to_multiset() == stats@.to_multiset(),
        counts_total(r@) == counts_total(stats@),
        forall|a: int, b: int|
            0 <= a < b < r@.len() ==> stat_le(Order::ByTotalDesc, r@[a], r@[b]),
        forall|a: int, b: int|
            0 <= a < b < r@.len() ==> key_model(r@[a].key) != key_model(r@[b].key),
        forall|x: int|
            0 <= x < r@.len() ==> exists|y: int|
                0 <= y < stats@.len() && #[trigger] r@[x] == #[trigger] stats@[y],
        forall|y: int|
            0 <= y < stats@.len() ==> exists|x: int|
                0 <= x < r@.len() && #[trigger] r@[x] == #[trigger] stats@[y],
{
    let n = stats.len();
    let mut r: Vec<GroupStat> = Vec::new();
    proof {
        assert(stats@.take(0) =~= Seq::<GroupStat>::empty());
        broadcast use vstd::seq_lib::group_to_multiset_ensures;

    }
    let mut i: usize = 0;
    while i < n
        invariant
            i <= n,
            r@.len() == i,
            r@.to_multiset() == stats@.take(i as int).to_multiset(),
            counts_total(r@) == counts_total(stats@.take(i as int)),
            forall|a: int, b: int|
                0 <= a < b < r@.len() ==> stat_le(Order::ByTotalDesc, r@[a], r@[b]),
            forall|x: int|
                0 <= x < r@.len() ==> exists|y: int|
                    0 <= y < i && #[trigger] r@[x] == #[trigger] stats@[y],
        decreases n - i,
    {
        let x = stats[i].clone();
        let ghost xkey = key_model(x.key);
        proof {
            // the incoming row's key differs from every key already placed
            assert forall|c: int| 0 <= c < r@.len() implies key_model((#[trigger] r@[c]).key)
                != xkey by {
                let y = choose|y: int| 0 <= y < i && r@[c] == stats@[y];
                assert(key_model(stats@[y].key) != key_model(stats@[i as int].key));
            }
        }
        let mut pos: usize = 0;
        while pos < r.len() && stat_desc_before(&r[pos], &x)
            invariant
                pos <= r@.len(),
                forall|c: int|
                    0 <= c < pos ==> stat_le(Order::ByTotalDesc, #[trigger] r@[c], x),
            decreases r@.len() - pos,
        {
            pos = pos + 1;
        }
        let ghost r_before = r@;
        proof {
            crate::seq_math::lemma_insert_to_multiset(r@, pos as int, x);
            lemma_counts_total_insert(r@, pos as int, x);
            lemma_counts_total_take_succ(stats@, i as int);
            assert(stats@.take(i as int).push(stats@[i as int]) =~= stats@.take(i + 1));
            if pos < r_before.len() {
                // x precedes the first row it does not follow: their keys
                // differ, so the order is decided
                let p = r_before[pos as int];
                assert(stat_le(Order::ByTotalDesc, x, p)) by {
                    if !stat_le(Order::ByTotalDesc, x, p) {
                        lemma_key_lt_connected(key_model(x.key), key_model(p.key));
                    }
                }
            }
        }
        r.insert(pos, x);
        proof {
            r_before.insert_ensures(pos as int, x);
            let p = pos as int;
            assert forall|a: int, b: int| 0 <= a < b < r@.len() implies stat_le(
                Order::ByTotalDesc,
                r@[a],
                r@[b],
            ) by {
                if b < p {
                    assert(r@[a] == r_before[a] && r@[b] == r_before[b]);
                } else if a > p {
                    assert(r@[a] == r_before[a - 1] && r@[b] == r_before[b - 1]);
                } else if a == p {
                    assert(r@[a] == x && r@[b] == r_before[b - 1]);
                    if b - 1 > p {
                        lemma_stat_desc_transitive(x, r_before[p], r_before[b - 1]);
                    }
                } else if b == p {
                    assert(r@[a] == r_before[a] && r@[b] == x);
                } else {
                    assert(a < p && b > p);
                    assert(r@[a] == r_before[a] && r@[b] == r_before[b - 1]);
                    if b - 1 == p {
                        assert(stat_le(Order::ByTotalDesc, r_before[a], x));
                    }
                }
            }
            assert forall|c: int| 0 <= c < r@.len() implies exists|y: int|
                0 <= y < i + 1 && #[trigger] r@[c] == #[trigger] stats@[y] by {
                if c < p {
                    let y = choose|y: int| 0 <= y < i && r_before[c] == stats@[y];
                    assert(r@[c] == stats@[y]);
                } else if c == p {
                    assert(r@[c] == stats@[i as int]);
                } else {
                    let y = choose|y: int| 0 <= y < i && r_before[c - 1] == stats@[y];
                    assert(r@[c] == stats@[y]);
                }
            }
        }
        i = i + 1;
    }
    proof {
        broadcast use vstd::seq_lib::group_to_multiset_ensures;

        assert(stats@.take(n as int) =~= stats@);
        // keys in the result are distinct: the result is a permutation of
        // rows whose keys are pairwise distinct
        assert forall|a: int, b: int| 0 <= a < b < r@.len() implies key_model(r@[a].key)
            != key_model(r@[b].key) by {
            let ya = choose|y: int| 0 <= y < n && r@[a] == stats@[y];
            let yb = choose|y: int| 0 <= y < n && r@[b] == stats@[y];
            if ya == yb {
                // the same row cannot sit at two places: it would occur twice
                // in the multiset while the input rows are pairwise distinct
                assert(r@[a] == r@[b]);
                let s0 = r@.subrange(0, b);
                let s1 = r@.subrange(b, r@.len() as int);
                assert(r@ =~= s0 + s1);
                lemma_multiset_commutative(s0, s1);
                assert(s0.to_multiset().count(r@[a]) > 0);
                assert(s1.to_multiset().count(r@[b]) > 0);
                assert(r@.to_multiset().count(r@[a]) >= 2);
                assert(stats@.no_duplicates()) by {
                    assert forall|c: int, d: int|
                        0 <= c < stats@.len() && 0 <= d < stats@.len() && c != d implies stats@[c]
                        != stats@[d] by {
                        if c < d {
                            assert(key_model(stats@[c].key) != key_model(stats@[d].key));
                        } else {
                            assert(key_model(stats@[d].key) != key_model(stats@[c].key));
                        }
                    }
                }
                stats@.lemma_multiset_has_no_duplicates();
                assert(stats@.to_multiset().contains(r@[a]));
                assert(false);
            }
        }
        assert forall|y: int| 0 <= y < stats@.len() implies exists|x: int|
            0 <= x < r@.len() && #[trigger] r@[x] == #[trigger] stats@[y] by {
            assert(stats@.to_multiset().count(stats@[y]) > 0) by {
                assert(stats@.contains(stats@[y]));
            }
            assert(r@.to_multiset().count(stats@[y]) > 0);
            assert(r@.contains(stats@[y]));
        }
    }
    r
}

/// The generic aggregator: groups the transactions by the chosen dimension
/// and returns one statistics row per distinct key, in the chosen order.
///
/// The contract pins the output down completely: every row is correct for
/// its key (`stat_ok`), no row lacks a witness, every transaction's key has
/// a row, rows are strictly ordered by the chosen policy, keys are pairwise
/// distinct, and the row counts add up to the number of transactions.
#[verifier::loop_isolation(false)]
pub fn aggregate(transactions: &Vec<Transaction>, dim: Dimension, order: Order) -> (r: Vec<
    GroupStat,
>)
    requires
        forall|j: int| 0 <= j < transactions@.len() ==> (#[trigger] transactions@[j]).date.wf(),
    ensures
        forall|a: int| 0 <= a < r@.len() ==> stat_ok(transactions@, dim, #[trigger] r@[a]),
        forall|a: int|
            0 <= a < r@.len() ==> key_present(transactions@, dim, key_model(
                (#[trigger] r@[a]).key,
            )),
        forall|j: int|
            0 <= j < transactions@.len() ==> exists|a: int|
                0 <= a < r@.len() && key_model(r@[a].key) == #[trigger] key_of_spec(
                    transactions@[j],
                    dim,
                ),
        forall|a: int, b: int| 0 <= a < b < r@.len() ==> stat_le(order, r@[a], r@[b]),
        forall|a: int, b: int|
            0 <= a < b < r@.len() ==> key_model(r@[a].key) != key_model(r@[b].key),
        counts_total(r@) == transactions@.len(),
{
    let groups = group_transactions(transactions, dim);
    let ghost gseq = groups@;
    let ghost kg = gseq.map_values(|g: Group| key_model(g.key));
    let mut stats: Vec<GroupStat> = Vec::new();
    proof {
        assert(kg.take(0) =~= Seq::<KeyVal>::empty());
    }
    let mut a: usize = 0;
    while a < groups.len()
        invariant
            a <= gseq.len(),
            groups@ == gseq,
            stats@.len() == a,
            forall|x: int|
                0 <= x < a ==> stat_ok(transactions@, dim, #[trigger] stats@[x]) && key_model(
                    stats@[x].key,
                ) == key_model(gseq[x].key),
            counts_total(stats@) == sum_group_counts(transactions@, dim, kg.take(a as int)),
        decreases gseq.len() - a,
    {
        proof {
            lemma_present_key_nonempty(transactions@, dim, key_model(gseq[a as int].key));
        }
        let count = groups[a].values.len();
        let total = sum_values(&groups[a].values);
        let med = calculate_median(&groups[a].values);
        let st = GroupStat {
            key: groups[a].key.clone(),
            total,
            transaction_count: groups[a].tc_sum,
            average: Ratio { num: total, den: count as u128 },
            median: med,
            count,
        };
        let ghost stats_before = stats@;
        stats.push(st);
        proof {
            assert(stats@.drop_last() =~= stats_before);
            assert(kg.take(a + 1).drop_last() =~= kg.take(a as int));
            assert(kg.take(a + 1).last() == kg[a as int]);
            assert(kg[a as int] == key_model(gseq[a as int].key));
        }
        a = a + 1;
    }
    proof {
        assert(kg.take(gseq.len() as int) =~= kg);
        assert forall|x: int, y: int| 0 <= x < y < kg.len() implies kg[x] != kg[y] by {
            assert(key_lt(key_model(gseq[x].key), key_model(gseq[y].key)));
            lemma_key_lt_asymmetric(key_model(gseq[x].key), key_model(gseq[y].key));
        }
        assert forall|j: int| 0 <= j < transactions@.len() implies exists|x: int|
            0 <= x < kg.len() && kg[x] == #[trigger] key_of_spec(transactions@[j], dim) by {
            let w = choose|w: int|
                0 <= w < gseq.len() && key_model(gseq[w].key) == key_of_spec(
                    transactions@[j],
                    dim,
                );
            assert(kg[w] == key_of_spec(transactions@[j], dim));
        }
        lemma_groups_partition(transactions@, dim, kg);
        assert(counts_total(stats@) == transactions@.len());
        assert forall|j: int| 0 <= j < transactions@.len() implies exists|x: int|
            0 <= x < stats@.len() && key_model(stats@[x].key) == #[trigger] key_of_spec(
                transactions@[j],
                dim,
            ) by {
            let w = choose|w: int|
                0 <= w < gseq.len() && key_model(gseq[w].key) == key_of_spec(
                    transactions@[j],
                    dim,
                );
            assert(key_model(stats@[w].key) == key_of_spec(transactions@[j], dim));
        }
        assert forall|x: int, y: int| 0 <= x < y < stats@.len() implies key_model(stats@[x].key)
            != key_model(stats@[y].key) by {
            assert(key_lt(key_model(gseq[x].key), key_model(gseq[y].key)));
            lemma_key_lt_asymmetric(key_model(gseq[x].key), key_model(gseq[y].key));
        }
        assert forall|x: int, y: int| 0 <= x < y < stats@.len() implies stat_le(
            Order::ByKey,
            stats@[x],
            stats@[y],
        ) by {
            assert(key_lt(key_model(gseq[x].key), key_model(gseq[y].key)));
        }
    }
    match order {
        Order::ByKey => stats,
        Order::ByTotalDesc => {
            let r = sort_stats_by_total_desc(&stats);
            proof {
                assert forall|x: int| 0 <= x < r@.len() implies stat_ok(
                    transactions@,
                    dim,
                    #[trigger] r@[x],
                ) && key_present(transactions@, dim, key_model(r@[x].key)) by {
                    let y = choose|y: int| 0 <= y < stats@.len() && r@[x] == stats@[y];
                    assert(stat_ok(transactions@, dim, stats@[y]));
                    assert(key_present(transactions@, dim, key_model(stats@[y].key)));
                }
                assert forall|j: int| 0 <= j < transactions@.len() implies exists|x: int|
                    0 <= x < r@.len() && key_model(r@[x].key) == #[trigger] key_of_spec(
                        transactions@[j],
                        dim,
                    ) by {
                    let y = choose|y: int|
                        0 <= y < stats@.len() && key_model(stats@[y].key) == key_of_spec(
                            transactions@[j],
                            dim,
                        );
                    let x = choose|x: int| 0 <= x < r@.len() && r@[x] == stats@[y];
                    assert(key_model(r@[x].key) == key_of_spec(transactions@[j], dim));
                }
            }
            r
        },
    }
}

/// A region row is correct for the input: its fields are the count, sum,
/// exact average and exact median of the values recorded for its region.
pub open spec fn region_stat_ok(s: Seq<Transaction>, st: RegionStats) -> bool {
    let vs = values_for(s, Dimension::Region, KeyVal::Text(st.region@));
    &&& st.count == vs.len()
    &&& vs.len() >= 1
    &&& st.total as int == seq_sum(vs)
    &&& st.average.num == st.total as u128
    &&& st.average.den == st.count as u128
    &&& st.median.den == 2
    &&& st.median.num == median2_of(vs)
}

/// The output order of the region table.
pub open spec fn region_le(order: Order, a: RegionStats, b: RegionStats) -> bool {
    match order {
        Order::ByKey => lex_lt(a.region@, b.region@),
        Order::ByTotalDesc => a.total > b.total || (a.total == b.total && lex_lt(
            a.region@,
            b.region@,
        )),
    }
}

/// The sum of the `count` fields of a region table.
pub open spec fn region_counts_total(r: Seq<RegionStats>) -> int
    decreases r.len(),
{
    if r.len() == 0 {
        0
    } else {
        region_counts_total(r.drop_last()) + r.last().count
    }
}

spec fn region_matches(rs: RegionStats, st: GroupStat) -> bool {
    &&& key_model(st.key) == KeyVal::Text(rs.region@)
    &&& rs.total as int == st.total as int
    &&& rs.average == st.average
    &&& rs.median == st.median
    &&& rs.count == st.count
}

/// Groups the transactions by region and computes, per region, total value,
/// record count, exact average and exact median, in the chosen order.
#[verifier::loop_isolation(false)]
pub fn compute_region_stats_ordered(transactions: &Vec<Transaction>, order: Order) -> (r: Vec<
    RegionStats,
>)
    requires
        forall|j: int| 0 <= j < transactions@.len() ==> (#[trigger] transactions@[j]).date.wf(),
        value_total(transactions@) <= u64::MAX,
    ensures
        forall|a: int| 0 <= a < r@.len() ==> region_stat_ok(transactions@, #[trigger] r@[a]),
        forall|a: int|
            0 <= a < r@.len() ==> key_present(
                transactions@,
                Dimension::Region,
                KeyVal::Text((#[trigger] r@[a]).region@),
            ),
        forall|j: int|
            0 <= j < transactions@.len() ==> exists|a: int|
                0 <= a < r@.len() && (#[trigger] transactions@[j]).location@ == r@[a].region@,
        forall|a: int, b: int| 0 <= a < b < r@.len() ==> region_le(order, r@[a], r@[b]),
        region_counts_total(r@) == transactions@.len(),
{
    let stats = aggregate(transactions, Dimension::Region, order);
    let ghost sseq = stats@;
    let mut r: Vec<RegionStats> = Vec::new();
    let mut a: usize = 0;
    while a < stats.len()
        invariant
            a <= sseq.len(),
            stats@ == sseq,
            r@.len() == a,
            forall|x: int| 0 <= x < a ==> region_matches(#[trigger] r@[x], sseq[x]),
            region_counts_total(r@) == counts_total(sseq.take(a as int)),
        decreases sseq.len() - a,
    {
        let st = &stats[a];
        proof {
            let j = choose|j: int|
                0 <= j < transactions@.len() && key_of_spec(transactions@[j], Dimension::Region)
                    == key_model(st.key);
            assert(key_model(st.key) is Text);
            lemma_group_sum_le_total(transactions@, Dimension::Region, key_model(st.key));
        }
        let region = match &st.key {
            GroupKey::Text(t) => t.clone(),
            GroupKey::Number(_) => vstd::pervasive::unreached(),
        };
        let row = RegionStats {
            region,
            total: st.total as u64,
            average: st.average,
            median: st.median,
            count: st.count,
        };
        let ghost r_before = r@;
        r.push(row);
        proof {
            assert(r@.drop_last() =~= r_before);
            lemma_counts_total_take_succ(sseq, a as int);
        }
        a = a + 1;
    }
    proof {
        assert(sseq.take(sseq.len() as int) =~= sseq);
        assert forall|x: int| 0 <= x < r@.len() implies region_stat_ok(
            transactions@,
            #[trigger] r@[x],
        ) && key_present(transactions@, Dimension::Region, KeyVal::Text(r@[x].region@)) by {
            assert(stat_ok(transactions@, Dimension::Region, sseq[x]));
            assert(key_model(sseq[x].key) == KeyVal::Text(r@[x].region@));
        }
        assert forall|j: int| 0 <= j < transactions@.len() implies exists|a: int|
            0 <= a < r@.len() && (#[trigger] transactions@[j]).location@ == r@[a].region@ by {
            let w = choose|w: int|
                0 <= w < sseq.len() && key_model(sseq[w].key) == key_of_spec(
                    transactions@[j],
                    Dimension::Region,
                );
            assert(key_model(sseq[w].key) == KeyVal::Text(r@[w].region@));
            assert(transactions@[j].location@ == r@[w].region@);
        }
        assert forall|a: int, b: int| 0 <= a < b < r@.len() implies region_le(
            order,
            r@[a],
            r@[b],
        ) by {
            assert(stat_le(order, sseq[a], sseq[b]));
        }
    }
    r
}

/// Groups the transactions by region (location), sorted ascending by region
/// name.
pub fn compute_region_stats(transactions: &Vec<Transaction>) -> (r: Vec<RegionStats>)
    requires
        forall|j: int| 0 <= j < transactions@.len() ==> (#[trigger] transactions@[j]).date.wf(),
        value_total(transactions@) <= u64::MAX,
    ensures
        forall|a: int| 0 <= a < r@.len() ==> region_stat_ok(transactions@, #[trigger] r@[a]),
        forall|a: int|
            0 <= a < r@.len() ==> key_present(
                transactions@,
                Dimension::Region,
                KeyVal::Text((#[trigger] r@[a]).region@),
            ),
        forall|j: int|
            0 <= j < transactions@.len() ==> exists|a: int|
                0 <= a < r@.len() && (#[trigger] transactions@[j]).location@ == r@[a].region@,
        forall|a: int, b: int| 0 <= a < b < r@.len() ==> lex_lt(r@[a].region@, r@[b].region@),
        region_counts_total(r@) == transactions@.len(),
{
    let r = compute_region_stats_ordered(transactions, Order::ByKey);
    proof {
        assert forall|a: int, b: int| 0 <= a < b < r@.len() implies lex_lt(
            r@[a].region@,
            r@[b].region@,
        ) by {
            assert(region_le(Order::ByKey, r@[a], r@[b]));
        }
    }
    r
}

/// How months are bucketed: by month number alone (merging the same month of
/// different years), or by year and month.
#[derive(Clone, Copy, PartialEq, Eq, Structural)]
pub enum MonthBucket {
    MonthOnly,
    YearMonth,
}

pub open spec fn month_dim(b: MonthBucket) -> Dimension {
    match b {
        MonthBucket::MonthOnly => Dimension::MonthOnly,
        MonthBucket::YearMonth => Dimension::YearMonth,
    }
}

/// A month row is correct for the input, under the chosen bucketing.
pub open spec fn month_stat_ok(s: Seq<Transaction>, dim: Dimension, st: MonthStats) -> bool {
    let k = KeyVal::Number(st.month as int);
    let vs = values_for(s, dim, k);
    &&& st.count == vs.len()
    &&& vs.len() >= 1
    &&& st.value as int == seq_sum(vs)
    &&& st.transaction_count as int == tc_for(s, dim, k)
    &&& st.average.num == st.value as u128
    &&& st.average.den == st.count as u128
    &&& st.median.den == 2
    &&& st.median.num == median2_of(vs)
}

/// The output order of the month table.
pub open spec fn month_le(order: Order, a: MonthStats, b: MonthStats) -> bool {
    match order {
        Order::ByKey => a.month < b.month,
        Order::ByTotalDesc => a.value > b.value || (a.value == b.value && a.month < b.month),
    }
}

/// The sum of the `count` fields of a month table.
pub open spec fn month_counts_total(r: Seq<MonthStats>) -> int
    decreases r.len(),
{
    if r.len() == 0 {
        0
    } else {
        month_counts_total(r.drop_last()) + r.last().count
    }
}

spec fn month_matches(ms: MonthStats, st: GroupStat) -> bool {
    &&& key_model(st.key) == KeyVal::Number(ms.month as int)
    &&& ms.value as int == st.total as int
    &&& ms.transaction_count as int == st.transaction_count as int
    &&& ms.average == st.average
    &&& ms.median == st.median
    &&& ms.count == st.count
}

/// Groups the transactions into month buckets and computes, per bucket,
/// total value, transaction-count sum, record count, exact average and
/// exact median, in the chosen order.
///
/// With `MonthBucket::MonthOnly` the bucket key is the month number 1..=12,
/// merging the same month of different years; with
/// `MonthBucket::YearMonth` it is `year * 100 + month`.
#[verifier::loop_isolation(false)]
pub fn aggregate_by_month_ordered(
    transactions: &Vec<Transaction>,
    bucket: MonthBucket,
    order: Order,
) -> (r: Vec<MonthStats>)
    requires
        forall|j: int| 0 <= j < transactions@.len() ==> (#[trigger] transactions@[j]).date.wf(),
        value_total(transactions@) <= u64::MAX,
        tc_total(transactions@) <= u32::MAX,
    ensures
        forall|a: int|
            0 <= a < r@.len() ==> month_stat_ok(transactions@, month_dim(bucket), #[trigger] r@[a]),
        forall|a: int|
            0 <= a < r@.len() ==> key_present(
                transactions@,
                month_dim(bucket),
                KeyVal::Number((#[trigger] r@[a]).month as int),
            ),
        forall|j: int|
            0 <= j < transactions@.len() ==> exists|a: int|
                0 <= a < r@.len() && #[trigger] key_of_spec(transactions@[j], month_dim(bucket))
                    == KeyVal::Number(r@[a].month as int),
        forall|a: int, b: int| 0 <= a < b < r@.len() ==> month_le(order, r@[a], r@[b]),
        month_counts_total(r@) == transactions@.len(),
{
    let dim = match bucket {
        MonthBucket::MonthOnly => Dimension::MonthOnly,
        MonthBucket::YearMonth => Dimension::YearMonth,
    };
    let stats = aggregate(transactions, dim, order);
    let ghost sseq = stats@;
    let mut r: Vec<MonthStats> = Vec::new();
    let mut a: usize = 0;
    while a < stats.len()
        invariant
            a <= sseq.len(),
            stats@ == sseq,
            r@.len() == a,
            forall|x: int| 0 <= x < a ==> month_matches(#[trigger] r@[x], sseq[x]),
            month_counts_total(r@) == counts_total(sseq.take(a as int)),
        decreases sseq.len() - a,
    {
        let st = &stats[a];
        proof {
            let j = choose|j: int|
                0 <= j < transactions@.len() && key_of_spec(transactions@[j], dim) == key_model(
                    st.key,
                );
            assert(key_model(st.key) is Number);
            assert(key_model(st.key)->Number_0 < 1_000_000);
            lemma_group_sum_le_total(transactions@, dim, key_model(st.key));
            lemma_group_tc_le_total(transactions@, dim, key_model(st.key));
        }
        let month = match &st.key {
            GroupKey::Number(n) => *n as u32,
            GroupKey::Text(_) => vstd::pervasive::unreached(),
        };
        let row = MonthStats {
            month,
            value: st.total as u64,
            transaction_count: st.transaction_count as u32,
            average: st.average,
            median: st.median,
            count: st.count,
        };
        let ghost r_before = r@;
        r.push(row);
        proof {
            assert(r@.drop_last() =~= r_before);
            lemma_counts_total_take_succ(sseq, a as int);
        }
        a = a + 1;
    }
    proof {
        assert(sseq.take(sseq.len() as int) =~= sseq);
        assert forall|x: int| 0 <= x < r@.len() implies month_stat_ok(
            transactions@,
            month_dim(bucket),
            #[trigger] r@[x],
        ) && key_present(
            transactions@,
            month_dim(bucket),
            KeyVal::Number(r@[x].month as int),
        ) by {
            assert(stat_ok(transactions@, dim, sseq[x]));
            assert(key_model(sseq[x].key) == KeyVal::Number(r@[x].month as int));
        }
        assert forall|j: int| 0 <= j < transactions@.len() implies exists|a: int|
            0 <= a < r@.len() && #[trigger] key_of_spec(transactions@[j], month_dim(bucket))
                == KeyVal::Number(r@[a].month as int) by {
            let w = choose|w: int|
                0 <= w < sseq.len() && key_model(sseq[w].key) == key_of_spec(
                    transactions@[j],
                    dim,
                );
            assert(key_model(sseq[w].key) == KeyVal::Number(r@[w].month as int));
        }
        assert forall|a: int, b: int| 0 <= a < b < r@.len() implies month_le(
            order,
            r@[a],
            r@[b],
        ) by {
            assert(stat_le(order, sseq[a], sseq[b]));
        }
    }
    r
}

/// Groups the transactions by month number (merging years), sorted ascending
/// by month.
pub fn aggregate_by_month(transactions: &Vec<Transaction>) -> (r: Vec<MonthStats>)
    requires
        forall|j: int| 0 <= j < transactions@.len() ==> (#[trigger] transactions@[j]).date.wf(),
        value_total(transactions@) <= u64::MAX,
        tc_total(transactions@) <= u32::MAX,
    ensures
        forall|a: int|
            0 <= a < r@.len() ==> month_stat_ok(
                transactions@,
                Dimension::MonthOnly,
                #[trigger] r@[a],
            ),
        forall|a: int|
            0 <= a < r@.len() ==> key_present(
                transactions@,
                Dimension::MonthOnly,
                KeyVal::Number((#[trigger] r@[a]).month as int),
            ),
        forall|j: int|
            0 <= j < transactions@.len() ==> exists|a: int|
                0 <= a < r@.len() && (#[trigger] transactions@[j]).date.month == r@[a].month,
        forall|a: int, b: int| 0 <= a < b < r@.len() ==> r@[a].month < r@[b].month,
        month_counts_total(r@) == transactions@.len(),
{
    let r = aggregate_by_month_ordered(transactions, MonthBucket::MonthOnly, Order::ByKey);
    proof {
        assert forall|a: int, b: int| 0 <= a < b < r@.len() implies r@[a].month < r@[b].month by {
            assert(month_le(Order::ByKey, r@[a], r@[b]));
        }
        assert forall|j: int| 0 <= j < transactions@.len() implies exists|a: int|
            0 <= a < r@.len() && (#[trigger] transactions@[j]).date.month == r@[a].month by {
            assert(key_of_spec(transactions@[j], Dimension::MonthOnly) == KeyVal::Number(
                transactions@[j].date.month as int,
            ));
            let w = choose|w: int|
                0 <= w < r@.len() && key_of_spec(transactions@[j], Dimension::MonthOnly)
                    == KeyVal::Number(r@[w].month as int);
            assert(transactions@[j].date.month == r@[w].month);
        }
    }
    r
}

/// A domain row is correct for the input.
pub open spec fn domain_stat_ok(s: Seq<Transaction>, st: DomainStats) -> bool {
    let vs = values_for(s, Dimension::Domain, KeyVal::Text(st.domain@));
    &&& st.count == vs.len()
    &&& vs.len() >= 1
    &&& st.total as int == seq_sum(vs)
    &&& st.transaction_count as int == tc_for(s, Dimension::Domain, KeyVal::Text(st.domain@))
    &&& st.average.num == st.total as u128
    &&& st.average.den == st.count as u128
    &&& st.median.den == 2
    &&& st.median.num == median2_of(vs)
}

/// The output order of the domain table.
pub open spec fn domain_le(order: Order, a: DomainStats, b: DomainStats) -> bool {
    match order {
        Order::ByKey => lex_lt(a.domain@, b.domain@),
        Order::ByTotalDesc => a.total > b.total || (a.total == b.total && lex_lt(
            a.domain@,
            b.domain@,
        )),
    }
}

/// The sum of the `count` fields of a domain table.
pub open spec fn domain_counts_total(r: Seq<DomainStats>) -> int
    decreases r.len(),
{
    if r.len() == 0 {
        0
    } else {
        domain_counts_total(r.drop_last()) + r.last().count
    }
}

spec fn domain_matches(ds: DomainStats, st: GroupStat) -> bool {
    &&& key_model(st.key) == KeyVal::Text(ds.domain@)
    &&& ds.total as int == st.total as int
    &&& ds.transaction_count as int == st.transaction_count as int
    &&& ds.average == st.average
    &&& ds.median == st.median
    &&& ds.count == st.count
}

/// Groups the transactions by domain (category) and computes, per domain,
/// total value, transaction-count sum, record count, exact average and
/// exact median, in the chosen order.
#[verifier::loop_isolation(false)]
pub fn compute_domain_stats(transactions: &Vec<Transaction>, order: Order) -> (r: Vec<DomainStats>)
    requires
        forall|j: int| 0 <= j < transactions@.len() ==> (#[trigger] transactions@[j]).date.wf(),
        value_total(transactions@) <= u64::MAX,
        tc_total(transactions@) <= u32::MAX,
    ensures
        forall|a: int| 0 <= a < r@.len() ==> domain_stat_ok(transactions@, #[trigger] r@[a]),
        forall|a: int|
            0 <= a < r@.len() ==> key_present(
                transactions@,
                Dimension::Domain,
                KeyVal::Text((#[trigger] r@[a]).domain@),
            ),
        forall|j: int|
            0 <= j < transactions@.len() ==> exists|a: int|
                0 <= a < r@.len() && (#[trigger] transactions@[j]).domain@ == r@[a].domain@,
        forall|a: int, b: int| 0 <= a < b < r@.len() ==> domain_le(order, r@[a], r@[b]),
        domain_counts_total(r@) == transactions@.len(),
{
    let stats = aggregate(transactions, Dimension::Domain, order);
    let ghost sseq = stats@;
    let mut r: Vec<DomainStats> = Vec::new();
    let mut a: usize = 0;
    while a < stats.len()
        invariant
            a <= sseq.len(),
            stats@ == sseq,
            r@.len() == a,
            forall|x: int| 0 <= x < a ==> domain_matches(#[trigger] r@[x], sseq[x]),
            domain_counts_total(r@) == counts_total(sseq.take(a as int)),
        decreases sseq.len() - a,
    {
        let st = &stats[a];
        proof {
            let j = choose|j: int|
                0 <= j < transactions@.len() && key_of_spec(transactions@[j], Dimension::Domain)
                    == key_model(st.key);
            assert(key_model(st.key) is Text);
            lemma_group_sum_le_total(transactions@, Dimension::Domain, key_model(st.key));
            lemma_group_tc_le_total(transactions@, Dimension::Domain, key_model(st.key));
        }
        let domain = match &st.key {
            GroupKey::Text(t) => t.clone(),
            GroupKey::Number(_) => vstd::pervasive::unreached(),
        };
        let row = DomainStats {
            domain,
            total: st.total as u64,
            transaction_count: st.transaction_count as u32,
            average: st.average,
            median: st.median,
            count: st.count,
        };
        let ghost r_before = r@;
        r.push(row);
        proof {
            assert(r@.drop_last() =~= r_before);
            lemma_counts_total_take_succ(sseq, a as int);
        }
        a = a + 1;
    }
    proof {
        assert(sseq.take(sseq.len() as int) =~= sseq);
        assert forall|x: int| 0 <= x < r@.len() implies domain_stat_ok(
            transactions@,
            #[trigger] r@[x],
        ) && key_present(transactions@, Dimension::Domain, KeyVal::Text(r@[x].domain@)) by {
            assert(stat_ok(transactions@, Dimension::Domain, sseq[x]));
            assert(key_model(sseq[x].key) == KeyVal::Text(r@[x].domain@));
        }
        assert forall|j: int| 0 <= j < transactions@.len() implies exists|a: int|
            0 <= a < r@.len() && (#[trigger] transactions@[j]).domain@ == r@[a].domain@ by {
            let w = choose|w: int|
                0 <= w < sseq.len() && key_model(sseq[w].key) == key_of_spec(
                    transactions@[j],
                    Dimension::Domain,
                );
            assert(key_model(sseq[w].key) == KeyVal::Text(r@[w].domain@));
            assert(transactions@[j].domain@ == r@[w].domain@);
        }
        assert forall|a: int, b: int| 0 <= a < b < r@.len() implies domain_le(
            order,
            r@[a],
            r@[b],
        ) by {
            assert(stat_le(order, sseq[a], sseq[b]));
        }
    }
    r
}

/// A date row is correct for the input: the date is well formed and the
/// fields are the statistics of the values recorded on that calendar day.
pub open spec fn date_stat_ok(s: Seq<Transaction>, st: DateStats) -> bool {
    let k = KeyVal::Number(day_key_of(st.date));
    let vs = values_for(s, Dimension::Day, k);
    &&& st.date.wf()
    &&& st.count == vs.len()
    &&& vs.len() >= 1
    &&& st.total as int == seq_sum(vs)
    &&& st.transaction_count as int == tc_for(s, Dimension::Day, k)
    &&& st.average.num == st.total as u128
    &&& st.average.den == st.count as u128
    &&& st.median.den == 2
    &&& st.median.num == median2_of(vs)
}

/// The output order of the date table: chronological, or descending by
/// total with chronological tie-break.
pub open spec fn date_le(order: Order, a: DateStats, b: DateStats) -> bool {
    match order {
        Order::ByKey => day_key_of(a.date) < day_key_of(b.date),
        Order::ByTotalDesc => a.total > b.total || (a.total == b.total && day_key_of(a.date)
            < day_key_of(b.date)),
    }
}

/// The sum of the `count` fields of a date table.
pub open spec fn date_counts_total(r: Seq<DateStats>) -> int
    decreases r.len(),
{
    if r.len() == 0 {
        0
    } else {
        date_counts_total(r.drop_last()) + r.last().count
    }
}

spec fn date_matches(ds: DateStats, st: GroupStat) -> bool {
    &&& key_model(st.key) == KeyVal::Number(day_key_of(ds.date))
    &&& ds.date.wf()
    &&& ds.total as int == st.total as int
    &&& ds.transaction_count as int == st.transaction_count as int
    &&& ds.average == st.average
    &&& ds.median == st.median
    &&& ds.count == st.count
}

/// Groups the transactions by calendar day and computes, per day, total
/// value, transaction-count sum, record count, exact average and exact
/// median, in the chosen order.
#[verifier::loop_isolation(false)]
pub fn compute_date_stats(transactions: &Vec<Transaction>, order: Order) -> (r: Vec<DateStats>)
    requires
        forall|j: int| 0 <= j < transactions@.len() ==> (#[trigger] transactions@[j]).date.wf(),
        value_total(transactions@) <= u64::MAX,
        tc_total(transactions@) <= u32::MAX,
    ensures
        forall|a: int| 0 <= a < r@.len() ==> date_stat_ok(transactions@, #[trigger] r@[a]),
        forall|a: int|
            0 <= a < r@.len() ==> key_present(
                transactions@,
                Dimension::Day,
                KeyVal::Number(day_key_of((#[trigger] r@[a]).date)),
            ),
        forall|j: int|
            0 <= j < transactions@.len() ==> exists|a: int|
                0 <= a < r@.len() && (#[trigger] transactions@[j]).date == r@[a].date,
        forall|a: int, b: int| 0 <= a < b < r@.len() ==> date_le(order, r@[a], r@[b]),
        date_counts_total(r@) == transactions@.len(),
{
    let stats = aggregate(transactions, Dimension::Day, order);
    let ghost sseq = stats@;
    let mut r: Vec<DateStats> = Vec::new();
    let mut a: usize = 0;
    while a < stats.len()
        invariant
            a <= sseq.len(),
            stats@ == sseq,
            r@.len() == a,
            forall|x: int| 0 <= x < a ==> date_matches(#[trigger] r@[x], sseq[x]),
            date_counts_total(r@) == counts_total(sseq.take(a as int)),
        decreases sseq.len() - a,
    {
        let st = &stats[a];
        proof {
            let j = choose|j: int|
                0 <= j < transactions@.len() && key_of_spec(transactions@[j], Dimension::Day)
                    == key_model(st.key);
            assert(key_model(st.key) is Number);
            let d = transactions@[j].date;
            assert(d.wf());
            assert(key_model(st.key)->Number_0 == day_key_of(d));
            lemma_group_sum_le_total(transactions@, Dimension::Day, key_model(st.key));
            lemma_group_tc_le_total(transactions@, Dimension::Day, key_model(st.key));
        }
        let date = match &st.key {
            GroupKey::Number(n) => {
                let nv = *n;
                proof {
                    let j = choose|j: int|
                        0 <= j < transactions@.len() && key_of_spec(
                            transactions@[j],
                            Dimension::Day,
                        ) == key_model(st.key);
                    let d = transactions@[j].date;
                    assert(nv as int == day_key_of(d));
                    vstd::arithmetic::div_mod::lemma_fundamental_div_mod_converse(
                        nv as int,
                        512,
                        d.year as int,
                        d.month * 32 + d.day,
                    );
                    vstd::arithmetic::div_mod::lemma_fundamental_div_mod_converse(
                        (nv as int) % 512,
                        32,
                        d.month as int,
                        d.day as int,
                    );
                    assert(nv as int == (d.year * 16 + d.month) * 32 + d.day)
                        by (nonlinear_arith)
                        requires nv as int == d.year * 512 + d.month * 32 + d.day;
                    vstd::arithmetic::div_mod::lemma_fundamental_div_mod_converse(
                        nv as int,
                        32,
                        d.year * 16 + d.month,
                        d.day as int,
                    );
                }
                Date {
                    year: (nv / 512) as u32,
                    month: ((nv % 512) / 32) as u32,
                    day: (nv % 32) as u32,
                }
            },
            GroupKey::Text(_) => vstd::pervasive::unreached(),
        };
        let row = DateStats {
            date,
            total: st.total as u64,
            transaction_count: st.transaction_count as u32,
            average: st.average,
            median: st.median,
            count: st.count,
        };
        let ghost r_before = r@;
        r.push(row);
        proof {
            assert(r@.drop_last() =~= r_before);
            lemma_counts_total_take_succ(sseq, a as int);
        }
        a = a + 1;
    }
    proof {
        assert(sseq.take(sseq.len() as int) =~= sseq);
        assert forall|x: int| 0 <= x < r@.len() implies date_stat_ok(
            transactions@,
            #[trigger] r@[x],
        ) && key_present(
            transactions@,
            Dimension::Day,
            KeyVal::Number(day_key_of(r@[x].date)),
        ) by {
            assert(stat_ok(transactions@, Dimension::Day, sseq[x]));
            assert(key_model(sseq[x].key) == KeyVal::Number(day_key_of(r@[x].date)));
        }
        assert forall|j: int| 0 <= j < transactions@.len() implies exists|a: int|
            0 <= a < r@.len() && (#[trigger] transactions@[j]).date == r@[a].date by {
            let w = choose|w: int|
                0 <= w < sseq.len() && key_model(sseq[w].key) == key_of_spec(
                    transactions@[j],
                    Dimension::Day,
                );
            assert(key_model(sseq[w].key) == KeyVal::Number(day_key_of(r@[w].date)));
            let d1 = transactions@[j].date;
            let d2 = r@[w].date;
            assert(day_key_of(d1) == day_key_of(d2));
            assert(d1 == d2) by (nonlinear_arith)
                requires
                    d1.year * 512 + d1.month * 32 + d1.day == d2.year * 512 + d2.month * 32
                        + d2.day,
                    1 <= d1.month <= 12,
                    1 <= d1.day <= 31,
                    1 <= d2.month <= 12,
                    1 <= d2.day <= 31;
        }
        assert forall|a: int, b: int| 0 <= a < b < r@.len() implies date_le(
            order,
            r@[a],
            r@[b],
        ) by {
            assert(stat_le(order, sseq[a], sseq[b]));
        }
    }
    r
}

} // verus!
