use vstd::prelude::*;
use vstd::arithmetic::mul::lemma_mul_inequality;
use vstd::multiset::Multiset;
use vstd::seq_lib::lemma_multiset_commutative;
use crate::models::Transaction;
use crate::seq_math::{lemma_sorted_of_element_membership, lemma_sorted_of_ensures, sorted_of};
use crate::stats::{lemma_rank_in_range, percentile, rank_of};

verus! {

/// Which numeric field of a transaction the detector examines.
#[derive(Clone, Copy, PartialEq, Eq, Structural)]
pub enum AnomalyField {
    Value,
    TransactionCount,
}

pub open spec fn field_of(t: Transaction, f: AnomalyField) -> u64 {
    match f {
        AnomalyField::Value => t.value,
        AnomalyField::TransactionCount => t.transaction_count as u64,
    }
}

/// The chosen field of every transaction, in input order.
pub open spec fn field_seq(s: Seq<Transaction>, f: AnomalyField) -> Seq<u64> {
    s.map_values(|t: Transaction| field_of(t, f))
}

/// The first quartile: the nearest-rank 25th percentile of the values.
pub open spec fn q1_of(vals: Seq<u64>) -> u64
    recommends
        vals.len() > 0,
{
    sorted_of(vals)[rank_of(vals.len() as int, 1, 4)]
}

/// The third quartile: the nearest-rank 75th percentile of the values.
pub open spec fn q3_of(vals: Seq<u64>) -> u64
    recommends
        vals.len() > 0,
{
    sorted_of(vals)[rank_of(vals.len() as int, 3, 4)]
}

/// Twice the lower fence `Q1 - (m/2) * IQR`, for the multiplier `m/2`.
/// Doubling keeps the bound an integer: `m = 3` is the usual 1.5 multiplier.
pub open spec fn lower2_of(vals: Seq<u64>, m: int) -> int {
    2 * q1_of(vals) - m * (q3_of(vals) - q1_of(vals))
}

/// Twice the upper fence `Q3 + (m/2) * IQR`, for the multiplier `m/2`.
pub open spec fn upper2_of(vals: Seq<u64>, m: int) -> int {
    2 * q3_of(vals) + m * (q3_of(vals) - q1_of(vals))
}

/// A value is an outlier when it falls strictly outside the doubled fences.
pub open spec fn is_outlier(v: u64, lo2: int, hi2: int) -> bool {
    2 * v < lo2 || 2 * v > hi2
}

/// The subsequence of transactions whose chosen field is outside the fences,
/// in input order.
pub open spec fn outliers_of(s: Seq<Transaction>, f: AnomalyField, lo2: int, hi2: int) -> Seq<
    Transaction,
>
    decreases s.len(),
{
    if s.len() == 0 {
        Seq::empty()
    } else {
        outliers_of(s.drop_last(), f, lo2, hi2) + if is_outlier(
            field_of(s.last(), f),
            lo2,
            hi2,
        ) {
            seq![s.last()]
        } else {
            Seq::empty()
        }
    }
}

/// On a non-empty value list the two quartiles are ordered: `Q1 <= Q3`.
pub proof fn lemma_quartiles_ordered(vals: Seq<u64>)
    requires
        vals.len() > 0,
    ensures
        q1_of(vals) <= q3_of(vals),
{
    let n = vals.len() as int;
    lemma_rank_in_range(n, 1, 4);
    lemma_rank_in_range(n, 3, 4);
    assert(2 * 1 * (n - 1) + 4 <= 2 * 3 * (n - 1) + 4) by (nonlinear_arith)
        requires n >= 1;
    vstd::arithmetic::div_mod::lemma_div_is_ordered(2 * 1 * (n - 1) + 4, 2 * 3 * (n - 1) + 4, 8int);
    lemma_sorted_of_ensures(vals);
}

/// Computes the IQR fences over the chosen field of the whole dataset and
/// returns every transaction strictly outside them, in input order.
///
/// `multiplier_halves` is twice the IQR multiplier: 3 stands for the usual
/// 1.5, 6 for 3.0.
pub fn detect_outliers(
    transactions: &Vec<Transaction>,
    field: AnomalyField,
    multiplier_halves: u32,
) -> (r: Vec<Transaction>)
    requires
        transactions@.len() > 0,
    ensures
        r@ == outliers_of(
            transactions@,
            field,
            lower2_of(field_seq(transactions@, field), multiplier_halves as int),
            upper2_of(field_seq(transactions@, field), multiplier_halves as int),
        ),
{
    let n = transactions.len();
    let mut values: Vec<u64> = Vec::new();
    let mut i: usize = 0;
    while i < n
        invariant
            n == transactions@.len(),
            i <= n,
            values@.len() == i,
            forall|j: int| 0 <= j < i ==> values@[j] == field_of(transactions@[j], field),
        decreases n - i,
    {
        let v = match field {
            AnomalyField::Value => transactions[i].value,
            AnomalyField::TransactionCount => transactions[i].transaction_count as u64,
        };
        values.push(v);
        i = i + 1;
    }
    proof {
        assert(values@ =~= field_seq(transactions@, field));
    }
    let q3 = percentile(&values, 3, 4);
    let q1 = percentile(&values, 1, 4);
    proof {
        lemma_quartiles_ordered(values@);
    }
    let iqr = q3 - q1;
    let m = multiplier_halves as i128;
    proof {
        assert(m * (iqr as i128) <= 0x1_0000_0000 * 0x1_0000_0000_0000_0000) by (nonlinear_arith)
            requires
                0 <= m <= 0xffff_ffff,
                0 <= iqr as i128 <= 0xffff_ffff_ffff_ffff;
        assert(m * (iqr as i128) >= 0) by (nonlinear_arith)
            requires
                0 <= m,
                0 <= iqr as i128;
    }
    let lo2: i128 = 2 * (q1 as i128) - m * (iqr as i128);
    let hi2: i128 = 2 * (q3 as i128) + m * (iqr as i128);
    let ghost glo = lower2_of(field_seq(transactions@, field), multiplier_halves as int);
    let ghost ghi = upper2_of(field_seq(transactions@, field), multiplier_halves as int);
    proof {
        assert(lo2 == glo);
        assert(hi2 == ghi);
    }
    let mut r: Vec<Transaction> = Vec::new();
    i = 0;
    while i < n
        invariant
            n == transactions@.len(),
            i <= n,
            lo2 == glo,
            hi2 == ghi,
            r@ == outliers_of(transactions@.take(i as int), field, glo, ghi),
        decreases n - i,
    {
        let v = match field {
            AnomalyField::Value => transactions[i].value,
            AnomalyField::TransactionCount => transactions[i].transaction_count as u64,
        };
        let ghost r_before = r@;
        if 2 * (v as i128) < lo2 || 2 * (v as i128) > hi2 {
            r.push(transactions[i].clone());
        }
        proof {
            let pfx = transactions@.take(i + 1);
            assert(pfx.drop_last() =~= transactions@.take(i as int));
            assert(pfx.last() == transactions@[i as int]);
            if is_outlier(field_of(transactions@[i as int], field), glo, ghi) {
                assert(r@ =~= r_before + seq![transactions@[i as int]]);
            } else {
                assert(r@ =~= r_before + Seq::<Transaction>::empty());
            }
        }
        i = i + 1;
    }
    proof {
        assert(transactions@.take(n as int) =~= transactions@);
    }
    r
}

/// Flags transactions whose `value` lies outside the 1.5-IQR fences computed
/// over all values, in input order.
pub fn detect_anomaly_for_value(transactions: &Vec<Transaction>) -> (r: Vec<Transaction>)
    requires
        transactions@.len() > 0,
    ensures
        r@ == outliers_of(
            transactions@,
            AnomalyField::Value,
            lower2_of(field_seq(transactions@, AnomalyField::Value), 3),
            upper2_of(field_seq(transactions@, AnomalyField::Value), 3),
        ),
{
    detect_outliers(transactions, AnomalyField::Value, 3)
}

/// Flags transactions whose `transaction_count` lies outside the 1.5-IQR
/// fences computed over all transaction counts, in input order.
pub fn detect_anomaly_for_transaction_count(transactions: &Vec<Transaction>) -> (r: Vec<
    Transaction,
>)
    requires
        transactions@.len() > 0,
    ensures
        r@ == outliers_of(
            transactions@,
            AnomalyField::TransactionCount,
            lower2_of(field_seq(transactions@, AnomalyField::TransactionCount), 3),
            upper2_of(field_seq(transactions@, AnomalyField::TransactionCount), 3),
        ),
{
    detect_outliers(transactions, AnomalyField::TransactionCount, 3)
}

/// Widening the fences never flags more: with a lower lower fence and a
/// higher upper fence, the flagged transactions are a sub-collection of
/// those flagged with the narrower fences.
pub proof fn lemma_wider_fences_flag_fewer(
    s: Seq<Transaction>,
    f: AnomalyField,
    lo1: int,
    hi1: int,
    lo2: int,
    hi2: int,
)
    requires
        lo2 <= lo1,
        hi1 <= hi2,
    ensures
        outliers_of(s, f, lo2, hi2).to_multiset().subset_of(
            outliers_of(s, f, lo1, hi1).to_multiset(),
        ),
        outliers_of(s, f, lo2, hi2).len() <= outliers_of(s, f, lo1, hi1).len(),
    decreases s.len(),
{
    broadcast use vstd::multiset::group_multiset_axioms;
    broadcast use vstd::seq_lib::group_to_multiset_ensures;

    if s.len() > 0 {
        let prev = s.drop_last();
        lemma_wider_fences_flag_fewer(prev, f, lo1, hi1, lo2, hi2);
        let tail_wide: Seq<Transaction> = if is_outlier(field_of(s.last(), f), lo2, hi2) {
            seq![s.last()]
        } else {
            Seq::empty()
        };
        let tail_narrow: Seq<Transaction> = if is_outlier(field_of(s.last(), f), lo1, hi1) {
            seq![s.last()]
        } else {
            Seq::empty()
        };
        lemma_multiset_commutative(outliers_of(prev, f, lo2, hi2), tail_wide);
        lemma_multiset_commutative(outliers_of(prev, f, lo1, hi1), tail_narrow);
        assert(is_outlier(field_of(s.last(), f), lo2, hi2) ==> is_outlier(
            field_of(s.last(), f),
            lo1,
            hi1,
        ));
        assert(tail_wide.to_multiset().subset_of(tail_narrow.to_multiset())) by {
            if tail_wide.len() == 0 {
                assert(tail_wide.to_multiset() =~= Multiset::<Transaction>::empty());
            } else {
                assert(tail_wide =~= tail_narrow);
            }
        }
        assert forall|x: Transaction|
            outliers_of(s, f, lo2, hi2).to_multiset().count(x) <= outliers_of(
                s,
                f,
                lo1,
                hi1,
            ).to_multiset().count(x) by {
            assert(outliers_of(s, f, lo2, hi2).to_multiset().count(x) == outliers_of(
                prev,
                f,
                lo2,
                hi2,
            ).to_multiset().count(x) + tail_wide.to_multiset().count(x));
            assert(outliers_of(s, f, lo1, hi1).to_multiset().count(x) == outliers_of(
                prev,
                f,
                lo1,
                hi1,
            ).to_multiset().count(x) + tail_narrow.to_multiset().count(x));
        }
    }
}

/// Widening the IQR multiplier (for instance from 1.5 to 3.0) never grows
/// the flagged set; narrowing it back never shrinks it.  The multipliers are
/// given in halves: `m1 = 3` stands for 1.5 and `m2 = 6` for 3.0.
pub proof fn lemma_outlier_multiplier_monotonic(
    s: Seq<Transaction>,
    f: AnomalyField,
    m1: int,
    m2: int,
)
    requires
        0 <= m1 <= m2,
        s.len() > 0,
    ensures
        outliers_of(
            s,
            f,
            lower2_of(field_seq(s, f), m2),
            upper2_of(field_seq(s, f), m2),
        ).to_multiset().subset_of(
            outliers_of(s, f, lower2_of(field_seq(s, f), m1), upper2_of(field_seq(s, f), m1))
                .to_multiset(),
        ),
        outliers_of(s, f, lower2_of(field_seq(s, f), m2), upper2_of(field_seq(s, f), m2)).len()
            <= outliers_of(s, f, lower2_of(field_seq(s, f), m1), upper2_of(field_seq(s, f), m1))
                .len(),
{
    let vals = field_seq(s, f);
    assert(vals.len() == s.len());
    lemma_quartiles_ordered(vals);
    let iqr = q3_of(vals) - q1_of(vals);
    lemma_mul_inequality(m1, m2, iqr);
    lemma_wider_fences_flag_fewer(
        s,
        f,
        lower2_of(vals, m1),
        upper2_of(vals, m1),
        lower2_of(vals, m2),
        upper2_of(vals, m2),
    );
}

/// On an all-equal value list both quartiles are that common value.
proof fn lemma_all_equal_quartiles(vals: Seq<u64>)
    requires
        vals.len() > 0,
        forall|i: int| 0 <= i < vals.len() ==> #[trigger] vals[i] == vals[0],
    ensures
        q1_of(vals) == vals[0],
        q3_of(vals) == vals[0],
{
    let n = vals.len() as int;
    lemma_rank_in_range(n, 1, 4);
    lemma_rank_in_range(n, 3, 4);
    lemma_sorted_of_element_membership(vals, rank_of(n, 1, 4));
    lemma_sorted_of_element_membership(vals, rank_of(n, 3, 4));
}

/// If nothing in the sequence is outside the fences, nothing is flagged.
proof fn lemma_none_flagged_empty(s: Seq<Transaction>, f: AnomalyField, lo2: int, hi2: int)
    requires
        forall|j: int| 0 <= j < s.len() ==> !is_outlier(field_of(s[j], f), lo2, hi2),
    ensures
        outliers_of(s, f, lo2, hi2).len() == 0,
    decreases s.len(),
{
    if s.len() > 0 {
        lemma_none_flagged_empty(s.drop_last(), f, lo2, hi2);
    }
}

/// Homogeneous data is never flagged: when every transaction carries the
/// same field value the IQR collapses to zero, the fences collapse to that
/// common value, and the flagged set is empty, for any multiplier.
pub proof fn lemma_homogeneous_no_outliers(s: Seq<Transaction>, f: AnomalyField, m: int)
    requires
        s.len() > 0,
        0 <= m,
        forall|i: int| 0 <= i < s.len() ==> #[trigger] field_of(s[i], f) == field_of(s[0], f),
    ensures
        outliers_of(s, f, lower2_of(field_seq(s, f), m), upper2_of(field_seq(s, f), m))
            == Seq::<Transaction>::empty(),
{
    let vals = field_seq(s, f);
    assert(vals.len() == s.len());
    assert forall|i: int| 0 <= i < vals.len() implies #[trigger] vals[i] == vals[0] by {
        assert(vals[i] == field_of(s[i], f));
        assert(vals[0] == field_of(s[0], f));
    }
    lemma_all_equal_quartiles(vals);
    let c = vals[0];
    assert(m * (q3_of(vals) - q1_of(vals)) == 0) by (nonlinear_arith)
        requires q3_of(vals) - q1_of(vals) == 0;
    assert(lower2_of(vals, m) == 2 * c);
    assert(upper2_of(vals, m) == 2 * c);
    assert forall|j: int| 0 <= j < s.len() implies !is_outlier(
        field_of(s[j], f),
        lower2_of(vals, m),
        upper2_of(vals, m),
    ) by {
        assert(field_of(s[j], f) == c);
    }
    lemma_none_flagged_empty(s, f, lower2_of(vals, m), upper2_of(vals, m));
    assert(outliers_of(s, f, lower2_of(vals, m), upper2_of(vals, m))
        =~= Seq::<Transaction>::empty());
}

} // verus!
