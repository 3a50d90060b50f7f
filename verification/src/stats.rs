use vstd::prelude::*;
use vstd::arithmetic::div_mod::{
    lemma_div_is_ordered, lemma_div_pos_is_pos, lemma_fundamental_div_mod_converse,
};
use crate::models::{Ratio, StatsError};
use crate::seq_math::{lemma_sorted_of_ensures, sort_values, sorted_of};

verus! {

/// Twice the median of a value sequence: the sum of the two central elements
/// of the ascending sort when the length is even, else twice the single
/// central element.  Working with the doubled value keeps the definition in
/// integers; the median itself is this value over 2.
pub open spec fn median2_of(vals: Seq<u64>) -> int
    recommends
        vals.len() > 0,
{
    let s = sorted_of(vals);
    let mid = vals.len() as int / 2;
    if vals.len() % 2 == 0 {
        s[mid - 1] + s[mid]
    } else {
        2 * s[mid]
    }
}

/// The median of a non-empty value list, as the exact ratio `median2_of / 2`.
///
/// For an even count this is the arithmetic mean of the two central sorted
/// elements; for an odd count, the central sorted element.
pub fn calculate_median(values: &Vec<u64>) -> (r: Ratio)
    requires
        values@.len() > 0,
    ensures
        r.den == 2,
        r.num == median2_of(values@),
{
    let sorted = sort_values(values);
    proof {
        lemma_sorted_of_ensures(values@);
    }
    let n = sorted.len();
    let mid = n / 2;
    if n % 2 == 0 {
        let a = sorted[mid - 1];
        let b = sorted[mid];
        Ratio { num: a as u128 + b as u128, den: 2 }
    } else {
        Ratio { num: 2 * (sorted[mid] as u128), den: 2 }
    }
}

/// `calculate_median` behind an explicit emptiness check: an empty input is
/// reported as `StatsError::EmptyInput`, never as a sentinel value.
pub fn median_checked(values: &Vec<u64>) -> (r: Result<Ratio, StatsError>)
    ensures
        r is Ok <==> values@.len() > 0,
        r is Ok ==> r->Ok_0.den == 2 && r->Ok_0.num == median2_of(values@),
        r is Err ==> r->Err_0 == StatsError::EmptyInput,
{
    if values.len() == 0 {
        Err(StatsError::EmptyInput)
    } else {
        Ok(calculate_median(values))
    }
}

/// The zero-based nearest rank `round(p * (n - 1))` for the percentile
/// `p = p_num / p_den` over `n` values.  Rounding is half-up, written in
/// integers: `floor((p_num * (n - 1) + p_den / 2) / p_den)` with every term
/// doubled to avoid the halving.
pub open spec fn rank_of(n: int, p_num: int, p_den: int) -> int
    recommends
        n >= 1,
        p_den >= 1,
{
    (2 * p_num * (n - 1) + p_den) / (2 * p_den)
}

pub proof fn lemma_rank_in_range(n: int, p_num: int, p_den: int)
    requires
        n >= 1,
        p_den >= 1,
        0 <= p_num <= p_den,
    ensures
        0 <= rank_of(n, p_num, p_den) < n,
{
    let num = 2 * p_num * (n - 1) + p_den;
    let d = 2 * p_den;
    assert(num <= d * (n - 1) + p_den) by (nonlinear_arith)
        requires
            0 <= p_num <= p_den,
            n >= 1,
            d == 2 * p_den,
            num == 2 * p_num * (n - 1) + p_den;
    lemma_fundamental_div_mod_converse(d * (n - 1) + p_den, d, n - 1, p_den);
    lemma_div_is_ordered(num, d * (n - 1) + p_den, d);
    assert(num >= 0) by (nonlinear_arith)
        requires
            p_num >= 0,
            n >= 1,
            p_den >= 1,
            num == 2 * p_num * (n - 1) + p_den;
    lemma_div_pos_is_pos(num, d);
}

/// The nearest-rank percentile: the element of the ascending sort at index
/// `round(p * (n - 1))`, with no interpolation between neighbouring ranks.
/// The percentile `p` in `[0, 1]` is passed as the fraction `p_num / p_den`.
pub fn percentile(values: &Vec<u64>, p_num: u32, p_den: u32) -> (r: u64)
    requires
        values@.len() > 0,
        p_den >= 1,
        p_num <= p_den,
    ensures
        r == sorted_of(values@)[rank_of(values@.len() as int, p_num as int, p_den as int)],
{
    let sorted = sort_values(values);
    let n = sorted.len();
    proof {
        lemma_rank_in_range(n as int, p_num as int, p_den as int);
        assert(2 * (p_num as int) * ((n as int) - 1) + (p_den as int) <= u128::MAX)
            by (nonlinear_arith)
            requires
                0 <= p_num as int <= 0xffff_ffff,
                0 <= (n as int) - 1 <= 0xffff_ffff_ffff_ffff,
                0 <= p_den as int <= 0xffff_ffff;
    }
    let num: u128 = 2 * (p_num as u128) * ((n as u128) - 1) + (p_den as u128);
    let den: u128 = 2 * (p_den as u128);
    let idx: usize = (num / den) as usize;
    sorted[idx]
}

/// `percentile` behind an explicit emptiness check, reporting
/// `StatsError::EmptyInput` for an empty value list.
pub fn percentile_checked(values: &Vec<u64>, p_num: u32, p_den: u32) -> (r: Result<
    u64,
    StatsError,
>)
    requires
        p_den >= 1,
        p_num <= p_den,
    ensures
        r is Ok <==> values@.len() > 0,
        r is Ok ==> r->Ok_0 == sorted_of(values@)[rank_of(
            values@.len() as int,
            p_num as int,
            p_den as int,
        )],
        r is Err ==> r->Err_0 == StatsError::EmptyInput,
{
    if values.len() == 0 {
        Err(StatsError::EmptyInput)
    } else {
        Ok(percentile(values, p_num, p_den))
    }
}

} // verus!
