use vstd::prelude::*;
use vstd::relations::{sorted_by, total_ordering};
use vstd::seq_lib::lemma_sorted_unique;
use vstd::seq_lib::lemma_multiset_commutative;

verus! {

/// The sum of a sequence of machine integers, as an unbounded integer.
pub open spec fn seq_sum(s: Seq<u64>) -> int
    decreases s.len(),
{
    if s.len() == 0 {
        0
    } else {
        seq_sum(s.drop_last()) + s.last()
    }
}

/// The `<=` ordering on `u64`, packaged as a relation for `sort_by`.
pub open spec fn u64_le() -> spec_fn(u64, u64) -> bool {
    |x: u64, y: u64| x <= y
}

/// The ascending sort of a sequence, as a mathematical value.
pub open spec fn sorted_of(s: Seq<u64>) -> Seq<u64> {
    s.sort_by(u64_le())
}

pub proof fn lemma_u64_le_total_ordering()
    ensures
        total_ordering(u64_le()),
{
}

/// The defining properties of `sorted_of`: same elements, ascending order,
/// same length.
pub proof fn lemma_sorted_of_ensures(s: Seq<u64>)
    ensures
        sorted_of(s).to_multiset() == s.to_multiset(),
        sorted_by(sorted_of(s), u64_le()),
        sorted_of(s).len() == s.len(),
        forall|i: int, j: int|
            0 <= i <= j < s.len() ==> #[trigger] sorted_of(s)[i] <= #[trigger] sorted_of(s)[j],
{
    lemma_u64_le_total_ordering();
    s.lemma_sort_by_ensures(u64_le());
    broadcast use vstd::seq_lib::group_to_multiset_ensures;

    assert(sorted_of(s).len() == sorted_of(s).to_multiset().len());
    assert(s.len() == s.to_multiset().len());
    assert forall|i: int, j: int|
        0 <= i <= j < s.len() implies #[trigger] sorted_of(s)[i] <= #[trigger] sorted_of(s)[j] by {
        if i < j {
            assert(u64_le()(sorted_of(s)[i], sorted_of(s)[j]));
        }
    }
}

/// Every element of the sorted sequence occurs in the original one.
pub proof fn lemma_sorted_of_element_membership(s: Seq<u64>, i: int)
    requires
        0 <= i < s.len(),
    ensures
        s.contains(sorted_of(s)[i]),
{
    lemma_sorted_of_ensures(s);
    broadcast use vstd::seq_lib::group_to_multiset_ensures;

    assert(sorted_of(s).contains(sorted_of(s)[i]));
    assert(sorted_of(s).to_multiset().count(sorted_of(s)[i]) > 0);
}

/// A sum of `n` values, each at most `u64::MAX`, is at most `n * u64::MAX`.
pub proof fn lemma_seq_sum_le_len_max(s: Seq<u64>)
    ensures
        seq_sum(s) <= s.len() * u64::MAX,
    decreases s.len(),
{
    if s.len() > 0 {
        lemma_seq_sum_le_len_max(s.drop_last());
        assert(s.drop_last().len() * u64::MAX + u64::MAX == s.len() * u64::MAX) by (nonlinear_arith)
            requires s.len() >= 1 && s.drop_last().len() == s.len() - 1;
    }
}

/// Extending a prefix by one element adds that element to the prefix sum.
pub proof fn lemma_seq_sum_take_succ(s: Seq<u64>, i: int)
    requires
        0 <= i < s.len(),
    ensures
        seq_sum(s.take(i + 1)) == seq_sum(s.take(i)) + s[i],
{
    assert(s.take(i + 1).drop_last() =~= s.take(i));
    assert(s.take(i + 1).last() == s[i]);
}

/// Inserting an element anywhere in a sequence adds it to the multiset of
/// elements.
pub proof fn lemma_insert_to_multiset<A>(s: Seq<A>, i: int, x: A)
    requires
        0 <= i <= s.len(),
    ensures
        s.insert(i, x).to_multiset() == s.to_multiset().insert(x),
{
    broadcast use vstd::seq_lib::group_to_multiset_ensures;

    let left = s.subrange(0, i);
    let right = s.subrange(i, s.len() as int);
    assert(s.insert(i, x) =~= left.push(x) + right);
    assert(s =~= left + right);
    lemma_multiset_commutative(left.push(x), right);
    lemma_multiset_commutative(left, right);
    assert(left.push(x).to_multiset() =~= left.to_multiset().insert(x));
    assert(s.insert(i, x).to_multiset() =~= s.to_multiset().insert(x));
}

/// Sorts a copy of the input ascending, by insertion into a fresh vector.
///
/// The result is exactly the mathematical sort of the input sequence.
pub fn sort_values(values: &Vec<u64>) -> (r: Vec<u64>)
    ensures
        r@ == sorted_of(values@),
        r@.len() == values@.len(),
{
    let ghost orig = values@;
    let mut r: Vec<u64> = Vec::new();
    let n = values.len();
    proof {
        assert(orig.take(0) =~= Seq::<u64>::empty());
    }
    let mut i: usize = 0;
    while i < n
        invariant
            n == orig.len(),
            values@ == orig,
            i <= n,
            r@.len() == i,
            r@.to_multiset() == orig.take(i as int).to_multiset(),
            sorted_by(r@, u64_le()),
        decreases n - i,
    {
        let x = values[i];
        let mut pos: usize = 0;
        while pos < r.len() && r[pos] <= x
            invariant
                pos <= r@.len(),
                forall|a: int| 0 <= a < pos ==> #[trigger] r@[a] <= x,
            decreases r@.len() - pos,
        {
            pos = pos + 1;
        }
        let ghost r_before = r@;
        proof {
            lemma_insert_to_multiset(r@, pos as int, x);
            broadcast use vstd::seq_lib::group_to_multiset_ensures;

            assert(orig.take(i as int).push(orig[i as int]) =~= orig.take(i + 1));
            assert(forall|a: int| 0 <= a < pos ==> #[trigger] r_before[a] <= x);
            assert(pos == r_before.len() || !(r_before[pos as int] <= x));
        }
        r.insert(pos, x);
        proof {
            r_before.insert_ensures(pos as int, x);
            let p = pos as int;
            assert forall|a: int, b: int| 0 <= a < b < r@.len() implies u64_le()(r@[a], r@[b]) by {
                if b < p {
                    assert(u64_le()(r_before[a], r_before[b]));
                    assert(r@[a] == r_before[a] && r@[b] == r_before[b]);
                } else if a > p {
                    assert(u64_le()(r_before[a - 1], r_before[b - 1]));
                    assert(r@[a] == r_before[a - 1] && r@[b] == r_before[b - 1]);
                } else if a == p {
                    assert(r@[a] == x && r@[b] == r_before[b - 1]);
                    assert(!(r_before[p] <= x));
                    if b - 1 > p {
                        assert(u64_le()(r_before[p], r_before[b - 1]));
                    }
                } else if b == p {
                    assert(r@[a] == r_before[a] && r@[b] == x);
                    assert(r_before[a] <= x);
                } else {
                    assert(a < p && b > p);
                    assert(r@[a] == r_before[a] && r@[b] == r_before[b - 1]);
                    assert(r_before[a] <= x);
                    assert(!(r_before[p] <= x));
                    if a < b - 1 && b - 1 > p {
                        assert(u64_le()(r_before[p], r_before[b - 1]));
                    }
                    if a < b - 1 && b - 1 == p {
                        assert(r_before[a] <= x);
                    }
                }
            }
        }
        i = i + 1;
    }
    proof {
        assert(orig.take(n as int) =~= orig);
        lemma_u64_le_total_ordering();
        orig.lemma_sort_by_ensures(u64_le());
        lemma_sorted_unique(r@, sorted_of(orig), u64_le());
        lemma_sorted_of_ensures(orig);
    }
    r
}

} // verus!
