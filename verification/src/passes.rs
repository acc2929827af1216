//! Whole-slice passes over `i64` data: sum, count of even values, maximum, and
//! the data the workload runs on.

use vstd::prelude::*;
use vstd::slice::slice_subrange;

verus! {

/// The mathematical sum of a sequence.
pub open spec fn seq_sum(s: Seq<i64>) -> int
    decreases s.len(),
{
    if s.len() == 0 {
        0
    } else {
        seq_sum(s.drop_last()) + s.last()
    }
}

/// Summing the sequence from the left never leaves `i64`: every prefix sum fits.
pub open spec fn sums_fit(s: Seq<i64>) -> bool {
    forall|k: int| 0 <= k <= s.len() ==> i64::MIN <= #[trigger] seq_sum(s.take(k)) <= i64::MAX
}

/// The number of even values in a sequence.
pub open spec fn count_evens(s: Seq<i64>) -> nat
    decreases s.len(),
{
    if s.len() == 0 {
        0
    } else {
        count_evens(s.drop_last()) + if s.last() % 2 == 0 {
            1nat
        } else {
            0nat
        }
    }
}

/// The largest value of a sequence, or `i64::MIN` for the empty sequence.
pub open spec fn seq_max(s: Seq<i64>) -> i64
    decreases s.len(),
{
    if s.len() == 0 {
        i64::MIN
    } else {
        let m = seq_max(s.drop_last());
        if s.last() > m {
            s.last()
        } else {
            m
        }
    }
}

/// Sums `values` from the left.
pub fn sum_values(values: &[i64]) -> (r: i64)
    requires
        sums_fit(values@),
    ensures
        r == seq_sum(values@),
{
    let mut total: i64 = 0;
    for i in 0..values.len()
        invariant
            sums_fit(values@),
            total == seq_sum(values@.take(i as int)),
    {
        assert(values@.take(i + 1).drop_last() =~= values@.take(i as int));
        assert(i64::MIN <= seq_sum(values@.take(i + 1)) <= i64::MAX);
        total = total + values[i];
    }
    assert(values@.take(values@.len() as int) =~= values@);
    total
}

/// Sums `values` from the left, or `None` when a prefix sum leaves `i64`.
pub fn checked_sum(values: &[i64]) -> (r: Option<i64>)
    ensures
        sums_fit(values@) ==> r == Some(seq_sum(values@) as i64),
        !sums_fit(values@) ==> r is None,
{
    let mut total: i64 = 0;
    for i in 0..values.len()
        invariant
            total == seq_sum(values@.take(i as int)),
            forall|k: int| 0 <= k <= i ==> i64::MIN <= #[trigger] seq_sum(values@.take(k)) <= i64::MAX,
    {
        assert(values@.take(i + 1).drop_last() =~= values@.take(i as int));
        match total.checked_add(values[i]) {
            Some(t) => {
                total = t;
            },
            None => {
                assert(!(i64::MIN <= seq_sum(values@.take(i + 1)) <= i64::MAX));
                return None;
            },
        }
    }
    assert(values@.take(values@.len() as int) =~= values@);
    Some(total)
}

/// Counts the even values of `data`.
pub fn count_even_values(data: &[i64]) -> (r: usize)
    ensures
        r == count_evens(data@),
{
    let mut count: usize = 0;
    for i in 0..data.len()
        invariant
            count == count_evens(data@.take(i as int)),
            count <= i,
    {
        assert(data@.take(i + 1).drop_last() =~= data@.take(i as int));
        if data[i] % 2 == 0 {
            count = count + 1;
        }
    }
    assert(data@.take(data@.len() as int) =~= data@);
    count
}

/// The largest value of `data`, or `i64::MIN` when it is empty.
pub fn max_value(data: &[i64]) -> (r: i64)
    ensures
        r == seq_max(data@),
{
    let mut best: i64 = i64::MIN;
    for i in 0..data.len()
        invariant
            best == seq_max(data@.take(i as int)),
    {
        assert(data@.take(i + 1).drop_last() =~= data@.take(i as int));
        if data[i] > best {
            best = data[i];
        }
    }
    assert(data@.take(data@.len() as int) =~= data@);
    best
}

/// The sum, the number of even values and the maximum of `data`, computed in
/// three passes one after another.
pub fn three_sequential_passes(data: &[i64]) -> (r: (i64, usize, i64))
    requires
        sums_fit(data@),
    ensures
        r.0 == seq_sum(data@),
        r.1 == count_evens(data@),
        r.2 == seq_max(data@),
{
    let sum = sum_values(data);
    let evens = count_even_values(data);
    let max = max_value(data);
    (sum, evens, max)
}

/// Splits `values` into two halves; the first has `len / 2` elements.
pub fn split_halves(values: &[i64]) -> (r: (&[i64], &[i64]))
    ensures
        r.0@ == values@.take(values@.len() as int / 2),
        r.1@ == values@.skip(values@.len() as int / 2),
        r.0@ + r.1@ == values@,
{
    let mid = values.len() / 2;
    let left = slice_subrange(values, 0, mid);
    let right = slice_subrange(values, mid, values.len());
    assert(values@.subrange(0, mid as int) =~= values@.take(mid as int));
    assert(values@.subrange(mid as int, values@.len() as int) =~= values@.skip(mid as int));
    assert(values@.take(mid as int) + values@.skip(mid as int) =~= values@);
    (left, right)
}

/// The sum of two sequences laid end to end is the sum of their sums.
pub proof fn lemma_sum_concat(a: Seq<i64>, b: Seq<i64>)
    ensures
        seq_sum(a + b) == seq_sum(a) + seq_sum(b),
    decreases b.len(),
{
    if b.len() == 0 {
        assert(a + b =~= a);
    } else {
        assert((a + b).drop_last() =~= a + b.drop_last());
        lemma_sum_concat(a, b.drop_last());
    }
}

/// Summing the two halves separately and adding the partial sums gives the sum
/// of the whole: splitting the work between two workers preserves the total.
pub proof fn lemma_halves_preserve_total(values: Seq<i64>)
    ensures
        seq_sum(values.take(values.len() as int / 2)) + seq_sum(values.skip(values.len() as int / 2)) == seq_sum(values),
{
    let mid = values.len() / 2;
    assert(values.take(mid as int) + values.skip(mid as int) =~= values);
    lemma_sum_concat(values.take(mid as int), values.skip(mid as int));
}

/// The `k`-th value of the generated workload: `k * 31` (wrapping) XOR `0x5A5A`.
pub open spec fn workload_value(k: int) -> i64 {
    (k as i64).wrapping_mul(31) ^ 0x5A5Ai64
}

/// The workload of `n` values `0, 1, .., n - 1` mixed by [`workload_value`].
/// The values are indexed by `i64`: a count beyond `i64::MAX` reads as a
/// negative bound and gives no values at all.
pub fn generate_data(n: usize) -> (r: Vec<i64>)
    ensures
        n <= i64::MAX ==> r@.len() == n,
        n > i64::MAX ==> r@.len() == 0,
        forall|k: int| 0 <= k < r@.len() ==> #[trigger] r@[k] == workload_value(k),
{
    let mut v: Vec<i64> = Vec::new();
    if n as u64 > 0x7fff_ffff_ffff_ffffu64 {
        return v;
    }
    let mut k: usize = 0;
    while k < n
        invariant
            k <= n,
            n <= i64::MAX,
            v@.len() == k,
            forall|j: int| 0 <= j < k ==> #[trigger] v@[j] == workload_value(j),
        decreases n - k,
    {
        let x = k as i64;
        v.push(x.wrapping_mul(31) ^ 0x5A5A);
        k = k + 1;
    }
    v
}


/// The maximum of a sequence is one of its values and no value exceeds it; the
/// empty sequence has the maximum `i64::MIN`.
pub proof fn lemma_seq_max_is_maximum(s: Seq<i64>)
    ensures
        s.len() == 0 ==> seq_max(s) == i64::MIN,
        s.len() > 0 ==> exists|i: int| 0 <= i < s.len() && #[trigger] s[i] == seq_max(s),
        forall|i: int| 0 <= i < s.len() ==> #[trigger] s[i] <= seq_max(s),
    decreases s.len(),
{
    if s.len() > 0 {
        let t = s.drop_last();
        lemma_seq_max_is_maximum(t);
        assert(forall|i: int| 0 <= i < t.len() ==> #[trigger] t[i] == s[i]);
        assert forall|i: int| 0 <= i < s.len() implies #[trigger] s[i] <= seq_max(s) by {
            if i < t.len() {
                assert(t[i] <= seq_max(t));
            }
        }
        if s.last() > seq_max(t) || t.len() == 0 {
            assert(s[s.len() - 1] == seq_max(s));
        } else {
            let i = choose|i: int| 0 <= i < t.len() && #[trigger] t[i] == seq_max(t);
            assert(s[i] == seq_max(s));
        }
    }
}

/// The sum of the empty sequence is zero and that of a single value is the value;
/// with [`lemma_sum_concat`], sums of consecutive parts add up.
pub proof fn lemma_sum_base(x: i64)
    ensures
        seq_sum(Seq::<i64>::empty()) == 0,
        seq_sum(seq![x]) == x,
{
    assert(seq![x].drop_last() =~= Seq::<i64>::empty());
    assert(seq![x].last() == x);
}

proof fn lemma_count_evens_concat(a: Seq<i64>, b: Seq<i64>)
    ensures
        count_evens(a + b) == count_evens(a) + count_evens(b),
    decreases b.len(),
{
    if b.len() == 0 {
        assert(a + b =~= a);
    } else {
        assert((a + b).drop_last() =~= a + b.drop_last());
        lemma_count_evens_concat(a, b.drop_last());
    }
}

/// The even values: none in the empty sequence; one for an even value and none
/// for an odd one (negative values included); and those of two consecutive
/// parts add up.
pub proof fn lemma_count_evens_laws(a: Seq<i64>, b: Seq<i64>, x: i64)
    ensures
        count_evens(Seq::<i64>::empty()) == 0,
        count_evens(seq![x]) == if x % 2 == 0 { 1nat } else { 0nat },
        count_evens(a + b) == count_evens(a) + count_evens(b),
{
    let one = seq![x];
    assert(one.drop_last() =~= Seq::<i64>::empty());
    assert(one.last() == x);
    assert(count_evens(one) == count_evens(one.drop_last()) + if one.last() % 2 == 0 {
        1nat
    } else {
        0nat
    });
    lemma_count_evens_concat(a, b);
}

} // verus!
