//! Order statistics of measured values.
use vstd::prelude::*;

use crate::sort::{
    law_counting_is_filtering, lemma_count_before, lemma_permuted_contains, lemma_sum_permuted,
    ordered, permuted, sorted, Ranked,
};

verus! {

impl Ranked for u64 {
    open spec fn leq(a: u64, b: u64) -> bool {
        a <= b
    }

    proof fn total_order() {
    }

    fn is_leq(&self, other: &u64) -> (r: bool) {
        *self <= *other
    }
}

/// The values in ascending order.
pub open spec fn in_order(values: Seq<u64>) -> Seq<u64> {
    values.sort_by(|a: u64, b: u64| a <= b)
}

proof fn lemma_in_order(values: Seq<u64>, out: Seq<u64>)
    requires
        ordered(out),
        permuted(out, values),
    ensures
        out == in_order(values),
        out.len() == values.len(),
{
    let leq = |a: u64, b: u64| a <= b;
    values.lemma_sort_by_ensures(leq);
    assert(vstd::relations::sorted_by(out, leq)) by {
        assert forall|i: int, j: int| 0 <= i < j < out.len() implies #[trigger] leq(
            out[i],
            out[j],
        ) by {
            assert(u64::leq(out[i], out[j]));
        }
    }
    vstd::seq_lib::lemma_sorted_unique(out, values.sort_by(leq), leq);
    lemma_permuted_contains(out, values);
}

/// Place of a percentile among `n` ordered values: `p n / 100` rounded up,
/// counted from one.
pub open spec fn percentile_place(n: int, p: int) -> int {
    let k = (n * p + 99) / 100;
    if k < 1 {
        1
    } else if k > n {
        n
    } else {
        k
    }
}

/// A percentile of the values; zero where there are none.
pub open spec fn percentile_of(values: Seq<u64>, p: int) -> u64 {
    if values.len() == 0 {
        0
    } else {
        in_order(values)[percentile_place(values.len() as int, p) - 1]
    }
}

/// A percentile of the values; zero where there are none.
pub fn percentile(values: &Vec<u64>, p: u8) -> (v: u64)
    ensures
        v == percentile_of(values@, p as int),
{
    let out: Vec<u64> = sorted(values);
    proof {
        lemma_in_order(values@, out@);
    }
    let n: usize = out.len();
    if n == 0 {
        return 0;
    }
    assert(n * p <= 0xffff_ffff_ffff_ffff * 0xff) by (nonlinear_arith)
        requires
            n <= 0xffff_ffff_ffff_ffff,
            p <= 0xff,
    ;
    assert(n * p >= 0) by (nonlinear_arith)
        requires
            n >= 0,
            p >= 0,
    ;
    let k: u128 = (n as u128 * p as u128 + 99) / 100;
    let place: usize = if k < 1 {
        1
    } else if k > n as u128 {
        n
    } else {
        k as usize
    };
    out[place - 1]
}

/// The middle one of the ordered values, the upper of two; zero where there
/// are none.
pub open spec fn median_of(values: Seq<u64>) -> u64 {
    if values.len() == 0 {
        0
    } else {
        in_order(values)[values.len() as int / 2]
    }
}

/// The middle one of the ordered values.
pub fn median(values: &Vec<u64>) -> (v: u64)
    ensures
        v == median_of(values@),
{
    let out: Vec<u64> = sorted(values);
    proof {
        lemma_in_order(values@, out@);
    }
    if out.len() == 0 {
        0
    } else {
        out[out.len() / 2]
    }
}

/// The largest value; zero where there are none.
pub open spec fn largest_of(values: Seq<u64>) -> u64
    decreases values.len(),
{
    if values.len() == 0 {
        0
    } else if values.last() >= largest_of(values.drop_last()) {
        values.last()
    } else {
        largest_of(values.drop_last())
    }
}

/// The largest value.
pub fn largest(values: &Vec<u64>) -> (v: u64)
    ensures
        v == largest_of(values@),
{
    let mut v: u64 = 0;
    let mut i: usize = 0;
    assert(values@.take(0) =~= Seq::<u64>::empty());
    while i < values.len()
        invariant
            i <= values.len(),
            v == largest_of(values@.take(i as int)),
        decreases values.len() - i,
    {
        assert(values@.take(i + 1).drop_last() =~= values@.take(i as int));
        if values[i] >= v {
            v = values[i];
        }
        i = i + 1;
    }
    assert(values@.take(i as int) =~= values@);
    v
}

/// Sum of the values.
pub open spec fn sum_of(values: Seq<u64>) -> int
    decreases values.len(),
{
    if values.len() == 0 {
        0
    } else {
        sum_of(values.drop_last()) + values.last()
    }
}

/// Sum of the values: with their number it gives their mean.
pub fn sum(values: &Vec<u64>) -> (s: u128)
    ensures
        s == sum_of(values@),
{
    let mut s: u128 = 0;
    let mut i: usize = 0;
    assert(values@.take(0) =~= Seq::<u64>::empty());
    while i < values.len()
        invariant
            i <= values.len(),
            s == sum_of(values@.take(i as int)),
            s <= i * 0xffff_ffff_ffff_ffff,
        decreases values.len() - i,
    {
        assert(values@.take(i + 1).drop_last() =~= values@.take(i as int));
        assert(i * 0xffff_ffff_ffff_ffff + 0xffff_ffff_ffff_ffff <= 0xffff_ffff_ffff_ffff
            * 0xffff_ffff_ffff_ffff) by (nonlinear_arith)
            requires
                i + 1 <= 0xffff_ffff_ffff_ffff,
        ;
        assert((i + 1) * 0xffff_ffff_ffff_ffff == i * 0xffff_ffff_ffff_ffff
            + 0xffff_ffff_ffff_ffff) by (nonlinear_arith);
        s = s + values[i] as u128;
        i = i + 1;
    }
    assert(values@.take(i as int) =~= values@);
    s
}

/// A percentile is one of the values, and at least `p` of a hundred values
/// are not above it.
pub proof fn law_percentile_covers(values: Seq<u64>, p: int)
    requires
        0 <= p <= 100,
        values.len() > 0,
    ensures
        values.contains(percentile_of(values, p)),
        percentile_place(values.len() as int, p) * 100 >= values.len() * p,
        forall|i: int|
            0 <= i < percentile_place(values.len() as int, p) ==> #[trigger] in_order(values)[i]
                <= percentile_of(values, p),
{
    let leq = |a: u64, b: u64| a <= b;
    values.lemma_sort_by_ensures(leq);
    let up = in_order(values);
    lemma_permuted_contains(up, values);
    let n = values.len() as int;
    let k = percentile_place(n, p);
    assert(n * p <= n * 100) by (nonlinear_arith)
        requires
            n >= 0,
            p <= 100,
    ;
    assert(n * p >= 0) by (nonlinear_arith)
        requires
            n >= 0,
            p >= 0,
    ;
    assert(up.contains(up[k - 1]));
    assert forall|i: int| 0 <= i < k implies #[trigger] up[i] <= up[k - 1] by {
        if i < k - 1 {
            assert(leq(up[i], up[k - 1]));
        }
    }
}

/// How many of the values are below a bound, and how many not above it.
pub open spec fn below(values: Seq<u64>, v: int) -> nat {
    values.filter(|x: u64| x < v).len()
}

/// In ascending order, what stands before a place is counted by it.
proof fn lemma_place(values: Seq<u64>, k: int)
    requires
        0 <= k < values.len(),
    ensures
        in_order(values).len() == values.len(),
        values.contains(in_order(values)[k]),
        below(values, in_order(values)[k] as int) <= k,
        below(values, in_order(values)[k] + 1) >= k + 1,
{
    let leq = |a: u64, b: u64| a <= b;
    values.lemma_sort_by_ensures(leq);
    let s = in_order(values);
    assert(permuted(s, values));
    lemma_permuted_contains(s, values);
    let v = s[k];
    assert(s.contains(v));
    let less = |x: u64| x < v as int;
    let upto = |x: u64| x < v + 1;
    assert forall|i: int| k <= i < s.len() implies !less(#[trigger] s[i]) by {
        if k < i {
            assert(leq(s[k], s[i]));
        }
    }
    assert forall|i: int| 0 <= i < k + 1 implies upto(#[trigger] s[i]) by {
        if i < k {
            assert(leq(s[i], s[k]));
        }
    }
    let one = |x: u64| 1nat;
    lemma_sum_permuted(s, values, less, one);
    lemma_sum_permuted(s, values, upto, one);
    lemma_count_before(s, less, k);
    lemma_count_before(s, upto, k + 1);
    law_counting_is_filtering(values, less);
    law_counting_is_filtering(values, upto);
}

/// A percentile is the smallest of the values that `p` of a hundred do not
/// exceed.
pub proof fn law_percentile_is_the_smallest(values: Seq<u64>, p: int)
    requires
        0 <= p <= 100,
        values.len() > 0,
    ensures
        ({
            let v = percentile_of(values, p);
            &&& values.contains(v)
            &&& 100 * below(values, v + 1) >= values.len() * p
            &&& below(values, v as int) == 0 || 100 * below(values, v as int) < values.len() * p
        }),
        percentile_of(Seq::<u64>::empty(), p) == 0,
{
    let n = values.len() as int;
    let k = percentile_place(n, p);
    assert(0 <= n * p <= n * 100) by (nonlinear_arith)
        requires
            n >= 0,
            0 <= p <= 100,
    ;
    lemma_place(values, k - 1);
}

/// A median is one of the values; at most half are below it, and more than
/// half not above.
pub proof fn law_median_is_in_the_middle(values: Seq<u64>)
    requires
        values.len() > 0,
    ensures
        values.contains(median_of(values)),
        2 * below(values, median_of(values) as int) <= values.len(),
        2 * below(values, median_of(values) + 1) > values.len(),
        median_of(Seq::<u64>::empty()) == 0,
{
    lemma_place(values, values.len() as int / 2);
}

/// The largest value is one of them, and none is larger; the sum grows by
/// every value.
pub proof fn law_largest_and_sum(values: Seq<u64>, x: u64)
    ensures
        forall|i: int| 0 <= i < values.len() ==> #[trigger] values[i] <= largest_of(values),
        values.len() > 0 ==> values.contains(largest_of(values)),
        largest_of(Seq::<u64>::empty()) == 0,
        sum_of(Seq::<u64>::empty()) == 0,
        sum_of(values.push(x)) == sum_of(values) + x,
    decreases values.len(),
{
    assert(values.push(x).drop_last() =~= values);
    if values.len() > 0 {
        let r = values.drop_last();
        law_largest_and_sum(r, x);
        assert forall|i: int| 0 <= i < values.len() implies #[trigger] values[i] <= largest_of(
            values,
        ) by {
            if i < r.len() {
                assert(r[i] == values[i]);
            }
        }
        assert(values[values.len() - 1] == values.last());
        if r.len() > 0 {
            let k = r.index_of(largest_of(r));
            assert(values[k] == r[k]);
        }
    }
}

} // verus!
