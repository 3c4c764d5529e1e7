//! Sorting of copyable records by a total order, and sums over sequences that
//! do not depend on the order of their elements.
use vstd::prelude::*;
use vstd::seq_lib::lemma_multiset_commutative;

verus! {

/// A record with a total order.
pub trait Ranked: Copy {
    /// `a` may stand before `b`.
    spec fn leq(a: Self, b: Self) -> bool;

    /// The order is total, antisymmetric and transitive.
    proof fn total_order()
        ensures
            forall|a: Self, b: Self| #[trigger] Self::leq(a, b) || Self::leq(b, a),
            forall|a: Self, b: Self| #[trigger]
                Self::leq(a, b) && #[trigger] Self::leq(b, a) ==> a == b,
            forall|a: Self, b: Self, c: Self| #[trigger]
                Self::leq(a, b) && #[trigger] Self::leq(b, c) ==> Self::leq(a, c),
    ;

    fn is_leq(&self, other: &Self) -> (r: bool)
        ensures
            r == Self::leq(*self, *other),
    ;
}

/// Every element may stand before every later one.
pub open spec fn ordered<T: Ranked>(s: Seq<T>) -> bool {
    forall|i: int, j: int| 0 <= i < j < s.len() ==> #[trigger] T::leq(s[i], s[j])
}

/// Same elements, each as often.
pub open spec fn permuted<T>(a: Seq<T>, b: Seq<T>) -> bool {
    a.to_multiset() == b.to_multiset()
}

/// Adding one element to a permutation of `a + b`, and to `a` or to `b`.
proof fn lemma_permuted_step<T>(s: Seq<T>, a: Seq<T>, b: Seq<T>, x: T)
    requires
        permuted(s, a + b),
    ensures
        permuted(s.push(x), a.push(x) + b),
        permuted(s.push(x), a + b.push(x)),
{
    s.to_multiset_ensures();
    a.to_multiset_ensures();
    b.to_multiset_ensures();
    lemma_multiset_commutative(a, b);
    lemma_multiset_commutative(a.push(x), b);
    lemma_multiset_commutative(a, b.push(x));
    assert(s.push(x).to_multiset() =~= (a.push(x) + b).to_multiset());
    assert(s.push(x).to_multiset() =~= (a + b.push(x)).to_multiset());
}

fn merge<T: Ranked>(a: &Vec<T>, b: &Vec<T>) -> (out: Vec<T>)
    requires
        ordered(a@),
        ordered(b@),
    ensures
        ordered(out@),
        permuted(out@, a@ + b@),
{
    let mut out: Vec<T> = Vec::new();
    let mut i: usize = 0;
    let mut j: usize = 0;
    proof {
        T::total_order();
        assert(out@ =~= a@.take(0) + b@.take(0));
    }
    while i < a.len() || j < b.len()
        invariant
            i <= a.len(),
            j <= b.len(),
            ordered(a@),
            ordered(b@),
            ordered(out@),
            permuted(out@, a@.take(i as int) + b@.take(j as int)),
            forall|k: int, l: int|
                0 <= k < out.len() && i <= l < a.len() ==> #[trigger] T::leq(out[k], a[l]),
            forall|k: int, l: int|
                0 <= k < out.len() && j <= l < b.len() ==> #[trigger] T::leq(out[k], b[l]),
        decreases a.len() - i + b.len() - j,
    {
        let ghost before = out@;
        proof {
            T::total_order();
        }
        if j >= b.len() || (i < a.len() && a[i].is_leq(&b[j])) {
            out.push(a[i]);
            proof {
                assert(a@.take(i + 1) =~= a@.take(i as int).push(a[i as int]));
                lemma_permuted_step(before, a@.take(i as int), b@.take(j as int), a[i as int]);
                assert forall|l: int| i + 1 <= l < a.len() implies #[trigger] T::leq(
                    a[i as int],
                    a[l],
                ) by {}
                assert forall|l: int| j <= l < b.len() implies #[trigger] T::leq(
                    a[i as int],
                    b[l],
                ) by {
                    if l > j {
                        assert(T::leq(b[j as int], b[l]));
                    }
                }
            }
            i = i + 1;
        } else {
            out.push(b[j]);
            proof {
                assert(b@.take(j + 1) =~= b@.take(j as int).push(b[j as int]));
                lemma_permuted_step(before, a@.take(i as int), b@.take(j as int), b[j as int]);
                assert forall|l: int| j + 1 <= l < b.len() implies #[trigger] T::leq(
                    b[j as int],
                    b[l],
                ) by {}
                assert forall|l: int| i <= l < a.len() implies #[trigger] T::leq(
                    b[j as int],
                    a[l],
                ) by {
                    assert(T::leq(b[j as int], a[i as int]));
                    if l > i {
                        assert(T::leq(a[i as int], a[l]));
                    }
                }
            }
            j = j + 1;
        }
        proof {
            assert forall|k: int, l: int| 0 <= k < l < out.len() implies #[trigger] T::leq(
                out[k],
                out[l],
            ) by {
                if l < before.len() {
                    assert(T::leq(before[k], before[l]));
                }
            }
        }
    }
    proof {
        assert(a@.take(i as int) =~= a@);
        assert(b@.take(j as int) =~= b@);
    }
    out
}

/// The elements of `v`, ordered.
pub fn sorted<T: Ranked>(v: &[T]) -> (out: Vec<T>)
    ensures
        ordered(out@),
        permuted(out@, v@),
    decreases v.len(),
{
    let n: usize = v.len();
    if n <= 1 {
        let mut out: Vec<T> = Vec::new();
        if n == 1 {
            out.push(v[0]);
        }
        assert(out@ =~= v@);
        out
    } else {
        let mid: usize = n / 2;
        let left: Vec<T> = sorted(&v[0..mid]);
        let right: Vec<T> = sorted(&v[mid..n]);
        let out: Vec<T> = merge(&left, &right);
        proof {
            let l = v@.subrange(0, mid as int);
            let r = v@.subrange(mid as int, n as int);
            assert(v@ =~= l + r);
            lemma_multiset_commutative(l, r);
            lemma_multiset_commutative(left@, right@);
        }
        out
    }
}

/// A permutation keeps the length and the elements.
pub proof fn lemma_permuted_contains<T>(a: Seq<T>, b: Seq<T>)
    requires
        permuted(a, b),
    ensures
        a.len() == b.len(),
        forall|x: T| a.contains(x) <==> b.contains(x),
{
    broadcast use vstd::seq_lib::group_to_multiset_ensures;

    assert(a.to_multiset().len() == b.to_multiset().len());
    assert forall|x: T| a.contains(x) <==> b.contains(x) by {
        assert(a.contains(x) <==> a.to_multiset().count(x) > 0);
        assert(b.contains(x) <==> b.to_multiset().count(x) > 0);
    }
}

/// Sum of `f` over the elements that satisfy `p`.
pub open spec fn sum_where<T>(s: Seq<T>, p: spec_fn(T) -> bool, f: spec_fn(T) -> nat) -> nat
    decreases s.len(),
{
    if s.len() == 0 {
        0
    } else {
        sum_where(s.drop_last(), p, f) + if p(s.last()) {
            f(s.last())
        } else {
            0
        }
    }
}

/// Number of elements that satisfy `p`.
pub open spec fn count_where<T>(s: Seq<T>, p: spec_fn(T) -> bool) -> nat {
    sum_where(s, p, |x: T| 1)
}

pub proof fn lemma_sum_push<T>(s: Seq<T>, x: T, p: spec_fn(T) -> bool, f: spec_fn(T) -> nat)
    ensures
        sum_where(s.push(x), p, f) == sum_where(s, p, f) + if p(x) {
            f(x)
        } else {
            0
        },
{
    assert(s.push(x).drop_last() =~= s);
}

pub proof fn lemma_sum_concat<T>(
    a: Seq<T>,
    b: Seq<T>,
    p: spec_fn(T) -> bool,
    f: spec_fn(T) -> nat,
)
    ensures
        sum_where(a + b, p, f) == sum_where(a, p, f) + sum_where(b, p, f),
    decreases b.len(),
{
    if b.len() == 0 {
        assert(a + b =~= a);
    } else {
        assert((a + b).drop_last() =~= a + b.drop_last());
        lemma_sum_concat(a, b.drop_last(), p, f);
    }
}

/// A sum does not depend on the order of the elements.
pub proof fn lemma_sum_permuted<T>(
    a: Seq<T>,
    b: Seq<T>,
    p: spec_fn(T) -> bool,
    f: spec_fn(T) -> nat,
)
    requires
        permuted(a, b),
    ensures
        sum_where(a, p, f) == sum_where(b, p, f),
    decreases a.len(),
{
    broadcast use vstd::seq_lib::group_to_multiset_ensures;

    lemma_permuted_contains(a, b);
    if a.len() > 0 {
        let x = a.last();
        assert(a.contains(x));
        let i = b.index_of(x);
        let left = b.subrange(0, i);
        let right = b.subrange(i + 1, b.len() as int);
        assert(b =~= left.push(x) + right);
        assert(b.remove(i) =~= left + right);
        assert(a.remove(a.len() - 1) =~= a.drop_last());
        assert(permuted(a.drop_last(), b.remove(i)));
        lemma_sum_permuted(a.drop_last(), b.remove(i), p, f);
        lemma_sum_concat(left.push(x), right, p, f);
        lemma_sum_concat(left, right, p, f);
        lemma_sum_push(left, x, p, f);
    } else {
        assert(b =~= a);
    }
}

/// Where no element satisfies `p`, the sum is zero.
pub proof fn lemma_sum_none<T>(s: Seq<T>, p: spec_fn(T) -> bool, f: spec_fn(T) -> nat)
    requires
        forall|i: int| 0 <= i < s.len() ==> !p(#[trigger] s[i]),
    ensures
        sum_where(s, p, f) == 0,
    decreases s.len(),
{
    if s.len() > 0 {
        assert(!p(s[s.len() - 1]));
        assert forall|i: int| 0 <= i < s.drop_last().len() implies !p(
            #[trigger] s.drop_last()[i],
        ) by {
            assert(s.drop_last()[i] == s[i]);
        }
        lemma_sum_none(s.drop_last(), p, f);
    }
}

/// Two predicates that agree on the elements give the same sum.
pub proof fn lemma_sum_agree<T>(
    s: Seq<T>,
    p: spec_fn(T) -> bool,
    q: spec_fn(T) -> bool,
    f: spec_fn(T) -> nat,
)
    requires
        forall|i: int| 0 <= i < s.len() ==> p(#[trigger] s[i]) == q(s[i]),
    ensures
        sum_where(s, p, f) == sum_where(s, q, f),
    decreases s.len(),
{
    if s.len() > 0 {
        assert(p(s[s.len() - 1]) == q(s[s.len() - 1]));
        assert forall|i: int| 0 <= i < s.drop_last().len() implies p(#[trigger] s.drop_last()[i])
            == q(s.drop_last()[i]) by {
            assert(s.drop_last()[i] == s[i]);
        }
        lemma_sum_agree(s.drop_last(), p, q, f);
    }
}

/// Where the elements that satisfy `p` all stand in `lo..hi`, the sum is the
/// sum over that range.
pub proof fn lemma_sum_range<T>(
    s: Seq<T>,
    lo: int,
    hi: int,
    p: spec_fn(T) -> bool,
    f: spec_fn(T) -> nat,
)
    requires
        0 <= lo <= hi <= s.len(),
        forall|i: int| 0 <= i < s.len() && p(#[trigger] s[i]) ==> lo <= i < hi,
    ensures
        sum_where(s, p, f) == sum_where(s.subrange(lo, hi), p, f),
{
    let a = s.subrange(0, lo);
    let b = s.subrange(lo, hi);
    let c = s.subrange(hi, s.len() as int);
    assert(s =~= a + b + c);
    lemma_sum_concat(a + b, c, p, f);
    lemma_sum_concat(a, b, p, f);
    lemma_sum_none(a, p, f);
    lemma_sum_none(c, p, f);
}

/// A sum over some elements is at most the sum over more of them.
pub proof fn lemma_sum_monotone<T>(
    s: Seq<T>,
    p: spec_fn(T) -> bool,
    q: spec_fn(T) -> bool,
    f: spec_fn(T) -> nat,
)
    requires
        forall|i: int| 0 <= i < s.len() && p(#[trigger] s[i]) ==> q(s[i]),
    ensures
        sum_where(s, p, f) <= sum_where(s, q, f),
    decreases s.len(),
{
    if s.len() > 0 {
        assert(p(s[s.len() - 1]) ==> q(s[s.len() - 1]));
        assert forall|i: int| 0 <= i < s.drop_last().len() && p(
            #[trigger] s.drop_last()[i],
        ) implies q(s.drop_last()[i]) by {
            assert(s.drop_last()[i] == s[i]);
        }
        lemma_sum_monotone(s.drop_last(), p, q, f);
    }
}

/// The number of elements that pass a test is the length of what the test
/// leaves.
pub proof fn law_counting_is_filtering<T>(s: Seq<T>, p: spec_fn(T) -> bool)
    ensures
        count_where(s, p) == s.filter(p).len(),
    decreases s.len(),
{
    reveal(Seq::filter);
    if s.len() > 0 {
        law_counting_is_filtering(s.drop_last(), p);
    }
}

/// Where no element from `k` on passes a test, at most `k` do; where all
/// before `k` pass, at least `k` do.
pub proof fn lemma_count_before<T>(s: Seq<T>, p: spec_fn(T) -> bool, k: int)
    requires
        0 <= k <= s.len(),
    ensures
        (forall|i: int| k <= i < s.len() ==> !p(#[trigger] s[i])) ==> count_where(s, p) <= k,
        (forall|i: int| 0 <= i < k ==> p(#[trigger] s[i])) ==> count_where(s, p) >= k,
    decreases s.len(),
{
    if s.len() > 0 {
        let r = s.drop_last();
        assert forall|i: int| 0 <= i < r.len() implies #[trigger] r[i] == s[i] by {}
        if k == s.len() {
            lemma_count_before(r, p, k - 1);
            assert(s[k - 1] == s.last());
        } else {
            lemma_count_before(r, p, k);
            assert(s[s.len() - 1] == s.last());
        }
    }
}

/// A sum is over what the test leaves, and adds up element by element.
pub proof fn law_sums_add_up<T>(
    s: Seq<T>,
    x: T,
    p: spec_fn(T) -> bool,
    f: spec_fn(T) -> nat,
)
    ensures
        sum_where(Seq::<T>::empty(), p, f) == 0,
        p(x) ==> sum_where(s.push(x), p, f) == sum_where(s, p, f) + f(x),
        !p(x) ==> sum_where(s.push(x), p, f) == sum_where(s, p, f),
{
    assert(s.push(x).drop_last() =~= s);
}

} // verus!
