//! Large natural numbers: just enough to compare powers exactly.
use vstd::arithmetic::power::pow;
use vstd::prelude::*;

verus! {

/// `2^(64 n)`.
pub open spec fn word_power(n: nat) -> nat
    decreases n,
{
    if n == 0 {
        1
    } else {
        0x1_0000_0000_0000_0000 * word_power((n - 1) as nat)
    }
}

/// The number that words stand for, least significant first.
pub open spec fn number(v: Seq<u64>) -> nat
    decreases v.len(),
{
    if v.len() == 0 {
        0
    } else {
        number(v.drop_last()) + v.last() as nat * word_power((v.len() - 1) as nat)
    }
}

/// No leading zeros.
pub open spec fn is_normal(v: Seq<u64>) -> bool {
    v.len() > 0 && v.last() != 0
}

proof fn lemma_number_bounds(v: Seq<u64>)
    ensures
        number(v) < word_power(v.len()),
        is_normal(v) ==> number(v) >= word_power((v.len() - 1) as nat),
    decreases v.len(),
{
    if v.len() > 0 {
        lemma_number_bounds(v.drop_last());
        let w = word_power((v.len() - 1) as nat);
        let x = v.last() as nat;
        assert(x * w + w <= 0x1_0000_0000_0000_0000 * w) by (nonlinear_arith)
            requires
                x <= 0xffff_ffff_ffff_ffff,
        ;
        if x > 0 {
            assert(x * w >= w) by (nonlinear_arith)
                requires
                    x >= 1,
            ;
        }
    }
}

proof fn lemma_word_power_monotone(a: nat, b: nat)
    requires
        a <= b,
    ensures
        word_power(a) <= word_power(b),
        word_power(a) >= 1,
    decreases b,
{
    if a < b {
        lemma_word_power_monotone(a, (b - 1) as nat);
    } else if a > 0 {
        lemma_word_power_monotone((a - 1) as nat, (b - 1) as nat);
    }
}

/// Multiply in place by a non-zero word.
pub(crate) fn multiply(v: &mut Vec<u64>, k: u64)
    requires
        is_normal(old(v)@),
        k > 0,
    ensures
        is_normal(final(v)@),
        number(final(v)@) == k * number(old(v)@),
{
    let ghost start = v@;
    let n: usize = v.len();
    let mut carry: u64 = 0;
    let mut i: usize = 0;
    assert(v@.take(0) =~= Seq::<u64>::empty());
    assert(start.take(0) =~= Seq::<u64>::empty());
    assert(number(v@.take(0)) + 0 * word_power(0) == k * number(start.take(0))) by {
        assert(number(start.take(0)) == 0);
        assert(word_power(0) == 1);
        assert(k * 0 == 0) by (nonlinear_arith);
    }
    while i < n
        invariant
            i <= n,
            n == start.len(),
            v.len() == n,
            is_normal(start),
            k > 0,
            forall|j: int| i <= j < n ==> #[trigger] v[j] == start[j],
            number(v@.take(i as int)) + carry * word_power(i as nat) == k * number(
                start.take(i as int),
            ),
            i == n && carry == 0 ==> v@.last() != 0,
        decreases n - i,
    {
        let x: u64 = v[i];
        proof {
            assert(x as nat * k as nat + carry <= 0xffff_ffff_ffff_ffff * 0xffff_ffff_ffff_ffff
                + 0xffff_ffff_ffff_ffff) by (nonlinear_arith)
                requires
                    x <= 0xffff_ffff_ffff_ffff,
                    k <= 0xffff_ffff_ffff_ffff,
                    carry <= 0xffff_ffff_ffff_ffff,
            ;
        }
        let t: u128 = x as u128 * k as u128 + carry as u128;
        let low: u64 = (t % 0x1_0000_0000_0000_0000) as u64;
        let high: u64 = (t / 0x1_0000_0000_0000_0000) as u64;
        let ghost before = v@;
        v.set(i, low);
        proof {
            let w = word_power(i as nat) as int;
            let base: int = 0x1_0000_0000_0000_0000;
            let done = number(before.take(i as int)) as int;
            let src = number(start.take(i as int)) as int;
            assert(v@.take(i + 1).drop_last() =~= before.take(i as int));
            assert(start.take(i + 1).drop_last() =~= start.take(i as int));
            assert(word_power((i + 1) as nat) == base * w);
            assert(done + low * w + high * (base * w) == k * (src + x * w)) by (nonlinear_arith)
                requires
                    done + carry * w == k * src,
                    low + high * base == x * k + carry,
            ;
            if i + 1 == n && high == 0 {
                assert(x * k >= 1) by (nonlinear_arith)
                    requires
                        x >= 1,
                        k >= 1,
                ;
                assert(low != 0);
            }
        }
        carry = high;
        i = i + 1;
    }
    assert(v@.take(n as int) =~= v@);
    assert(start.take(n as int) =~= start);
    if carry != 0 {
        let ghost before = v@;
        v.push(carry);
        assert(v@.drop_last() =~= before);
    }
}

/// Where the words from `i` on agree, so do the numbers above them.
proof fn lemma_high_words(a: Seq<u64>, b: Seq<u64>, i: int)
    requires
        a.len() == b.len(),
        0 <= i <= a.len(),
        forall|j: int| i <= j < a.len() ==> #[trigger] a[j] == b[j],
    ensures
        number(a) - number(a.take(i)) == number(b) - number(b.take(i)),
    decreases a.len(),
{
    if i == a.len() {
        assert(a.take(i) =~= a);
        assert(b.take(i) =~= b);
    } else {
        let (x, y) = (a.drop_last(), b.drop_last());
        assert(x.take(i) =~= a.take(i));
        assert(y.take(i) =~= b.take(i));
        assert(a[a.len() - 1] == b[b.len() - 1]);
        lemma_high_words(x, y, i);
    }
}

/// Compare two numbers.
pub(crate) fn at_least(a: &Vec<u64>, b: &Vec<u64>) -> (r: bool)
    requires
        is_normal(a@),
        is_normal(b@),
    ensures
        r == (number(a@) >= number(b@)),
{
    proof {
        lemma_number_bounds(a@);
        lemma_number_bounds(b@);
    }
    if a.len() != b.len() {
        proof {
            if a.len() > b.len() {
                lemma_word_power_monotone(b.len() as nat, (a.len() - 1) as nat);
            } else {
                lemma_word_power_monotone(a.len() as nat, (b.len() - 1) as nat);
            }
        }
        return a.len() > b.len();
    }
    let mut i: usize = a.len();
    while i > 0
        invariant
            i <= a.len(),
            a.len() == b.len(),
            forall|j: int| i <= j < a.len() ==> #[trigger] a[j] == b[j],
        decreases i,
    {
        let x: u64 = a[i - 1];
        let y: u64 = b[i - 1];
        if x != y {
            proof {
                lemma_high_words(a@, b@, i as int);
                let (p, q) = (a@.take(i as int), b@.take(i as int));
                lemma_number_bounds(p.drop_last());
                lemma_number_bounds(q.drop_last());
                let w = word_power((i - 1) as nat) as int;
                if x > y {
                    assert(x * w >= y * w + w) by (nonlinear_arith)
                        requires
                            x >= y + 1,
                            w >= 0,
                    ;
                } else {
                    assert(y * w >= x * w + w) by (nonlinear_arith)
                        requires
                            y >= x + 1,
                            w >= 0,
                    ;
                }
            }
            return x > y;
        }
        i = i - 1;
    }
    proof {
        lemma_high_words(a@, b@, 0);
        assert(a@.take(0) =~= b@.take(0));
    }
    true
}

/// `base^e`.
pub(crate) fn power(base: u64, e: u16) -> (v: Vec<u64>)
    requires
        base > 0,
    ensures
        is_normal(v@),
        number(v@) == pow(base as int, e as nat),
{
    let mut v: Vec<u64> = Vec::new();
    v.push(1);
    let mut i: u16 = 0;
    proof {
        reveal(pow);
        assert(v@.drop_last() =~= Seq::<u64>::empty());
        assert(number(v@) == 1) by {
            reveal_with_fuel(number, 2);
        }
    }
    while i < e
        invariant
            i <= e,
            base > 0,
            is_normal(v@),
            number(v@) == pow(base as int, i as nat),
        decreases e - i,
    {
        multiply(&mut v, base);
        proof {
            reveal(pow);
        }
        i = i + 1;
    }
    v
}

pub proof fn lemma_pow_nonnegative(b: int, e: nat)
    requires
        b >= 0,
    ensures
        pow(b, e) >= 0,
    decreases e,
{
    reveal(pow);
    if e > 0 {
        lemma_pow_nonnegative(b, (e - 1) as nat);
        let p = pow(b, (e - 1) as nat);
        assert(b * p >= 0) by (nonlinear_arith)
            requires
                b >= 0,
                p >= 0,
        ;
    }
}

pub proof fn lemma_pow_base_monotone(a: int, b: int, e: nat)
    requires
        0 <= a <= b,
    ensures
        pow(a, e) <= pow(b, e),
    decreases e,
{
    reveal(pow);
    if e > 0 {
        let m = (e - 1) as nat;
        lemma_pow_base_monotone(a, b, m);
        lemma_pow_nonnegative(a, m);
        lemma_pow_nonnegative(b, m);
        let (x, y) = (pow(a, m), pow(b, m));
        assert(a * x <= b * y) by (nonlinear_arith)
            requires
                0 <= a <= b,
                0 <= x <= y,
        ;
    }
}

/// A number is the sum of its words, each counting 2^64 times the one before.
pub proof fn law_words_count_by_place(v: Seq<u64>, w: u64, n: nat)
    ensures
        number(Seq::<u64>::empty()) == 0,
        number(v.push(w)) == number(v) + w * word_power(v.len()),
        word_power(0) == 1,
        word_power(n + 1) == 18_446_744_073_709_551_616 * word_power(n),
{
    assert(v.push(w).drop_last() =~= v);
}

} // verus!
