//! Logarithmic frequency bands.
//!
//! Bin `b` of `total` bins lies at the fraction `f = (b + 1/2) / total` of the
//! spectrum. Over `N = max(total - 1, 2)` it maps to the band
//! `floor(bands * log(f * N) / log(N))`, clipped to the bands there are. The
//! logarithms are never computed: that band `k` is reached means
//! `(f * N)^bands >= N^k`, which large integers decide exactly.
use vstd::arithmetic::power::pow;
use vstd::prelude::*;

use crate::bignum::{
    at_least, is_normal, lemma_pow_base_monotone, lemma_pow_nonnegative, multiply, number, power,
};

verus! {

/// `max(total - 1, 2)`.
pub open spec fn span(total_bins: usize) -> int {
    if total_bins >= 3 {
        total_bins - 1
    } else {
        2
    }
}

/// The fraction of the spectrum at which a bin lies, at least `10^-9`, as
/// numerator and denominator.
pub open spec fn fraction(bin: usize, total_bins: usize) -> (int, int) {
    if (2 * bin + 1) * 1_000_000_000 < 2 * total_bins {
        (1, 1_000_000_000)
    } else {
        (2 * bin + 1, 2 * total_bins as int)
    }
}

/// The bin reaches band `k`: `(f * N)^bands >= N^k`, without division.
pub open spec fn reaches(bin: usize, total_bins: usize, bands: u16, k: nat) -> bool {
    let (num, den) = fraction(bin, total_bins);
    let n = span(total_bins);
    pow(num, bands as nat) * pow(n, bands as nat) >= pow(n, k) * pow(den, bands as nat)
}

/// `band` is the highest band that the bin reaches. Bin zero and everything
/// below the first band collapse into band zero.
pub open spec fn is_band(bin: usize, total_bins: usize, bands: u16, band: u16) -> bool {
    if bin == 0 || bands == 0 {
        band == 0
    } else {
        &&& band < bands
        &&& band == 0 || reaches(bin, total_bins, bands, band as nat)
        &&& band + 1 < bands ==> !reaches(bin, total_bins, bands, (band + 1) as nat)
    }
}

/// `base^e * k^i` for `i` up to `count`.
fn ladder(start: Vec<u64>, k: u64, count: u16) -> (steps: Vec<Vec<u64>>)
    requires
        is_normal(start@),
        k > 0,
    ensures
        steps.len() == count,
        forall|i: int|
            0 <= i < count ==> is_normal((#[trigger] steps[i])@) && number(steps[i]@) == pow(
                k as int,
                i as nat,
            ) * number(start@),
{
    let mut steps: Vec<Vec<u64>> = Vec::new();
    let mut v: Vec<u64> = start;
    let mut i: u16 = 0;
    proof {
        reveal(pow);
        assert(pow(k as int, 0) * number(start@) == number(start@)) by (nonlinear_arith)
            requires
                pow(k as int, 0) == 1,
        ;
    }
    while i < count
        invariant
            i <= count,
            k > 0,
            is_normal(v@),
            number(v@) == pow(k as int, i as nat) * number(start@),
            steps.len() == i,
            forall|j: int|
                0 <= j < i ==> is_normal((#[trigger] steps[j])@) && number(steps[j]@) == pow(
                    k as int,
                    j as nat,
                ) * number(start@),
        decreases count - i,
    {
        let mut copy: Vec<u64> = Vec::new();
        let mut j: usize = 0;
        while j < v.len()
            invariant
                j <= v.len(),
                copy@ == v@.take(j as int),
            decreases v.len() - j,
        {
            copy.push(v[j]);
            assert(v@.take(j + 1) =~= v@.take(j as int).push(v[j as int]));
            j = j + 1;
        }
        assert(copy@ =~= v@);
        steps.push(copy);
        let ghost before = number(v@);
        multiply(&mut v, k);
        proof {
            reveal(pow);
            let p = pow(k as int, i as nat);
            let q = pow(k as int, (i + 1) as nat);
            let s = number(start@) as int;
            assert(k * (p * s) == q * s) by (nonlinear_arith)
                requires
                    q == k * p,
            ;
        }
        i = i + 1;
    }
    steps
}

/// `num^bands * n^bands`.
fn reach_of(num: u64, n: u64, bands: u16) -> (v: Vec<u64>)
    requires
        num > 0,
        n > 0,
    ensures
        is_normal(v@),
        number(v@) == pow(num as int, bands as nat) * pow(n as int, bands as nat),
{
    let mut v: Vec<u64> = power(num, bands);
    let ghost p = number(v@) as int;
    let mut i: u16 = 0;
    proof {
        reveal(pow);
        assert(p * pow(n as int, 0) == p) by (nonlinear_arith)
            requires
                pow(n as int, 0) == 1,
        ;
    }
    while i < bands
        invariant
            i <= bands,
            n > 0,
            is_normal(v@),
            number(v@) == p * pow(n as int, i as nat),
        decreases bands - i,
    {
        multiply(&mut v, n);
        proof {
            reveal(pow);
            let a = pow(n as int, i as nat);
            let b = pow(n as int, (i + 1) as nat);
            assert(n * (p * a) == p * b) by (nonlinear_arith)
                requires
                    b == n * a,
            ;
        }
        i = i + 1;
    }
    v
}

/// The highest step that `reach` attains, by walking up the ladder.
fn climb(reach: &Vec<u64>, steps: &Vec<Vec<u64>>, bands: u16) -> (band: u16)
    requires
        bands > 0,
        is_normal(reach@),
        steps.len() == bands,
        forall|i: int| 0 <= i < bands ==> is_normal((#[trigger] steps[i])@),
    ensures
        band < bands,
        band == 0 || number(reach@) >= number(steps[band as int]@),
        band + 1 < bands ==> number(reach@) < number(steps[band + 1]@),
{
    let mut band: u16 = 0;
    while band + 1 < bands
        invariant
            band < bands,
            bands == steps.len(),
            is_normal(reach@),
            forall|i: int| 0 <= i < bands ==> is_normal((#[trigger] steps[i])@),
            band == 0 || number(reach@) >= number(steps[band as int]@),
        decreases bands - band,
    {
        assert(is_normal(steps[band + 1]@));
        if !at_least(reach, &steps[band as usize + 1]) {
            return band;
        }
        band = band + 1;
    }
    band
}

/// Bands of all bins of a spectrum.
pub struct BandTable {
    pub total_bins: usize,
    pub bands: u16,
    pub table: Vec<u16>,
}

impl BandTable {
    /// Entry `b` is the band of bin `b`.
    pub open spec fn wf(&self) -> bool {
        &&& self.table.len() == self.total_bins
        &&& forall|b: int|
            0 <= b < self.total_bins ==> is_band(
                b as usize,
                self.total_bins,
                self.bands,
                #[trigger] self.table[b],
            )
    }

    /// Bands of a spectrum of `total_bins` bins.
    pub fn new(total_bins: usize, bands: u16) -> (t: Self)
        requires
            total_bins <= 0x1000_0000_0000_0000,
        ensures
            t.wf(),
            t.total_bins == total_bins,
            t.bands == bands,
    {
        let mut table: Vec<u16> = Vec::new();
        if total_bins == 0 {
            return BandTable { total_bins, bands, table };
        }
        let n: u64 = if total_bins >= 3 {
            total_bins as u64 - 1
        } else {
            2
        };
        let wide: Vec<Vec<u64>> = ladder(power(2 * total_bins as u64, bands), n, bands);
        let narrow: Vec<Vec<u64>> = ladder(power(1_000_000_000, bands), n, bands);
        let mut b: usize = 0;
        while b < total_bins
            invariant
                b <= total_bins,
                total_bins <= 0x1000_0000_0000_0000,
                n == span(total_bins),
                wide.len() == bands,
                narrow.len() == bands,
                forall|i: int|
                    0 <= i < bands ==> is_normal((#[trigger] wide[i])@) && number(wide[i]@) == pow(
                        n as int,
                        i as nat,
                    ) * pow(2 * total_bins as int, bands as nat),
                forall|i: int|
                    0 <= i < bands ==> is_normal((#[trigger] narrow[i])@) && number(narrow[i]@)
                        == pow(n as int, i as nat) * pow(1_000_000_000, bands as nat),
                table.len() == b,
                forall|k: int|
                    0 <= k < b ==> is_band(k as usize, total_bins, bands, #[trigger] table[k]),
            decreases total_bins - b,
        {
            let band: u16 = if b == 0 || bands == 0 {
                0
            } else if (2 * b as u128 + 1) * 1_000_000_000 < 2 * total_bins as u128 {
                climb(&reach_of(1, n, bands), &narrow, bands)
            } else {
                climb(&reach_of(2 * b as u64 + 1, n, bands), &wide, bands)
            };
            table.push(band);
            b = b + 1;
        }
        BandTable { total_bins, bands, table }
    }

    /// The band of one bin.
    pub fn band(&self, bin: usize) -> (band: u16)
        requires
            self.wf(),
            bin < self.total_bins,
        ensures
            is_band(bin, self.total_bins, self.bands, band),
            band == self.table[bin as int],
    {
        self.table[bin]
    }
}

/// Quantize a frequency bin to a log-spaced band in `0..bands`. Of a spectrum
/// without bins, every bin but zero lies in the top band.
pub fn quantize_bin(bin: usize, total_bins: usize, bands: u16) -> (band: u16)
    requires
        bin <= 0x7fff_ffff_ffff_ffff,
        total_bins <= 0x7fff_ffff_ffff_ffff,
    ensures
        is_band(bin, total_bins, bands, band),
        total_bins == 0 && bin > 0 && bands > 0 ==> band == bands - 1,
{
    if bin == 0 || bands == 0 {
        return 0;
    }
    if total_bins == 0 {
        proof {
            lemma_no_bins(bin, bands, (bands - 1) as nat);
        }
        return bands - 1;
    }
    let n: u64 = if total_bins >= 3 {
        total_bins as u64 - 1
    } else {
        2
    };
    if (2 * bin as u128 + 1) * 1_000_000_000 < 2 * total_bins as u128 {
        let steps: Vec<Vec<u64>> = ladder(power(1_000_000_000, bands), n, bands);
        climb(&reach_of(1, n, bands), &steps, bands)
    } else {
        let steps: Vec<Vec<u64>> = ladder(power(2 * total_bins as u64, bands), n, bands);
        climb(&reach_of(2 * bin as u64 + 1, n, bands), &steps, bands)
    }
}

/// Of a spectrum without bins, every band is reached.
proof fn lemma_no_bins(bin: usize, bands: u16, k: nat)
    requires
        bands > 0,
    ensures
        reaches(bin, 0, bands, k),
{
    let (num, den) = fraction(bin, 0);
    let n = span(0);
    let e = bands as nat;
    vstd::arithmetic::power::lemma0_pow(e);
    lemma_pow_nonnegative(num, e);
    lemma_pow_nonnegative(n, e);
    assert(pow(num, e) * pow(n, e) >= 0) by (nonlinear_arith)
        requires
            pow(num, e) >= 0,
            pow(n, e) >= 0,
    ;
    assert(pow(n, k) * pow(den, e) == 0) by (nonlinear_arith)
        requires
            pow(den, e) == 0,
    ;
}

/// A bin has one band.
pub proof fn law_band_is_unique(bin: usize, total_bins: usize, bands: u16, a: u16, b: u16)
    requires
        is_band(bin, total_bins, bands, a),
        is_band(bin, total_bins, bands, b),
    ensures
        a == b,
{
    if a < b {
        lemma_reaches_down(bin, total_bins, bands, (a + 1) as nat, b as nat);
    } else if b < a {
        lemma_reaches_down(bin, total_bins, bands, (b + 1) as nat, a as nat);
    }
}

/// A bin that reaches a band reaches every lower one.
proof fn lemma_reaches_down(bin: usize, total_bins: usize, bands: u16, low: nat, high: nat)
    requires
        low <= high,
        reaches(bin, total_bins, bands, high),
    ensures
        reaches(bin, total_bins, bands, low),
    decreases high - low,
{
    if low < high {
        let mid = (high - 1) as nat;
        let (num, den) = fraction(bin, total_bins);
        let n = span(total_bins);
        reveal(pow);
        let p = pow(n, mid);
        let q = pow(n, high);
        let d = pow(den, bands as nat);
        vstd::arithmetic::power::lemma_pow_positive(n, mid);
        lemma_pow_nonnegative(den, bands as nat);
        assert(p * d <= q * d) by (nonlinear_arith)
            requires
                q == n * p,
                n >= 2,
                p >= 0,
                d >= 0,
        ;
        lemma_reaches_down(bin, total_bins, bands, low, mid);
    }
}

/// Higher bins never map to lower bands.
pub proof fn law_bands_ascend(a: usize, b: usize, total_bins: usize, bands: u16, x: u16, y: u16)
    requires
        a <= b,
        is_band(a, total_bins, bands, x),
        is_band(b, total_bins, bands, y),
    ensures
        x <= y,
{
    if y < x {
        lemma_reaches_down(a, total_bins, bands, (y + 1) as nat, x as nat);
        let k = (y + 1) as nat;
        let n = span(total_bins);
        let e = bands as nat;
        let (num_a, den_a) = fraction(a, total_bins);
        let (num_b, den_b) = fraction(b, total_bins);
        if num_a == 2 * a + 1 && den_a == 2 * total_bins {
            let w = 2 * total_bins as int;
            assert((2 * a + 1) * w <= (2 * b + 1) * w) by (nonlinear_arith)
                requires
                    a <= b,
                    w >= 0,
            ;
        }
        lemma_reaches_up(num_a, den_a, num_b, den_b, n, e, k);
        assert(reaches(b, total_bins, bands, k));
    }
}

/// A larger fraction reaches at least as high.
proof fn lemma_reaches_up(
    num_a: int,
    den_a: int,
    num_b: int,
    den_b: int,
    n: int,
    e: nat,
    k: nat,
)
    requires
        num_a >= 0,
        num_b >= 0,
        den_a >= 0,
        den_b >= 0,
        n >= 2,
        den_a > 0 || den_b == 0,
        num_a * den_b <= num_b * den_a,
        pow(num_a, e) * pow(n, e) >= pow(n, k) * pow(den_a, e),
    ensures
        pow(num_b, e) * pow(n, e) >= pow(n, k) * pow(den_b, e),
{
    lemma_pow_nonnegative(num_a, e);
    lemma_pow_nonnegative(num_b, e);
    lemma_pow_nonnegative(den_a, e);
    lemma_pow_nonnegative(den_b, e);
    lemma_pow_nonnegative(n, e);
    lemma_pow_nonnegative(n, k);
    vstd::arithmetic::power::lemma_pow_distributes(num_a, den_b, e);
    vstd::arithmetic::power::lemma_pow_distributes(num_b, den_a, e);
    lemma_pow_base_monotone(num_a * den_b, num_b * den_a, e);
    let (pa, qa, pb, qb) = (pow(num_a, e), pow(den_a, e), pow(num_b, e), pow(den_b, e));
    let (u, v) = (pow(n, e), pow(n, k));
    if den_a > 0 {
        vstd::arithmetic::power::lemma_pow_positive(den_a, e);
        // v * qb * qa <= pa * u * qb <= pb * u * qa
        assert(qa * (pb * u) >= qa * (v * qb)) by (nonlinear_arith)
            requires
                pa * u >= v * qa,
                pa * qb <= pb * qa,
                u >= 0,
                qb >= 0,
        ;
        assert(pb * u >= v * qb) by (nonlinear_arith)
            requires
                qa > 0,
                qa * (pb * u) >= qa * (v * qb),
        ;
    } else {
        if e == 0 {
            reveal(pow);
        } else {
            reveal(pow);
            assert(qb == 0) by {
                assert(qb == den_b * pow(den_b, (e - 1) as nat));
                assert(0 * pow(den_b, (e - 1) as nat) == 0);
            }
            assert(pb * u >= v * qb) by (nonlinear_arith)
                requires
                    qb == 0,
                    pb >= 0,
                    u >= 0,
            ;
        }
    }
}

/// A bin but the first lies in band `k` or above exactly if
/// `((2 bin + 1) / (2 total) * n) ^ bands >= n ^ k`, where `n` is one less than
/// the number of bins, at least two; fractions below a billionth count as a
/// billionth. The first bin lies in band zero, and no band is beyond the last.
pub proof fn law_bands_are_logarithmic(
    bin: usize,
    total_bins: usize,
    bands: u16,
    band: u16,
    k: nat,
)
    requires
        is_band(bin, total_bins, bands, band),
        1 <= k < bands,
    ensures
        band < bands,
        bin == 0 ==> band == 0,
        bin > 0 ==> (band >= k <==> {
            let n = if total_bins >= 3 {
                total_bins - 1
            } else {
                2
            };
            let e = bands as nat;
            if (2 * bin + 1) * 1_000_000_000 >= 2 * total_bins {
                pow(2 * bin + 1, e) * pow(n, e) >= pow(n, k) * pow(2 * total_bins as int, e)
            } else {
                pow(1, e) * pow(n, e) >= pow(n, k) * pow(1_000_000_000, e)
            }
        }),
{
    if bin > 0 {
        if band >= k {
            lemma_reaches_down(bin, total_bins, bands, k, band as nat);
        } else if reaches(bin, total_bins, bands, k) {
            lemma_reaches_down(bin, total_bins, bands, (band + 1) as nat, k);
        }
    }
}

} // verus!
