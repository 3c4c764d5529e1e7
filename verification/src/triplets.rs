//! Scale-invariant fingerprints of event triplets.
//!
//! Pair hashes break when playback is sped up, slowed down or shifted in
//! pitch: every time and frequency scales. Triplets hash ratios between three
//! spectral events instead: the two frequency ratios to the first event, in
//! logarithmic steps, and the ratio of the two time gaps. Under a time scale
//! and a frequency scale all three stay what they are.
//!
//! The logarithms are never computed: whether a ratio reaches a step is
//! decided by comparing powers of whole numbers.
use vstd::arithmetic::power::pow;
use vstd::arithmetic::power2::pow2;
use vstd::prelude::*;

use crate::bignum::{
    at_least, is_normal, lemma_pow_base_monotone, lemma_pow_nonnegative, multiply, number, power,
};
use crate::peaks::Peak;

verus! {

#[derive(Debug, Clone, Copy, PartialEq, Eq, Structural)]
pub struct TripletsConfig {
    /// Temporal reach for the second and third events, in frames.
    pub span_frames: usize,
    /// Future peaks considered per anchor.
    pub fanout: usize,
    /// The frequency ratio over [-4, +4] octaves is cut into `2^bits` steps.
    pub freq_ratio_bits: u32,
    /// The time ratio over [0, 1] is cut into this many steps.
    pub time_ratio_steps: u32,
    /// Collapse frequencies into bands of `2^power` bins before taking
    /// ratios. Zero turns this off.
    pub quant_band_power: u32,
}

impl Default for TripletsConfig {
    fn default() -> (c: Self)
        ensures
            c == (TripletsConfig {
                span_frames: 12,
                fanout: 6,
                freq_ratio_bits: 8,
                time_ratio_steps: 16,
                quant_band_power: 0,
            }),
    {
        TripletsConfig {
            span_frames: 12,
            fanout: 6,
            freq_ratio_bits: 8,
            time_ratio_steps: 16,
            quant_band_power: 0,
        }
    }
}

/// One triplet fingerprint: scale-invariant hash and anchor frame.
#[derive(Debug, Clone, Copy, PartialEq, Eq, Structural)]
pub struct TripletFp {
    pub hash: u32,
    pub t1: u32,
}

/// The frequency ratio `f2 / f1` reaches step `k` of `n`:
/// `log2(f2 / f1) >= 8 k / n - 4`, raised to the power of two.
pub open spec fn ratio_reaches(f1: int, f2: int, n: nat, k: nat) -> bool {
    pow(2, 8 * k) * pow(f1, n) <= pow(2, 4 * n) * pow(f2, n)
}

/// The highest step up to `k` that the ratio reaches, zero if none.
pub open spec fn highest_step(f1: int, f2: int, n: nat, k: nat) -> nat
    decreases k,
{
    if k == 0 || ratio_reaches(f1, f2, n, k) {
        k
    } else {
        highest_step(f1, f2, n, (k - 1) as nat)
    }
}

/// The step of a frequency ratio, clipped to four octaves either way.
pub open spec fn ratio_step(f1: int, f2: int, bits: nat) -> nat {
    highest_step(f1, f2, pow2(bits), (pow2(bits) - 1) as nat)
}

/// The step of a time ratio.
pub open spec fn time_step(d1: int, d2: int, steps: int) -> int {
    if d1 * steps / d2 < steps {
        d1 * steps / d2
    } else {
        steps - 1
    }
}

/// Bits of a frequency ratio in a hash.
pub open spec fn ratio_bits(cfg: TripletsConfig) -> nat {
    if cfg.freq_ratio_bits <= 12 {
        cfg.freq_ratio_bits as nat
    } else {
        12
    }
}

/// Steps of the time ratio.
pub open spec fn time_steps(cfg: TripletsConfig) -> int {
    if cfg.time_ratio_steps < 16 {
        16
    } else if cfg.time_ratio_steps > 65536 {
        65536
    } else {
        cfg.time_ratio_steps as int
    }
}

/// Twice the frequency of a peak in bins, or in bands where they are on: the
/// middle of the bin or band.
pub open spec fn double_frequency(cfg: TripletsConfig, p: Peak) -> int {
    2 * (p.freq_bin_idx as int / pow2(cfg.quant_band_power as nat) as int) + 1
}

/// Frames from `a` to `p`; zero where `p` is not later.
pub open spec fn gap(a: Peak, p: Peak) -> int {
    if p.time_idx >= a.time_idx {
        p.time_idx - a.time_idx
    } else {
        0
    }
}

/// The first `limit` peaks from `j` on that lie after `a`, up to the first
/// one out of reach.
pub open spec fn reach(peaks: Seq<Peak>, a: Peak, j: int, span: int, limit: int) -> Seq<Peak>
    decreases peaks.len() - j,
{
    if j < 0 || j >= peaks.len() || limit <= 0 || gap(a, peaks[j]) > span {
        Seq::empty()
    } else if gap(a, peaks[j]) == 0 {
        reach(peaks, a, j + 1, span, limit)
    } else {
        seq![peaks[j]] + reach(peaks, a, j + 1, span, limit - 1)
    }
}

/// The packed fields of a hash: two ratio steps of `bits` bits each, and four
/// bits of the time step.
pub open spec fn packed_triplet(bits: nat, q1: nat, q2: nat, dt: int) -> u32 {
    (q1 * pow2((32 - bits) as nat) + q2 * pow2((32 - 2 * bits) as nat) + (dt % 16) * pow2(
        (28 - 2 * bits) as nat,
    )) as u32
}

/// The fingerprints of one triplet: with its own time step and with the two
/// beside it, because frames are whole numbers and the gap ratio jitters.
pub open spec fn triplet(cfg: TripletsConfig, a: Peak, b: Peak, c: Peak) -> Seq<TripletFp> {
    if c.time_idx == b.time_idx {
        Seq::empty()
    } else {
        let bits = ratio_bits(cfg);
        let f1 = double_frequency(cfg, a);
        let q1 = ratio_step(f1, double_frequency(cfg, b), bits);
        let q2 = ratio_step(f1, double_frequency(cfg, c), bits);
        let steps = time_steps(cfg);
        let dt = time_step(gap(a, b), gap(a, c), steps);
        let low = if dt > 0 {
            dt - 1
        } else {
            0
        };
        let high = if dt + 1 < steps {
            dt + 1
        } else {
            steps - 1
        };
        let t1 = a.time_idx as u32;
        seq![
            TripletFp { hash: packed_triplet(bits, q1, q2, low), t1 },
            TripletFp { hash: packed_triplet(bits, q1, q2, dt), t1 },
            TripletFp { hash: packed_triplet(bits, q1, q2, high), t1 },
        ]
    }
}

/// The triplets with second event `near[j]` and a third one below `k`.
pub open spec fn with_second(
    cfg: TripletsConfig,
    a: Peak,
    near: Seq<Peak>,
    j: int,
    k: int,
) -> Seq<TripletFp>
    decreases k,
{
    if k <= j + 1 || k <= 0 {
        Seq::empty()
    } else {
        with_second(cfg, a, near, j, k - 1) + triplet(cfg, a, near[j], near[k - 1])
    }
}

/// The triplets whose second event is below `j`.
pub open spec fn with_anchor(cfg: TripletsConfig, a: Peak, near: Seq<Peak>, j: int) -> Seq<
    TripletFp,
>
    decreases j,
{
    if j <= 0 {
        Seq::empty()
    } else {
        with_anchor(cfg, a, near, j - 1) + with_second(cfg, a, near, j - 1, near.len() as int)
    }
}

/// The triplets of the first `n` anchors.
pub open spec fn triplets(cfg: TripletsConfig, peaks: Seq<Peak>, n: int) -> Seq<TripletFp>
    decreases n,
{
    if n <= 0 {
        Seq::empty()
    } else {
        let a = peaks[n - 1];
        let near = reach(peaks, a, n, cfg.span_frames as int, cfg.fanout as int);
        triplets(cfg, peaks, n - 1) + with_anchor(cfg, a, near, near.len() as int)
    }
}

/// Largest bin: a spectrum of more bins does not fit in memory.
pub const BIN_LIMIT: u64 = 0x00ff_ffff_ffff_ffff;

/// What the configuration must hold: a ratio has at least one bit, and a band
/// is not wider than a machine word.
pub open spec fn config_ok(cfg: TripletsConfig) -> bool {
    cfg.freq_ratio_bits >= 1 && cfg.quant_band_power < usize::BITS
}

proof fn lemma_pow_strict(a: int, b: int, e: nat)
    requires
        0 <= a < b,
        e > 0,
    ensures
        pow(a, e) < pow(b, e),
    decreases e,
{
    reveal(pow);
    let m = (e - 1) as nat;
    lemma_pow_base_monotone(a, b, m);
    lemma_pow_nonnegative(a, m);
    let (x, y) = (pow(a, m), pow(b, m));
    vstd::arithmetic::power::lemma_pow_positive(b, m);
    assert(a * x < b * y) by (nonlinear_arith)
        requires
            0 <= a < b,
            0 <= x <= y,
            y > 0,
    ;
}

/// Reaching a step means reaching all lower ones.
proof fn lemma_reaches_lower(f1: int, f2: int, n: nat, k: nat)
    requires
        f1 > 0,
        k > 0,
        ratio_reaches(f1, f2, n, k),
    ensures
        ratio_reaches(f1, f2, n, (k - 1) as nat),
{
    let low = (8 * (k - 1)) as nat;
    vstd::arithmetic::power::lemma_pow_increases(2, low, 8 * k);
    lemma_pow_nonnegative(f1, n);
    let (x, y, p) = (pow(2, low), pow(2, 8 * k), pow(f1, n));
    assert(x * p <= y * p) by (nonlinear_arith)
        requires
            x <= y,
            p >= 0,
    ;
}

/// The highest step is the one that is reached while the next is not.
proof fn lemma_highest_step(f1: int, f2: int, n: nat, top: nat, k: nat)
    requires
        f1 > 0,
        k <= top,
        k > 0 ==> ratio_reaches(f1, f2, n, k),
        k < top ==> !ratio_reaches(f1, f2, n, k + 1),
    ensures
        highest_step(f1, f2, n, top) == k,
    decreases top,
{
    if k < top {
        if ratio_reaches(f1, f2, n, top) {
            lemma_reaches_below(f1, f2, n, top, k + 1);
        }
        lemma_highest_step(f1, f2, n, (top - 1) as nat, k);
    }
}

proof fn lemma_reaches_below(f1: int, f2: int, n: nat, high: nat, low: nat)
    requires
        f1 > 0,
        low <= high,
        ratio_reaches(f1, f2, n, high),
    ensures
        ratio_reaches(f1, f2, n, low),
    decreases high,
{
    if low < high {
        lemma_reaches_lower(f1, f2, n, high);
        lemma_reaches_below(f1, f2, n, (high - 1) as nat, low);
    }
}

/// The same comparison with smaller numbers: its eighth power, where `r` is
/// 8, is the definition.
proof fn lemma_reaches_root(f1: int, f2: int, n: nat, m: nat, r: nat, s: nat, k: nat)
    requires
        f1 > 0,
        f2 > 0,
        n == r * m,
        8 == r * s,
    ensures
        ratio_reaches(f1, f2, n, k) <==> pow(2, s * k) * pow(f1, m) <= pow(16 * f2, m),
{
    let x = pow(2, s * k) * pow(f1, m);
    let y = pow(16 * f2, m);
    assert(r > 0) by (nonlinear_arith)
        requires
            8 == r * s,
    ;
    vstd::arithmetic::power::lemma_pow_positive(2, s * k);
    vstd::arithmetic::power::lemma_pow_positive(f1, m);
    vstd::arithmetic::power::lemma_pow_positive(16 * f2, m);
    assert(x >= 0) by (nonlinear_arith)
        requires
            x == pow(2, s * k) * pow(f1, m),
            pow(2, s * k) > 0,
            pow(f1, m) > 0,
    ;
    if x <= y {
        lemma_pow_base_monotone(x, y, r);
    } else {
        lemma_pow_strict(y, x, r);
    }
    vstd::arithmetic::power::lemma_pow_distributes(pow(2, s * k), pow(f1, m), r);
    vstd::arithmetic::power::lemma_pow_multiplies(2, s * k, r);
    vstd::arithmetic::power::lemma_pow_multiplies(f1, m, r);
    vstd::arithmetic::power::lemma_pow_multiplies(16 * f2, m, r);
    assert(s * k * r == 8 * k) by (nonlinear_arith)
        requires
            8 == r * s,
    ;
    assert(m * r == n) by (nonlinear_arith)
        requires
            n == r * m,
    ;
    assert(pow(x, r) == pow(2, 8 * k) * pow(f1, n));
    vstd::arithmetic::power::lemma_pow_distributes(16, f2, n);
    vstd::arithmetic::power::lemma_pow_multiplies(2, 4, n);
    assert(pow(2, 4) == 16) by {
        reveal_with_fuel(pow, 5);
    }
    assert(pow(y, r) == pow(2, 4 * n) * pow(f2, n));
}

/// `2^e`.
fn two_to(e: u32) -> (p: u64)
    requires
        e < 64,
    ensures
        p == pow2(e as nat),
        p > 0,
{
    proof {
        vstd::bits::lemma_u64_pow2_no_overflow(e as nat);
        assert(1 * pow2(e as nat) == pow2(e as nat));
        vstd::bits::lemma_u64_shl_is_mul(1, e as u64);
        vstd::arithmetic::power2::lemma_pow2_pos(e as nat);
    }
    1u64 << e
}

/// The step of the ratio of two frequencies.
fn q_ratio(f1: u64, f2: u64, bits: u32) -> (k: u32)
    requires
        1 <= bits <= 12,
        0 < f1,
        0 < f2 <= 0x0fff_ffff_ffff_ffff,
    ensures
        k == ratio_step(f1 as int, f2 as int, bits as nat),
        k < pow2(bits as nat),
{
    proof {
        vstd::arithmetic::power2::lemma2_to64();
    }
    let n: u64 = two_to(bits);
    // The comparison is made on the eighth root where that is whole.
    let m: u16 = if bits >= 3 {
        (n / 8) as u16
    } else {
        n as u16
    };
    let step: u64 = if bits >= 3 {
        2
    } else {
        256
    };
    let ghost (r, s): (nat, nat) = if bits >= 3 {
        (8, 1)
    } else {
        (1, 8)
    };
    proof {
        assert(n == pow2(bits as nat));
        assert(n == r * m) by {
            if bits >= 3 {
                vstd::arithmetic::power2::lemma_pow2_adds(3, (bits - 3) as nat);
                assert(pow2(3) == 8);
            }
        }
        assert(8 == r * s);
        assert(pow(2, s) == step) by {
            reveal_with_fuel(pow, 9);
        }
    }
    let whole: Vec<u64> = power(16 * f2, m);
    let mut part: Vec<u64> = power(f1, m);
    let mut k: u32 = 0;
    proof {
        reveal(pow);
        assert(s * 0 == 0);
        assert(number(part@) == pow(2, s * 0) * pow(f1 as int, m as nat));
    }
    while (k as u64) < n - 1
        invariant_except_break
            number(part@) == pow(2, s * k as nat) * pow(f1 as int, m as nat),
        invariant
            k < n,
            n <= 4096,
            0 < f1,
            0 < f2,
            n == r * m,
            8 == r * s,
            step > 0,
            step == pow(2, s),
            is_normal(whole@),
            is_normal(part@),
            number(whole@) == pow(16 * f2 as int, m as nat),
            k > 0 ==> ratio_reaches(f1 as int, f2 as int, n as nat, k as nat),
        ensures
            k < n,
            k > 0 ==> ratio_reaches(f1 as int, f2 as int, n as nat, k as nat),
            k < n - 1 ==> !ratio_reaches(f1 as int, f2 as int, n as nat, k as nat + 1),
        decreases n - k,
    {
        let ghost before = number(part@);
        multiply(&mut part, step);
        proof {
            let next = k as nat + 1;
            let p = pow(f1 as int, m as nat);
            vstd::arithmetic::power::lemma_pow_adds(2, s * k as nat, s);
            assert(s * next == s * k as nat + s) by (nonlinear_arith)
                requires
                    next == k as nat + 1,
            ;
            let q = pow(2, s * k as nat);
            assert(step * (q * p) == (q * pow(2, s)) * p) by (nonlinear_arith)
                requires
                    step == pow(2, s),
            ;
            lemma_reaches_root(f1 as int, f2 as int, n as nat, m as nat, r, s, next);
        }
        if !at_least(&whole, &part) {
            break;
        }
        k = k + 1;
    }
    proof {
        lemma_highest_step(f1 as int, f2 as int, n as nat, (n - 1) as nat, k as nat);
    }
    k
}

/// The step of the ratio of two gaps.
fn q_tratio(d1: usize, d2: usize, steps: u32) -> (k: u32)
    requires
        d2 > 0,
        0 < steps,
    ensures
        k == time_step(d1 as int, d2 as int, steps as int),
        k < steps,
{
    assert(d1 as int * steps as int <= 0xffff_ffff_ffff_ffff * 0xffff_ffff) by (nonlinear_arith)
        requires
            0 <= d1 <= 0xffff_ffff_ffff_ffff,
            0 <= steps <= 0xffff_ffff,
    ;
    assert(d1 as int * steps as int >= 0) by (nonlinear_arith)
        requires
            0 <= d1,
            0 <= steps,
    ;
    let q: u128 = d1 as u128 * steps as u128 / d2 as u128;
    if q < steps as u128 {
        q as u32
    } else {
        steps - 1
    }
}

/// Packs the fields of a hash.
fn pack(bits: u32, q1: u32, q2: u32, dt: u32) -> (hash: u32)
    requires
        1 <= bits <= 12,
        q1 < pow2(bits as nat),
        q2 < pow2(bits as nat),
    ensures
        hash == packed_triplet(bits as nat, q1 as nat, q2 as nat, dt as int),
{
    let p1: u64 = two_to(32 - bits);
    let p2: u64 = two_to(32 - 2 * bits);
    let p3: u64 = two_to(28 - 2 * bits);
    proof {
        let p = pow2(bits as nat);
        vstd::arithmetic::power2::lemma2_to64();
        vstd::arithmetic::power2::lemma_pow2_adds((32 - bits) as nat, bits as nat);
        vstd::arithmetic::power2::lemma_pow2_adds((32 - 2 * bits) as nat, bits as nat);
        vstd::arithmetic::power2::lemma_pow2_adds((28 - 2 * bits) as nat, 4);
        assert(p1 * p == 0x1_0000_0000);
        assert(p2 * p == p1);
        assert(p3 * 16 == p2);
        assert(q1 * p1 + p1 <= 0x1_0000_0000) by (nonlinear_arith)
            requires
                p1 * p == 0x1_0000_0000,
                q1 + 1 <= p,
        ;
        assert(q2 * p2 + p2 <= p1) by (nonlinear_arith)
            requires
                p2 * p == p1,
                q2 + 1 <= p,
        ;
        assert((dt % 16) * p3 + p3 <= p2) by (nonlinear_arith)
            requires
                p3 * 16 == p2,
                dt % 16 + 1 <= 16,
        ;
        assert(q1 * p1 >= 0 && q2 * p2 >= 0 && (dt % 16) * p3 >= 0) by (nonlinear_arith)
            requires
                q1 >= 0,
                q2 >= 0,
                p1 >= 0,
                p2 >= 0,
                p3 >= 0,
                dt >= 0,
        ;
    }
    (q1 as u64 * p1 + q2 as u64 * p2 + (dt % 16) as u64 * p3) as u32
}

/// Twice the frequency of a peak.
fn band_of(cfg: &TripletsConfig, p: &Peak) -> (f: u64)
    requires
        cfg.quant_band_power < usize::BITS,
        p.freq_bin_idx <= BIN_LIMIT,
    ensures
        f == double_frequency(*cfg, *p),
        0 < f <= 0x0fff_ffff_ffff_ffff,
{
    let bin: u64 = p.freq_bin_idx as u64;
    let w: u64 = two_to(cfg.quant_band_power);
    let band: u64 = bin / w;
    assert(band <= bin) by (nonlinear_arith)
        requires
            band == bin / w,
            w >= 1,
    ;
    2 * band + 1
}

/// The peaks that can follow an anchor.
fn followers(peaks: &[Peak], i: usize, cfg: &TripletsConfig) -> (near: Vec<Peak>)
    requires
        i < peaks.len(),
    ensures
        near@ == reach(
            peaks@,
            peaks[i as int],
            i + 1,
            cfg.span_frames as int,
            cfg.fanout as int,
        ),
        forall|k: int|
            0 <= k < near.len() ==> gap(peaks[i as int], #[trigger] near[k]) > 0
                && peaks@.contains(near[k]),
{
    let mut near: Vec<Peak> = Vec::new();
    let a: Peak = peaks[i];
    let mut j: usize = i + 1;
    let ghost whole = reach(peaks@, a, i + 1, cfg.span_frames as int, cfg.fanout as int);
    assert(near@ + whole =~= whole);
    while j < peaks.len() && near.len() < cfg.fanout
        invariant
            i < j <= peaks.len(),
            a == peaks[i as int],
            near.len() <= cfg.fanout,
            whole == reach(peaks@, a, i + 1, cfg.span_frames as int, cfg.fanout as int),
            whole == near@ + reach(
                peaks@,
                a,
                j as int,
                cfg.span_frames as int,
                cfg.fanout - near.len(),
            ),
            forall|k: int|
                0 <= k < near.len() ==> gap(a, #[trigger] near[k]) > 0 && peaks@.contains(near[k]),
        decreases peaks.len() - j,
    {
        let p: Peak = peaks[j];
        let d: usize = if p.time_idx >= a.time_idx {
            p.time_idx - a.time_idx
        } else {
            0
        };
        if d > cfg.span_frames {
            assert(whole =~= near@);
            return near;
        }
        let ghost before = near@;
        if d != 0 {
            near.push(p);
            assert(peaks@.contains(p));
        }
        j = j + 1;
        assert(whole =~= near@ + reach(
            peaks@,
            a,
            j as int,
            cfg.span_frames as int,
            cfg.fanout - near.len(),
        ));
    }
    assert(whole =~= near@);
    near
}

#[verifier::truncate]
fn frame_number(t: usize) -> (r: u32)
    ensures
        r == t as u32,
{
    t as u32
}

/// Appends the fingerprints of one triplet.
fn push_triplet(cfg: &TripletsConfig, a: &Peak, b: &Peak, c: &Peak, out: &mut Vec<TripletFp>)
    requires
        config_ok(*cfg),
        a.freq_bin_idx <= BIN_LIMIT,
        b.freq_bin_idx <= BIN_LIMIT,
        c.freq_bin_idx <= BIN_LIMIT,
        gap(*a, *b) > 0,
        gap(*a, *c) > 0,
    ensures
        final(out)@ == old(out)@ + triplet(*cfg, *a, *b, *c),
{
    let ghost start = out@;
    if c.time_idx == b.time_idx {
        assert(start + triplet(*cfg, *a, *b, *c) =~= start);
        return;
    }
    let bits: u32 = if cfg.freq_ratio_bits <= 12 {
        cfg.freq_ratio_bits
    } else {
        12
    };
    let steps: u32 = if cfg.time_ratio_steps < 16 {
        16
    } else if cfg.time_ratio_steps > 65536 {
        65536
    } else {
        cfg.time_ratio_steps
    };
    let f1: u64 = band_of(cfg, a);
    let q1: u32 = q_ratio(f1, band_of(cfg, b), bits);
    let q2: u32 = q_ratio(f1, band_of(cfg, c), bits);
    let tr: u32 = q_tratio(b.time_idx - a.time_idx, c.time_idx - a.time_idx, steps);
    let low: u32 = if tr > 0 {
        tr - 1
    } else {
        0
    };
    let high: u32 = if tr + 1 < steps {
        tr + 1
    } else {
        steps - 1
    };
    let t1: u32 = frame_number(a.time_idx);
    out.push(TripletFp { hash: pack(bits, q1, q2, low), t1 });
    out.push(TripletFp { hash: pack(bits, q1, q2, tr), t1 });
    out.push(TripletFp { hash: pack(bits, q1, q2, high), t1 });
    assert(out@ =~= start + triplet(*cfg, *a, *b, *c));
}

/// Appends the triplets of one anchor.
fn push_anchor(cfg: &TripletsConfig, a: &Peak, near: &Vec<Peak>, out: &mut Vec<TripletFp>)
    requires
        config_ok(*cfg),
        a.freq_bin_idx <= BIN_LIMIT,
        forall|k: int|
            0 <= k < near.len() ==> gap(*a, #[trigger] near[k]) > 0 && near[k].freq_bin_idx
                <= BIN_LIMIT,
    ensures
        final(out)@ == old(out)@ + with_anchor(*cfg, *a, near@, near.len() as int),
{
    let ghost start = out@;
    let mut j: usize = 0;
    assert(start + with_anchor(*cfg, *a, near@, 0) =~= start);
    while j < near.len()
        invariant
            config_ok(*cfg),
            a.freq_bin_idx <= BIN_LIMIT,
            forall|k: int|
                0 <= k < near.len() ==> gap(*a, #[trigger] near[k]) > 0 && near[k].freq_bin_idx
                    <= BIN_LIMIT,
            j <= near.len(),
            out@ == start + with_anchor(*cfg, *a, near@, j as int),
        decreases near.len() - j,
    {
        let ghost before = out@;
        let mut k: usize = j + 1;
        assert(before + with_second(*cfg, *a, near@, j as int, k as int) =~= before);
        while k < near.len()
            invariant
                config_ok(*cfg),
                a.freq_bin_idx <= BIN_LIMIT,
                forall|k: int|
                    0 <= k < near.len() ==> gap(*a, #[trigger] near[k]) > 0
                        && near[k].freq_bin_idx <= BIN_LIMIT,
                j < k <= near.len(),
                out@ == before + with_second(*cfg, *a, near@, j as int, k as int),
            decreases near.len() - k,
        {
            push_triplet(cfg, a, &near[j], &near[k], out);
            k = k + 1;
            assert(out@ =~= before + with_second(*cfg, *a, near@, j as int, k as int));
        }
        j = j + 1;
        assert(out@ =~= start + with_anchor(*cfg, *a, near@, j as int));
    }
}

/// Builds triplet fingerprints from peaks in time order.
///
/// For each anchor the next `fanout` peaks within reach are the candidates,
/// and each pair of them with different times forms a triplet.
pub fn fingerprint_triplets(peaks: &[Peak], cfg: &TripletsConfig) -> (out: Vec<TripletFp>)
    requires
        config_ok(*cfg),
        forall|i: int| 0 <= i < peaks.len() ==> (#[trigger] peaks[i]).freq_bin_idx <= BIN_LIMIT,
    ensures
        out@ == triplets(*cfg, peaks@, peaks.len() as int),
{
    let mut out: Vec<TripletFp> = Vec::new();
    let mut i: usize = 0;
    while i < peaks.len()
        invariant
            config_ok(*cfg),
            forall|k: int|
                0 <= k < peaks.len() ==> (#[trigger] peaks[k]).freq_bin_idx <= BIN_LIMIT,
            i <= peaks.len(),
            out@ == triplets(*cfg, peaks@, i as int),
        decreases peaks.len() - i,
    {
        let near: Vec<Peak> = followers(peaks, i, cfg);
        let a: Peak = peaks[i];
        assert forall|k: int| 0 <= k < near.len() implies gap(a, #[trigger] near[k]) > 0
            && near[k].freq_bin_idx <= BIN_LIMIT by {
            let at = peaks@.index_of(near[k]);
            assert(peaks[at].freq_bin_idx <= BIN_LIMIT);
        }
        push_anchor(cfg, &a, &near, &mut out);
        i = i + 1;
    }
    out
}

// ---- scaling ----

/// `q` is `p` in a recording played `s` times slower with all frequencies
/// multiplied by `m`.
pub open spec fn rescaled(p: Peak, q: Peak, s: int, m: int) -> bool {
    &&& q.time_idx == s * p.time_idx
    &&& 2 * q.freq_bin_idx + 1 == m * (2 * p.freq_bin_idx + 1)
}

pub open spec fn all_rescaled(p: Seq<Peak>, q: Seq<Peak>, s: int, m: int) -> bool {
    &&& p.len() == q.len()
    &&& forall|i: int| 0 <= i < p.len() ==> rescaled(#[trigger] p[i], q[i], s, m)
}

proof fn lemma_ratio_scales(f1: int, f2: int, m: int, n: nat, k: nat)
    requires
        m > 0,
    ensures
        highest_step(m * f1, m * f2, n, k) == highest_step(f1, f2, n, k),
    decreases k,
{
    if k > 0 {
        lemma_ratio_scales(f1, f2, m, n, (k - 1) as nat);
        vstd::arithmetic::power::lemma_pow_distributes(m, f1, n);
        vstd::arithmetic::power::lemma_pow_distributes(m, f2, n);
        vstd::arithmetic::power::lemma_pow_positive(m, n);
        let (w, a, b, x, y) = (pow(m, n), pow(f1, n), pow(f2, n), pow(2, 8 * k), pow(2, 4 * n));
        assert((x * (w * a) <= y * (w * b)) == (x * a <= y * b)) by (nonlinear_arith)
            requires
                w > 0,
        ;
    }
}

proof fn lemma_gap_scales(a: Peak, b: Peak, c: Peak, d: Peak, s: int, m: int)
    requires
        s > 0,
        rescaled(a, c, s, m),
        rescaled(b, d, s, m),
    ensures
        gap(c, d) == s * gap(a, b),
        (d.time_idx == c.time_idx) == (b.time_idx == a.time_idx),
{
    let (x, y) = (a.time_idx as int, b.time_idx as int);
    assert((s * y >= s * x) == (y >= x)) by (nonlinear_arith)
        requires
            s > 0,
    ;
    assert((s * y == s * x) == (y == x)) by (nonlinear_arith)
        requires
            s > 0,
    ;
    assert(s * (y - x) == s * y - s * x) by (nonlinear_arith);
}

proof fn lemma_plain_frequency(cfg: TripletsConfig, p: Peak)
    requires
        cfg.quant_band_power == 0,
    ensures
        double_frequency(cfg, p) == 2 * p.freq_bin_idx + 1,
{
    vstd::arithmetic::power2::lemma2_to64();
    assert(p.freq_bin_idx as int / 1 == p.freq_bin_idx);
}

proof fn lemma_triplet_scales(
    cfg: TripletsConfig,
    wide: TripletsConfig,
    p: (Peak, Peak, Peak),
    q: (Peak, Peak, Peak),
    s: int,
    m: int,
)
    requires
        s > 0,
        m > 0,
        cfg.quant_band_power == 0,
        wide == (TripletsConfig { span_frames: wide.span_frames, ..cfg }),
        rescaled(p.0, q.0, s, m),
        rescaled(p.1, q.1, s, m),
        rescaled(p.2, q.2, s, m),
        gap(p.0, p.2) > 0,
    ensures
        hashes(triplet(wide, q.0, q.1, q.2)) == hashes(triplet(cfg, p.0, p.1, p.2)),
{
    let bits = ratio_bits(cfg);
    vstd::arithmetic::power2::lemma2_to64();
    let f1 = double_frequency(cfg, p.0);
    let top = (pow2(bits) - 1) as nat;
    vstd::arithmetic::power2::lemma_pow2_pos(bits);
    lemma_ratio_scales(f1, double_frequency(cfg, p.1), m, pow2(bits), top);
    lemma_ratio_scales(f1, double_frequency(cfg, p.2), m, pow2(bits), top);
    lemma_plain_frequency(cfg, p.0);
    lemma_plain_frequency(cfg, p.1);
    lemma_plain_frequency(cfg, p.2);
    lemma_plain_frequency(wide, q.0);
    lemma_plain_frequency(wide, q.1);
    lemma_plain_frequency(wide, q.2);
    lemma_gap_scales(p.0, p.1, q.0, q.1, s, m);
    lemma_gap_scales(p.0, p.2, q.0, q.2, s, m);
    lemma_gap_scales(p.1, p.2, q.1, q.2, s, m);
    let (d1, d2, steps) = (gap(p.0, p.1), gap(p.0, p.2), time_steps(cfg));
    assert((s * d1) * steps / (s * d2) == d1 * steps / d2) by {
        assert((s * d1) * steps == s * (d1 * steps)) by (nonlinear_arith);
        vstd::arithmetic::div_mod::lemma_div_multiples_vanish_quotient(s, d1 * steps, d2);
    }
    assert(hashes(triplet(wide, q.0, q.1, q.2)) =~= hashes(triplet(cfg, p.0, p.1, p.2)));
}

/// The hashes alone.
pub open spec fn hashes(fps: Seq<TripletFp>) -> Seq<u32> {
    fps.map_values(|f: TripletFp| f.hash)
}

proof fn lemma_hashes_concat(a: Seq<TripletFp>, b: Seq<TripletFp>)
    ensures
        hashes(a + b) == hashes(a) + hashes(b),
{
    assert(hashes(a + b) =~= hashes(a) + hashes(b));
}

/// The wider configuration reaches `s` times as far.
pub open spec fn widened(cfg: TripletsConfig, wide: TripletsConfig, s: int) -> bool {
    &&& wide == (TripletsConfig { span_frames: wide.span_frames, ..cfg })
    &&& wide.span_frames == s * cfg.span_frames
}

proof fn lemma_reach_scales(
    p: Seq<Peak>,
    q: Seq<Peak>,
    n: int,
    j: int,
    span: int,
    limit: int,
    s: int,
    m: int,
)
    requires
        s > 0,
        all_rescaled(p, q, s, m),
        0 <= n < p.len(),
        0 <= j,
    ensures
        all_rescaled(
            reach(p, p[n], j, span, limit),
            reach(q, q[n], j, s * span, limit),
            s,
            m,
        ),
        forall|k: int|
            0 <= k < reach(p, p[n], j, span, limit).len() ==> gap(
                p[n],
                #[trigger] reach(p, p[n], j, span, limit)[k],
            ) > 0,
    decreases p.len() - j,
{
    if j < p.len() && limit > 0 {
        assert(rescaled(p[n], q[n], s, m) && rescaled(p[j], q[j], s, m));
        lemma_gap_scales(p[n], p[j], q[n], q[j], s, m);
        let d = gap(p[n], p[j]);
        assert((s * d > s * span) == (d > span) && (s * d == 0) == (d == 0)) by (nonlinear_arith)
            requires
                s > 0,
        ;
        if d <= span {
            if d == 0 {
                lemma_reach_scales(p, q, n, j + 1, span, limit, s, m);
            } else {
                lemma_reach_scales(p, q, n, j + 1, span, limit - 1, s, m);
                let a = reach(p, p[n], j + 1, span, limit - 1);
                let b = reach(q, q[n], j + 1, s * span, limit - 1);
                let x = reach(p, p[n], j, span, limit);
                let y = reach(q, q[n], j, s * span, limit);
                assert(x == seq![p[j]] + a && y == seq![q[j]] + b);
                assert forall|k: int| 0 <= k < x.len() implies rescaled(
                    #[trigger] x[k],
                    y[k],
                    s,
                    m,
                ) && gap(p[n], x[k]) > 0 by {
                    if k > 0 {
                        assert(x[k] == a[k - 1] && y[k] == b[k - 1]);
                        assert(rescaled(a[k - 1], b[k - 1], s, m));
                    }
                }
            }
        }
    }
}

proof fn lemma_second_scales(
    cfg: TripletsConfig,
    wide: TripletsConfig,
    a: Peak,
    b: Peak,
    p: Seq<Peak>,
    q: Seq<Peak>,
    j: int,
    k: int,
    s: int,
    m: int,
)
    requires
        s > 0,
        m > 0,
        cfg.quant_band_power == 0,
        widened(cfg, wide, s),
        rescaled(a, b, s, m),
        all_rescaled(p, q, s, m),
        0 <= j < p.len(),
        k <= p.len(),
        forall|i: int| 0 <= i < p.len() ==> gap(a, #[trigger] p[i]) > 0,
    ensures
        hashes(with_second(wide, b, q, j, k)) == hashes(with_second(cfg, a, p, j, k)),
    decreases k,
{
    if k > j + 1 {
        lemma_second_scales(cfg, wide, a, b, p, q, j, k - 1, s, m);
        assert(rescaled(p[j], q[j], s, m) && rescaled(p[k - 1], q[k - 1], s, m));
        lemma_triplet_scales(cfg, wide, (a, p[j], p[k - 1]), (b, q[j], q[k - 1]), s, m);
        lemma_hashes_concat(
            with_second(wide, b, q, j, k - 1),
            triplet(wide, b, q[j], q[k - 1]),
        );
        lemma_hashes_concat(with_second(cfg, a, p, j, k - 1), triplet(cfg, a, p[j], p[k - 1]));
    } else {
        assert(hashes(with_second(wide, b, q, j, k)) =~= hashes(with_second(cfg, a, p, j, k)));
    }
}

proof fn lemma_anchor_scales(
    cfg: TripletsConfig,
    wide: TripletsConfig,
    a: Peak,
    b: Peak,
    p: Seq<Peak>,
    q: Seq<Peak>,
    j: int,
    s: int,
    m: int,
)
    requires
        s > 0,
        m > 0,
        cfg.quant_band_power == 0,
        widened(cfg, wide, s),
        rescaled(a, b, s, m),
        all_rescaled(p, q, s, m),
        j <= p.len(),
        forall|i: int| 0 <= i < p.len() ==> gap(a, #[trigger] p[i]) > 0,
    ensures
        hashes(with_anchor(wide, b, q, j)) == hashes(with_anchor(cfg, a, p, j)),
    decreases j,
{
    if j > 0 {
        let n = p.len() as int;
        lemma_anchor_scales(cfg, wide, a, b, p, q, j - 1, s, m);
        lemma_second_scales(cfg, wide, a, b, p, q, j - 1, n, s, m);
        lemma_hashes_concat(with_anchor(wide, b, q, j - 1), with_second(wide, b, q, j - 1, n));
        lemma_hashes_concat(with_anchor(cfg, a, p, j - 1), with_second(cfg, a, p, j - 1, n));
    } else {
        assert(hashes(with_anchor(wide, b, q, j)) =~= hashes(with_anchor(cfg, a, p, j)));
    }
}

/// Triplets do not notice a change of speed and pitch: where every time is
/// multiplied by `s` and every frequency by `m`, and the reach is widened
/// with them, the hashes of the first `n` anchors are the same, one by one.
pub proof fn law_triplets_are_scale_invariant(
    cfg: TripletsConfig,
    wide: TripletsConfig,
    p: Seq<Peak>,
    q: Seq<Peak>,
    s: int,
    m: int,
    n: int,
)
    requires
        s > 0,
        m > 0,
        cfg.quant_band_power == 0,
        widened(cfg, wide, s),
        all_rescaled(p, q, s, m),
        n <= p.len(),
    ensures
        hashes(triplets(wide, q, n)) == hashes(triplets(cfg, p, n)),
    decreases n,
{
    if n > 0 {
        law_triplets_are_scale_invariant(cfg, wide, p, q, s, m, n - 1);
        let (a, b) = (p[n - 1], q[n - 1]);
        assert(rescaled(p[n - 1], q[n - 1], s, m));
        let (span, limit) = (cfg.span_frames as int, cfg.fanout as int);
        lemma_reach_scales(p, q, n - 1, n, span, limit, s, m);
        let x = reach(p, a, n, span, limit);
        let y = reach(q, b, n, s * span, limit);
        lemma_anchor_scales(cfg, wide, a, b, x, y, x.len() as int, s, m);
        lemma_hashes_concat(triplets(wide, q, n - 1), with_anchor(wide, b, y, y.len() as int));
        lemma_hashes_concat(triplets(cfg, p, n - 1), with_anchor(cfg, a, x, x.len() as int));
    } else {
        assert(hashes(triplets(wide, q, n)) =~= hashes(triplets(cfg, p, n)));
    }
}

/// A ratio is in step `k` or above exactly if it reaches the step: of `n`
/// steps over eight octaves, step `k` begins `8 k / n - 4` octaves up.
pub proof fn law_ratio_steps_are_logarithmic(f1: int, f2: int, bits: nat, k: nat)
    requires
        f1 > 0,
        1 <= k < pow2(bits),
    ensures
        ratio_step(f1, f2, bits) < pow2(bits),
        ratio_step(f1, f2, bits) >= k <==> pow(2, 8 * k) * pow(f1, pow2(bits)) <= pow(
            2,
            4 * pow2(bits),
        ) * pow(f2, pow2(bits)),
{
    let n = pow2(bits);
    lemma_step_is_highest(f1, f2, n, (n - 1) as nat);
    let step = ratio_step(f1, f2, bits);
    if step >= k {
        lemma_reaches_below(f1, f2, n, step, k);
    } else {
        assert(!ratio_reaches(f1, f2, n, k));
    }
}

proof fn lemma_step_is_highest(f1: int, f2: int, n: nat, top: nat)
    requires
        f1 > 0,
    ensures
        highest_step(f1, f2, n, top) <= top,
        highest_step(f1, f2, n, top) > 0 ==> ratio_reaches(
            f1,
            f2,
            n,
            highest_step(f1, f2, n, top),
        ),
        forall|k: nat|
            highest_step(f1, f2, n, top) < k <= top ==> !#[trigger] ratio_reaches(f1, f2, n, k),
    decreases top,
{
    if top > 0 && !ratio_reaches(f1, f2, n, top) {
        lemma_step_is_highest(f1, f2, n, (top - 1) as nat);
    }
}

/// The parts of a triplet: the time ratio in whole steps, the last one
/// included; between 16 and 65536 of them; at most twelve bits per ratio; and
/// the middle of the bin, or of the band of bins, counted in halves.
pub proof fn law_triplet_parts(cfg: TripletsConfig, d1: int, d2: int, steps: int, p: Peak)
    requires
        0 <= d1 <= d2,
        0 < d2,
        0 < steps,
    ensures
        d1 < d2 ==> d2 * time_step(d1, d2, steps) <= d1 * steps < d2 * (time_step(d1, d2, steps)
            + 1),
        d1 == d2 ==> time_step(d1, d2, steps) == steps - 1,
        cfg.freq_ratio_bits <= 12 ==> ratio_bits(cfg) == cfg.freq_ratio_bits,
        cfg.freq_ratio_bits > 12 ==> ratio_bits(cfg) == 12,
        16 <= cfg.time_ratio_steps <= 65_536 ==> time_steps(cfg) == cfg.time_ratio_steps,
        cfg.time_ratio_steps < 16 ==> time_steps(cfg) == 16,
        cfg.time_ratio_steps > 65_536 ==> time_steps(cfg) == 65_536,
        cfg.quant_band_power == 0 ==> double_frequency(cfg, p) == 2 * p.freq_bin_idx + 1,
        ({
            let width = pow2(cfg.quant_band_power as nat);
            let band = (double_frequency(cfg, p) - 1) / 2;
            &&& double_frequency(cfg, p) % 2 == 1
            &&& width * band <= p.freq_bin_idx < width * band + width
        }),
{
    let k = d1 * steps / d2;
    vstd::arithmetic::div_mod::lemma_fundamental_div_mod(d1 * steps, d2);
    vstd::arithmetic::div_mod::lemma_mod_bound(d1 * steps, d2);
    assert(d2 * (k + 1) == d2 * k + d2) by (nonlinear_arith);
    if d1 < d2 {
        assert(k < steps) by (nonlinear_arith)
            requires
                d2 * k <= d1 * steps,
                d1 < d2,
                0 < steps,
                0 <= d1,
        ;
    } else {
        assert(k >= steps) by (nonlinear_arith)
            requires
                d1 == d2,
                0 < d2,
                d1 * steps < d2 * k + d2,
        ;
    }
    let w = pow2(cfg.quant_band_power as nat) as int;
    vstd::arithmetic::power2::lemma_pow2_pos(cfg.quant_band_power as nat);
    vstd::arithmetic::power2::lemma2_to64();
    let bin = p.freq_bin_idx as int;
    vstd::arithmetic::div_mod::lemma_fundamental_div_mod(bin, w);
    vstd::arithmetic::div_mod::lemma_mod_bound(bin, w);
    assert(cfg.quant_band_power == 0 ==> bin / w == bin) by {
        if cfg.quant_band_power == 0 {
            assert(w == 1);
            vstd::arithmetic::div_mod::lemma_div_basics(bin);
        }
    }
    assert((double_frequency(cfg, p) - 1) / 2 == bin / w);
}

/// A triplet whose second and third event come at different times has three
/// fingerprints at the time of its anchor; they agree in both ratios, the
/// upper fields, and name the time step and its two neighbours, as far as
/// there are any. Events of one time have none.
pub proof fn law_triplets_name_neighbouring_time_steps(
    cfg: TripletsConfig,
    a: Peak,
    b: Peak,
    c: Peak,
)
    requires
        a.time_idx <= u32::MAX,
    ensures
        b.time_idx == c.time_idx ==> triplet(cfg, a, b, c).len() == 0,
        b.time_idx != c.time_idx ==> {
            let fps = triplet(cfg, a, b, c);
            let bits = ratio_bits(cfg);
            let f = double_frequency(cfg, a);
            let q1 = ratio_step(f, double_frequency(cfg, b), bits);
            let q2 = ratio_step(f, double_frequency(cfg, c), bits);
            let step = time_step(gap(a, b), gap(a, c), time_steps(cfg));
            let upper = q1 * pow2((32 - bits) as nat) + q2 * pow2((32 - 2 * bits) as nat);
            let unit = pow2((28 - 2 * bits) as nat);
            &&& fps.len() == 3
            &&& fps[0].t1 == a.time_idx && fps[1].t1 == a.time_idx && fps[2].t1 == a.time_idx
            &&& fps[1].hash == (upper + (step % 16) * unit) as u32
            &&& step > 0 ==> fps[0].hash == (upper + ((step - 1) % 16) * unit) as u32
            &&& step == 0 ==> fps[0].hash == fps[1].hash
            &&& step + 1 < time_steps(cfg) ==> fps[2].hash == (upper + ((step + 1) % 16)
                * unit) as u32
            &&& step + 1 == time_steps(cfg) ==> fps[2].hash == fps[1].hash
        },
{
}

/// The events that an anchor is combined with: of peaks in order of time, the
/// first ones after it, within its reach, as many as the fanout allows.
pub proof fn law_anchors_reach_the_next_events(
    peaks: Seq<Peak>,
    a: Peak,
    j: int,
    span: int,
    limit: int,
)
    requires
        0 <= j <= peaks.len(),
        0 <= limit,
        0 <= span,
        forall|x: int, y: int|
            0 <= x < y < peaks.len() ==> (#[trigger] peaks[x]).time_idx <= (
            #[trigger] peaks[y]).time_idx,
    ensures
        ({
            let later = peaks.skip(j).filter(
                |p: Peak| a.time_idx < p.time_idx <= a.time_idx + span,
            );
            let near = reach(peaks, a, j, span, limit);
            &&& near.len() == if later.len() <= limit {
                later.len() as int
            } else {
                limit
            }
            &&& forall|k: int| 0 <= k < near.len() ==> #[trigger] near[k] == later[k]
        }),
    decreases peaks.len() - j,
{
    let ok = |p: Peak| a.time_idx < p.time_idx <= a.time_idx + span;
    let later = peaks.skip(j).filter(ok);
    let near = reach(peaks, a, j, span, limit);
    if j == peaks.len() {
        assert(peaks.skip(j) =~= Seq::<Peak>::empty());
        reveal(Seq::filter);
    } else if gap(a, peaks[j]) > span {
        lemma_none_pass(peaks.skip(j), ok);
    } else {
        let rest = peaks.skip(j + 1);
        assert(peaks.skip(j) =~= seq![peaks[j]] + rest);
        lemma_filter_first(peaks[j], rest, ok);
        if gap(a, peaks[j]) == 0 {
            law_anchors_reach_the_next_events(peaks, a, j + 1, span, limit);
        } else if limit > 0 {
            law_anchors_reach_the_next_events(peaks, a, j + 1, span, limit - 1);
            let few = reach(peaks, a, j + 1, span, limit - 1);
            assert forall|k: int| 0 <= k < near.len() implies #[trigger] near[k] == later[k] by {
                if k > 0 {
                    assert(near[k] == few[k - 1]);
                }
            }
        }
    }
}

proof fn lemma_filter_first(x: Peak, rest: Seq<Peak>, ok: spec_fn(Peak) -> bool)
    ensures
        ok(x) ==> (seq![x] + rest).filter(ok) == seq![x] + rest.filter(ok),
        !ok(x) ==> (seq![x] + rest).filter(ok) == rest.filter(ok),
    decreases rest.len(),
{
    reveal(Seq::filter);
    let all = seq![x] + rest;
    if rest.len() == 0 {
        assert(all.drop_last() =~= Seq::<Peak>::empty());
        assert(all.last() == x);
        assert(rest.filter(ok) =~= Seq::<Peak>::empty());
        assert(all.drop_last().filter(ok) =~= Seq::<Peak>::empty());
        assert(ok(x) ==> all.filter(ok) =~= seq![x] + rest.filter(ok));
    } else {
        lemma_filter_first(x, rest.drop_last(), ok);
        assert(all.drop_last() =~= seq![x] + rest.drop_last());
        assert(all.last() == rest.last());
        assert(ok(x) ==> all.filter(ok) =~= seq![x] + rest.filter(ok));
    }
}

proof fn lemma_none_pass(s: Seq<Peak>, ok: spec_fn(Peak) -> bool)
    requires
        forall|i: int| 0 <= i < s.len() ==> !ok(#[trigger] s[i]),
    ensures
        s.filter(ok).len() == 0,
    decreases s.len(),
{
    reveal(Seq::filter);
    if s.len() > 0 {
        let r = s.drop_last();
        assert forall|i: int| 0 <= i < r.len() implies !ok(#[trigger] r[i]) by {
            assert(r[i] == s[i]);
        }
        lemma_none_pass(r, ok);
        assert(!ok(s[s.len() - 1]));
    }
}

/// Some triplet of anchor `i` has the fingerprint.
pub open spec fn anchor_has(
    cfg: TripletsConfig,
    peaks: Seq<Peak>,
    i: int,
    fp: TripletFp,
) -> bool {
    let near = reach(peaks, peaks[i], i + 1, cfg.span_frames as int, cfg.fanout as int);
    exists|j: int, k: int|
        0 <= j < k < near.len() && #[trigger] triplet(cfg, peaks[i], near[j], near[k]).contains(fp)
}

/// Every anchor is combined with any two of the events that it reaches, and
/// nothing else has fingerprints.
pub proof fn law_every_triplet_is_fingerprinted(
    cfg: TripletsConfig,
    peaks: Seq<Peak>,
    n: int,
    fp: TripletFp,
)
    requires
        0 <= n <= peaks.len(),
    ensures
        triplets(cfg, peaks, n).contains(fp) <==> exists|i: int|
            0 <= i < n && #[trigger] anchor_has(cfg, peaks, i, fp),
    decreases n,
{
    if n > 0 {
        law_every_triplet_is_fingerprinted(cfg, peaks, n - 1, fp);
        let a = peaks[n - 1];
        let near = reach(peaks, a, n, cfg.span_frames as int, cfg.fanout as int);
        lemma_anchor_contains(cfg, a, near, near.len() as int, fp);
        lemma_joined_contains(
            triplets(cfg, peaks, n - 1),
            with_anchor(cfg, a, near, near.len() as int),
            fp,
        );
        if with_anchor(cfg, a, near, near.len() as int).contains(fp) {
            assert(anchor_has(cfg, peaks, n - 1, fp));
        }
    }
}

proof fn lemma_joined_contains(a: Seq<TripletFp>, b: Seq<TripletFp>, fp: TripletFp)
    ensures
        (a + b).contains(fp) <==> a.contains(fp) || b.contains(fp),
{
    if a.contains(fp) {
        assert((a + b)[a.index_of(fp)] == fp);
    }
    if b.contains(fp) {
        assert((a + b)[a.len() + b.index_of(fp)] == fp);
    }
    if (a + b).contains(fp) {
        let k = (a + b).index_of(fp);
        if k < a.len() {
            assert(a[k] == fp);
        } else {
            assert(b[k - a.len()] == fp);
        }
    }
}

proof fn lemma_second_contains(
    cfg: TripletsConfig,
    a: Peak,
    near: Seq<Peak>,
    j: int,
    k: int,
    fp: TripletFp,
)
    requires
        0 <= j < near.len(),
        k <= near.len(),
    ensures
        with_second(cfg, a, near, j, k).contains(fp) <==> exists|m: int|
            j < m < k && #[trigger] triplet(cfg, a, near[j], near[m]).contains(fp),
    decreases k,
{
    if k > j + 1 && k > 0 {
        lemma_second_contains(cfg, a, near, j, k - 1, fp);
        lemma_joined_contains(
            with_second(cfg, a, near, j, k - 1),
            triplet(cfg, a, near[j], near[k - 1]),
            fp,
        );
        if triplet(cfg, a, near[j], near[k - 1]).contains(fp) {
            let m = k - 1;
            assert(j < m < k && triplet(cfg, a, near[j], near[m]).contains(fp));
        }
    }
}

proof fn lemma_anchor_contains(
    cfg: TripletsConfig,
    a: Peak,
    near: Seq<Peak>,
    j: int,
    fp: TripletFp,
)
    requires
        j <= near.len(),
    ensures
        with_anchor(cfg, a, near, j).contains(fp) <==> exists|x: int, y: int|
            0 <= x < j && x < y < near.len() && #[trigger] triplet(
                cfg,
                a,
                near[x],
                near[y],
            ).contains(fp),
    decreases j,
{
    if j > 0 {
        lemma_anchor_contains(cfg, a, near, j - 1, fp);
        lemma_second_contains(cfg, a, near, j - 1, near.len() as int, fp);
        lemma_joined_contains(
            with_anchor(cfg, a, near, j - 1),
            with_second(cfg, a, near, j - 1, near.len() as int),
            fp,
        );
        if exists|x: int, y: int|
            0 <= x < j && x < y < near.len() && #[trigger] triplet(
                cfg,
                a,
                near[x],
                near[y],
            ).contains(fp) {
            let (x, y) = choose|x: int, y: int|
                0 <= x < j && x < y < near.len() && #[trigger] triplet(
                    cfg,
                    a,
                    near[x],
                    near[y],
                ).contains(fp);
            if x == j - 1 {
                assert(with_second(cfg, a, near, j - 1, near.len() as int).contains(fp));
            }
        }
    }
}

} // verus!
