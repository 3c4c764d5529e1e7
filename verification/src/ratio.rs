//! Exact comparison of ratios of large integers.
use vstd::prelude::*;

verus! {

/// The product `x * k` as two words of 64 bits.
fn wide_mul(x: u128, k: u32) -> (r: (u128, u128))
    ensures
        r.0 * 0x1_0000_0000_0000_0000 + r.1 == x * k,
        r.1 < 0x1_0000_0000_0000_0000,
{
    let base: u128 = 0x1_0000_0000_0000_0000;
    let high: u128 = x / base;
    let low: u128 = x % base;
    let kk: u128 = k as u128;
    assert(x == high * base + low);
    assert(low * kk <= 0xffff_ffff_ffff_ffff * 0xffff_ffff) by (nonlinear_arith)
        requires
            low <= 0xffff_ffff_ffff_ffff,
            kk <= 0xffff_ffff,
    ;
    assert(high * kk <= 0xffff_ffff_ffff_ffff * 0xffff_ffff) by (nonlinear_arith)
        requires
            high <= 0xffff_ffff_ffff_ffff,
            kk <= 0xffff_ffff,
    ;
    let t: u128 = low * kk;
    let u: u128 = high * kk;
    let carry: u128 = t / base;
    let rest: u128 = t % base;
    assert((u + carry) * base + rest == x * k) by (nonlinear_arith)
        requires
            u == high * kk,
            t == low * kk,
            t == carry * base + rest,
            x == high * base + low,
            kk == k,
    ;
    (u + carry, rest)
}

/// `x / y >= num / den`, compared without division: `x * den >= y * num`.
pub fn ratio_at_least(x: u128, y: u128, num: u32, den: u32) -> (r: bool)
    ensures
        r == (x * den >= y * num),
{
    let (ah, al) = wide_mul(x, den);
    let (bh, bl) = wide_mul(y, num);
    ah > bh || (ah == bh && al >= bl)
}

} // verus!
