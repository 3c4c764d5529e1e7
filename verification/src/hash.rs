//! Compact hash packing.
//!
//! A landmark hash is a true 32-bit value:
//!
//! ```text
//! bit 31..20 : f1 (quantized anchor frequency bin)
//! bit 19..8  : f2 (quantized target frequency bin)
//! bit  7..0  : delta-t in frames
//! ```
//!
//! The top half selects one of 65,536 buckets of the segment directory; the
//! low half is searched within the bucket.
use vstd::prelude::*;

verus! {

pub const HASH32_F_BITS: u32 = 12;

pub const HASH32_DT_BITS: u32 = 8;

pub const HASH32_F_MAX: u16 = 4095;

pub const HASH32_DT_MAX: u8 = 255;

/// A packed 32-bit landmark hash.
#[derive(Debug, Clone, Copy, PartialEq, Eq, Hash, PartialOrd, Ord, Structural)]
pub struct Hash32(pub u32);

/// The three fields of a [`Hash32`].
#[derive(Debug, Clone, Copy, PartialEq, Eq, Structural)]
pub struct Hash32Parts {
    pub f1: u16,
    pub f2: u16,
    pub dt: u8,
}

/// The packed value as a number: the fields, reduced to their widths, side
/// by side.
pub open spec fn packed_hash32(f1: u16, f2: u16, dt: u8) -> int {
    (f1 % 4096) * 0x10_0000 + (f2 % 4096) * 0x100 + dt
}

/// Pack `(f1, f2, dt)` into a 32-bit hash. Inputs are masked to their field
/// widths so callers never need pre-clipped values.
pub fn pack_hash32(f1: u16, f2: u16, dt: u8) -> (hash: Hash32)
    ensures
        hash.0 == packed_hash32(f1, f2, dt),
{
    let a: u32 = (f1 & HASH32_F_MAX) as u32;
    let b: u32 = (f2 & HASH32_F_MAX) as u32;
    let c: u32 = (dt & HASH32_DT_MAX) as u32;
    let packed: u32 = (a << (HASH32_F_BITS + HASH32_DT_BITS)) | (b << HASH32_DT_BITS) | c;
    assert(packed == (f1 % 4096) * 0x10_0000 + (f2 % 4096) * 0x100 + dt) by (bit_vector)
        requires
            a == (f1 & 4095) as u32,
            b == (f2 & 4095) as u32,
            c == (dt & 255) as u32,
            packed == (a << 20u32) | (b << 8u32) | c,
    ;
    Hash32(packed)
}

/// The fields of a packed hash.
pub open spec fn hash32_parts(hash: Hash32) -> Hash32Parts {
    Hash32Parts {
        f1: (hash.0 / 0x10_0000) as u16,
        f2: (hash.0 / 0x100 % 4096) as u16,
        dt: (hash.0 % 256) as u8,
    }
}

/// Inverse of [`pack_hash32`] (masking makes it lossy for out-of-range
/// input).
pub fn unpack_hash32(hash: Hash32) -> (parts: Hash32Parts)
    ensures
        parts == hash32_parts(hash),
{
    let h: u32 = hash.0;
    let f1: u16 = ((h >> (HASH32_F_BITS + HASH32_DT_BITS)) & HASH32_F_MAX as u32) as u16;
    let f2: u16 = ((h >> HASH32_DT_BITS) & HASH32_F_MAX as u32) as u16;
    let dt: u8 = (h & HASH32_DT_MAX as u32) as u8;
    assert(f1 == h / 0x10_0000 && f2 == h / 0x100 % 4096 && dt == h % 256) by (bit_vector)
        requires
            f1 == ((h >> 20u32) & 4095) as u16,
            f2 == ((h >> 8u32) & 4095) as u16,
            dt == (h & 255) as u8,
    ;
    Hash32Parts { f1, f2, dt }
}

impl Hash32 {
    /// High 16 bits: the direct bucket index of the segment directory.
    pub fn high16(self) -> (high: u16)
        ensures
            high == self.0 / 0x1_0000,
    {
        let h: u32 = self.0;
        assert((h >> 16u32) as u16 == h / 0x1_0000) by (bit_vector);
        (h >> 16) as u16
    }

    /// Low 16 bits: searched within a bucket.
    pub fn low16(self) -> (low: u16)
        ensures
            low == self.0 % 0x1_0000,
    {
        let h: u32 = self.0;
        assert(h as u16 == h % 0x1_0000) by (bit_vector);
        #[verifier::truncate]
        (h as u16)
    }
}

/// Unpacking gives back what was packed, for every in-range triple.
pub proof fn law_unpack_inverts_pack(f1: u16, f2: u16, dt: u8)
    requires
        f1 <= HASH32_F_MAX,
        f2 <= HASH32_F_MAX,
    ensures
        hash32_parts(Hash32(packed_hash32(f1, f2, dt) as u32)) == (Hash32Parts { f1, f2, dt }),
{
}

/// Packing gives back the hash that was unpacked: every 32-bit value is the
/// packing of exactly one in-range triple.
pub proof fn law_pack_inverts_unpack(hash: Hash32)
    ensures
        ({
            let parts = hash32_parts(hash);
            &&& parts.f1 <= HASH32_F_MAX
            &&& parts.f2 <= HASH32_F_MAX
            &&& packed_hash32(parts.f1, parts.f2, parts.dt) == hash.0
        }),
{
}

/// The two halves of a hash put together again are the hash.
pub proof fn law_halves_reconstruct(hash: Hash32)
    ensures
        (hash.0 / 0x1_0000) * 0x1_0000 + hash.0 % 0x1_0000 == hash.0,
{
}

/// Pack a hash of the first-generation engine: `(f1:10, f2:10, dt:8)` in the
/// low 28 bits of a `u64`.
pub fn pack_legacy_hash(f1: u64, f2: u64, dt: u64) -> (hash: u64)
    ensures
        hash == legacy_hash_value(f1, f2, dt),
{
    let a: u64 = f1 & 1023;
    let b: u64 = f2 & 1023;
    let c: u64 = dt & 255;
    let packed: u64 = (a << 18) | (b << 8) | c;
    assert(packed == (f1 % 1024) * 0x4_0000 + (f2 % 1024) * 0x100 + dt % 256) by (bit_vector)
        requires
            a == f1 & 1023,
            b == f2 & 1023,
            c == dt & 255,
            packed == (a << 18u64) | (b << 8u64) | c,
    ;
    packed
}

/// A first-generation hash as a number.
pub open spec fn legacy_hash_value(f1: u64, f2: u64, dt: u64) -> int {
    (f1 % 1024) * 0x4_0000 + (f2 % 1024) * 0x100 + dt % 256
}

/// Where the fields of a packed hash stand: twelve bits of each band, and
/// eight of the time distance.
pub proof fn lemma_packed_fields(f1: u16, f2: u16, dt: u8)
    ensures
        0 <= packed_hash32(f1, f2, dt) <= u32::MAX,
        packed_hash32(f1, f2, dt) / 0x10_0000 == f1 as int % 0x1000,
        packed_hash32(f1, f2, dt) / 0x100 % 0x1000 == f2 as int % 0x1000,
        packed_hash32(f1, f2, dt) % 0x100 == dt,
{
}

/// Where the fields of a hash stand. In 32 bits: twelve bits of each band
/// above eight of the time distance. In the 28 bits of the first generation:
/// ten bits of each bin above eight of the distance. What does not fit its
/// field is cut off.
pub proof fn law_hash_fields_stand_side_by_side(
    f1: u16,
    f2: u16,
    dt: u8,
    g1: u64,
    g2: u64,
    d: u64,
)
    ensures
        packed_hash32(f1, f2, dt) == 1_048_576 * (f1 as int % 4096) + 256 * (f2 as int % 4096)
            + dt,
        legacy_hash_value(g1, g2, d) == 262_144 * (g1 as int % 1024) + 256 * (g2 as int % 1024) + (
        d as int % 256),
        HASH32_F_MAX == 4095 && HASH32_DT_MAX == 255,
{
}

} // verus!
