//! The `SFP1` wire format: batches of fingerprints that clients stream to the
//! matcher. Raw audio never leaves the client.
//!
//! ```text
//! magic "SFP1" | engine_version u32 | sample_rate_hz u32
//! count u32 | count x { hash u32, anchor_time u32 }
//! ```
//!
//! All numbers are little-endian.
use vstd::prelude::*;

use crate::bytes::{
    law_numbers_are_little_endian, lemma_byte_range, lemma_le_at_prefix, le_at, push_le, read_le,
    word_at,
};
use crate::landmark::Fingerprint32;
use crate::version::{current_fingerprint_version, version_of, EngineId, FingerprintVersion};

verus! {

/// Fingerprint version this engine emits.
pub fn engine_fingerprint_version() -> (v: FingerprintVersion)
    ensures
        v == version_of(EngineId::LandmarkV2),
{
    current_fingerprint_version(EngineId::LandmarkV2)
}

/// The bytes start with `SFP1`.
pub open spec fn has_batch_magic(b: Seq<u8>) -> bool {
    b.len() >= 4 && b[0] == 0x53 && b[1] == 0x46 && b[2] == 0x50 && b[3] == 0x31
}

/// Fingerprint `i` of a batch.
pub open spec fn batch_fingerprint(b: Seq<u8>, i: int) -> (u32, u32) {
    (le_at(b, 16 + 8 * i, 4) as u32, le_at(b, 20 + 8 * i, 4) as u32)
}

/// The bytes are a batch: a full header, and as many fingerprints as it
/// announces.
pub open spec fn is_batch(b: Seq<u8>) -> bool {
    &&& b.len() >= 16
    &&& has_batch_magic(b)
    &&& b.len() == 16 + 8 * le_at(b, 12, 4)
}

/// The fingerprints of a batch.
pub open spec fn batch_fingerprints(b: Seq<u8>) -> Seq<(u32, u32)> {
    Seq::new(le_at(b, 12, 4), |i: int| batch_fingerprint(b, i))
}

/// The bytes that stand for a list of fingerprints.
pub open spec fn encodes(b: Seq<u8>, fps: Seq<Fingerprint32>, sample_rate_hz: u32) -> bool {
    &&& b.len() == 16 + 8 * fps.len()
    &&& has_batch_magic(b)
    &&& le_at(b, 4, 4) == version_of(EngineId::LandmarkV2).major
    &&& le_at(b, 8, 4) == sample_rate_hz
    &&& le_at(b, 12, 4) == fps.len() % 0x1_0000_0000
    &&& forall|i: int|
        0 <= i < fps.len() ==> #[trigger] batch_fingerprint(b, i) == (
            fps[i].hash,
            fps[i].anchor_time,
        )
}

/// Serialize finished fingerprints into the batch format. `out` is cleared
/// first.
pub fn encode_batch(fps: &[Fingerprint32], sample_rate_hz: u32, out: &mut Vec<u8>)
    ensures
        encodes(final(out)@, fps@, sample_rate_hz),
{
    out.clear();
    out.push(0x53);
    out.push(0x46);
    out.push(0x50);
    out.push(0x31);
    let ver: FingerprintVersion = engine_fingerprint_version();
    let ghost h0 = out@;
    push_le(out, ver.major as u64, 4);
    let ghost h1 = out@;
    push_le(out, sample_rate_hz as u64, 4);
    let ghost h2 = out@;
    push_le(out, fps.len() as u64, 4);
    let ghost h3 = out@;
    proof {
        lemma_byte_range();
        crate::bytes::lemma_le_bytes_len(ver.major as nat, 4);
        crate::bytes::lemma_le_bytes_len(sample_rate_hz as nat, 4);
        crate::bytes::lemma_le_bytes_len(fps.len() as nat, 4);
        let t1 = crate::bytes::le_bytes(sample_rate_hz as nat, 4);
        let t2 = crate::bytes::le_bytes(fps.len() as nat, 4);
        lemma_le_at_prefix(h1, t1, 4, 4);
        lemma_le_at_prefix(h2, t2, 4, 4);
        lemma_le_at_prefix(h2, t2, 8, 4);
    }
    let mut i: usize = 0;
    while i < fps.len()
        invariant
            i <= fps.len(),
            out.len() == 16 + 8 * i,
            has_batch_magic(out@),
            le_at(out@, 4, 4) == version_of(EngineId::LandmarkV2).major,
            le_at(out@, 8, 4) == sample_rate_hz,
            le_at(out@, 12, 4) == fps.len() as nat % 0x1_0000_0000,
            forall|k: int|
                0 <= k < i ==> #[trigger] batch_fingerprint(out@, k) == (
                    fps[k].hash,
                    fps[k].anchor_time,
                ),
        decreases fps.len() - i,
    {
        let fp: Fingerprint32 = fps[i];
        let ghost s0 = out@;
        push_le(out, fp.hash as u64, 4);
        let ghost s1 = out@;
        push_le(out, fp.anchor_time as u64, 4);
        proof {
            lemma_byte_range();
            let a = crate::bytes::le_bytes(fp.hash as nat, 4);
            let b = crate::bytes::le_bytes(fp.anchor_time as nat, 4);
            assert(out@ =~= s0 + (a + b));
            lemma_le_at_prefix(s0, a + b, 4, 4);
            lemma_le_at_prefix(s0, a + b, 8, 4);
            lemma_le_at_prefix(s0, a + b, 12, 4);
            lemma_le_at_prefix(s1, b, 16 + 8 * i, 4);
            assert forall|k: int| 0 <= k < i + 1 implies #[trigger] batch_fingerprint(out@, k) == (
                fps[k].hash,
                fps[k].anchor_time,
            ) by {
                if k < i {
                    assert(batch_fingerprint(s0, k) == (fps[k].hash, fps[k].anchor_time));
                    lemma_le_at_prefix(s0, a + b, 16 + 8 * k, 4);
                    lemma_le_at_prefix(s0, a + b, 20 + 8 * k, 4);
                }
            }
        }
        i = i + 1;
    }
}

/// Decode a batch: returns `(sample_rate_hz, fingerprints)`.
pub fn decode_sfp_batch(bytes: &[u8]) -> (r: Option<(u32, Vec<(u32, u32)>)>)
    ensures
        r is Some <==> is_batch(bytes@),
        r matches Some((sample_rate, fps)) ==> sample_rate == le_at(bytes@, 8, 4) && fps@
            == batch_fingerprints(bytes@),
{
    if bytes.len() < 16 {
        return None;
    }
    if bytes[0] != 0x53 || bytes[1] != 0x46 || bytes[2] != 0x50 || bytes[3] != 0x31 {
        return None;
    }
    proof {
        lemma_byte_range();
    }
    let sample_rate: u32 = read_le(bytes, 8, 4) as u32;
    let count: u64 = read_le(bytes, 12, 4);
    if bytes.len() as u64 != 16 + count * 8 {
        return None;
    }
    let n: usize = count as usize;
    let mut out: Vec<(u32, u32)> = Vec::new();
    let mut i: usize = 0;
    while i < n
        invariant
            i <= n,
            n == le_at(bytes@, 12, 4),
            bytes.len() == 16 + 8 * n,
            out.len() == i,
            forall|k: int| 0 <= k < i ==> #[trigger] out[k] == batch_fingerprint(bytes@, k),
        decreases n - i,
    {
        proof {
            lemma_byte_range();
        }
        let o: usize = 16 + i * 8;
        let h: u32 = read_le(bytes, o, 4) as u32;
        let t: u32 = read_le(bytes, o + 4, 4) as u32;
        out.push((h, t));
        i = i + 1;
    }
    assert(out@ =~= batch_fingerprints(bytes@));
    Some((sample_rate, out))
}

/// Decoding gives back what was encoded: every fingerprint, in order, and the
/// sample rate.
pub proof fn law_decode_inverts_encode(b: Seq<u8>, fps: Seq<Fingerprint32>, sample_rate_hz: u32)
    requires
        encodes(b, fps, sample_rate_hz),
        fps.len() < 0x1_0000_0000,
    ensures
        is_batch(b),
        le_at(b, 8, 4) == sample_rate_hz,
        batch_fingerprints(b) == fps.map_values(|f: Fingerprint32| (f.hash, f.anchor_time)),
{
    assert forall|i: int| 0 <= i < fps.len() implies batch_fingerprints(b)[i] == (
        fps[i].hash,
        fps[i].anchor_time,
    ) by {
        assert(batch_fingerprint(b, i) == (fps[i].hash, fps[i].anchor_time));
    }
    assert(batch_fingerprints(b) =~= fps.map_values(
        |f: Fingerprint32| (f.hash, f.anchor_time),
    ));
}

/// No proper prefix of a batch is a batch.
pub proof fn law_truncated_batches_are_rejected(b: Seq<u8>, cut: int)
    requires
        is_batch(b),
        0 <= cut < b.len(),
    ensures
        !is_batch(b.take(cut)),
{
    if cut >= 16 {
        assert(b.take(cut).subrange(12, 16) =~= b.subrange(12, 16));
    }
}

/// A batch byte by byte: the letters SFP1, three numbers of four bytes, and
/// eight bytes for each fingerprint: its hash, then its anchor time. Nothing
/// else is a batch.
pub proof fn law_batches_are_read_byte_by_byte(b: Seq<u8>)
    ensures
        is_batch(b) <==> b.len() >= 16 && b[0] == 'S' as u8 && b[1] == 'F' as u8 && b[2]
            == 'P' as u8 && b[3] == '1' as u8 && b.len() == 16 + 8 * word_at(b, 12),
        is_batch(b) ==> batch_fingerprints(b).len() == word_at(b, 12),
        is_batch(b) ==> forall|i: int|
            0 <= i < word_at(b, 12) ==> (#[trigger] batch_fingerprints(b)[i]).0 == word_at(
                b,
                16 + 8 * i,
            ) && batch_fingerprints(b)[i].1 == word_at(b, 20 + 8 * i),
{
    if b.len() >= 16 {
        law_numbers_are_little_endian(b, 12);
        if is_batch(b) {
            assert forall|i: int| 0 <= i < word_at(b, 12) implies (
            #[trigger] batch_fingerprints(b)[i]).0 == word_at(b, 16 + 8 * i)
                && batch_fingerprints(b)[i].1 == word_at(b, 20 + 8 * i) by {
                law_numbers_are_little_endian(b, 16 + 8 * i);
                law_numbers_are_little_endian(b, 20 + 8 * i);
            }
        }
    }
}

/// What a client sends: the same layout, with the format's major version and
/// the sample rate in between.
pub proof fn law_batches_are_written_byte_by_byte(
    b: Seq<u8>,
    fps: Seq<Fingerprint32>,
    sample_rate_hz: u32,
)
    requires
        encodes(b, fps, sample_rate_hz),
        fps.len() <= u32::MAX,
    ensures
        b.len() == 16 + 8 * fps.len(),
        b[0] == 'S' as u8 && b[1] == 'F' as u8 && b[2] == 'P' as u8 && b[3] == '1' as u8,
        word_at(b, 4) == 1,
        word_at(b, 8) == sample_rate_hz,
        word_at(b, 12) == fps.len(),
        forall|i: int|
            0 <= i < fps.len() ==> word_at(b, 16 + 8 * i) == (#[trigger] fps[i]).hash && word_at(
                b,
                20 + 8 * i,
            ) == fps[i].anchor_time,
{
    law_numbers_are_little_endian(b, 4);
    law_numbers_are_little_endian(b, 8);
    law_numbers_are_little_endian(b, 12);
    assert forall|i: int| 0 <= i < fps.len() implies word_at(b, 16 + 8 * i) == (
    #[trigger] fps[i]).hash && word_at(b, 20 + 8 * i) == fps[i].anchor_time by {
        law_numbers_are_little_endian(b, 16 + 8 * i);
        law_numbers_are_little_endian(b, 20 + 8 * i);
        assert(batch_fingerprint(b, i) == (fps[i].hash, fps[i].anchor_time));
    }
}

} // verus!
