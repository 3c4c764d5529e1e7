//! The `.siv` segment format.
//!
//! Layout (all little-endian):
//!
//! ```text
//! header (44 B)
//!   magic "SIV1" | fmt_ver u32 | fp_ver u16.u16 | n_recs u64
//!   n_hashes u64 | n_postings u64 | checksum u32 (FNV-1a) | reserved u32
//! bucket directory (65,537 x u64)
//!   dir[b]    = absolute offset of the first hash entry whose high16 >= b
//!   dir[2^16] = one-past-the-end sentinel
//! hash entries (12 B each, sorted by full u32 hash)
//!   hash_low16 u16 | postings_off u40 | doc_freq u24 | pad u16
//! postings (8 B each)
//!   recording_id u32 | anchor_time u24 | flags u8
//! ```
//!
//! Lookup: `hash -> dir[high] .. dir[high+1]` entry range, binary search on
//! the low half, contiguous posting run. Empty buckets collapse to empty
//! ranges.
use vstd::prelude::*;

use crate::bytes::{
    byte_range, law_numbers_are_little_endian, le_at, le_bytes, lemma_byte_range,
    lemma_le_bytes_len, push_le, read_le, word_at,
};
use crate::ids::{decimal, decimal_digits, RecordingId};
use crate::postings::{
    all_tidy, document_frequency, lemma_total_grows, list_total, tidied, with_posting, with_recording,
    PostingMap,
};
use crate::sort::{lemma_permuted_contains, lemma_sum_permuted, lemma_sum_push, ordered, permuted, sorted, Ranked};
use crate::text::{chars_of, hex, string_of, to_hex};
use crate::version::FingerprintVersion;
use std::collections::HashSet;

verus! {

pub use crate::postings::Posting;

/// Changes with the on-disk layout.
pub const INDEX_FORMAT_VERSION: u32 = 1;

pub const HEADER_LEN: usize = 44;

pub const DIR_SLOTS: usize = 65_537;

pub const DIR_LEN: usize = 524_296;

/// Offset of the hash entries: header and directory come first.
pub const ENTRIES_BASE: usize = 524_340;

/// What the header of a segment says.
#[derive(Debug, Clone, Copy, PartialEq, Eq, Structural)]
pub struct SegmentHeader {
    pub index_format_version: u32,
    pub fingerprint_version: FingerprintVersion,
    pub recording_count: u64,
    pub hash_count: u64,
    /// Postings in the file.
    pub posting_count: u64,
}

// ---- packing ----

/// The posting stored in the eight bytes at `at`.
pub open spec fn posting_at(b: Seq<u8>, at: int) -> Posting {
    Posting {
        recording: RecordingId(le_at(b, at, 4) as u32),
        anchor_time: (b[at + 4] + 0x100 * b[at + 5] + 0x1_0000 * b[at + 6]) as u32,
    }
}

/// A posting as a segment can hold it: the anchor time keeps 24 bits.
pub open spec fn stored_posting(p: Posting) -> Posting {
    Posting { recording: p.recording, anchor_time: (p.anchor_time % 0x100_0000) as u32 }
}

/// Pack a posting into its 8-byte on-disk form.
pub fn pack_posting(recording: RecordingId, anchor_time: u32, flags: u8) -> (out: [u8; 8])
    ensures
        posting_at(out@, 0) == stored_posting(Posting { recording, anchor_time }),
        out[7] == flags,
{
    let mut rec: Vec<u8> = Vec::new();
    push_le(&mut rec, recording.0 as u64, 4);
    let out: [u8; 8] = [
        rec[0],
        rec[1],
        rec[2],
        rec[3],
        (anchor_time % 0x100) as u8,
        (anchor_time / 0x100 % 0x100) as u8,
        (anchor_time / 0x1_0000 % 0x100) as u8,
        flags,
    ];
    proof {
        lemma_byte_range();
        assert(out@.subrange(0, 4) =~= rec@.subrange(0, 4));
    }
    out
}

/// The posting in the eight bytes at `at`.
pub fn unpack_posting(bytes: &[u8], at: usize) -> (p: Posting)
    requires
        at + 8 <= bytes.len(),
    ensures
        p == posting_at(bytes@, at as int),
{
    proof {
        lemma_byte_range();
    }
    let rec: u32 = read_le(bytes, at, 4) as u32;
    let t: u32 = bytes[at + 4] as u32 + 0x100 * bytes[at + 5] as u32 + 0x1_0000 * bytes[at
        + 6] as u32;
    Posting { recording: RecordingId::new(rec), anchor_time: t }
}

/// One step of the FNV-1a hash.
pub open spec fn fnv_step(h: u32, b: u8) -> u32 {
    fnv_mul(h ^ (b as u32))
}

/// Multiplication by the FNV prime, modulo `2^32`.
pub open spec fn fnv_mul(h: u32) -> u32 {
    ((h as nat * 0x0100_0193) % 0x1_0000_0000) as u32
}

/// FNV-1a over a sequence of bytes.
pub open spec fn fnv1a_of(s: Seq<u8>) -> u32
    decreases s.len(),
{
    if s.len() == 0 {
        0x811C_9DC5
    } else {
        fnv_step(fnv1a_of(s.drop_last()), s.last())
    }
}

/// FNV-1a of `bytes`.
pub fn fnv1a(bytes: &[u8]) -> (h: u32)
    ensures
        h == fnv1a_of(bytes@),
{
    let mut h: u32 = 0x811C_9DC5;
    let mut i: usize = 0;
    while i < bytes.len()
        invariant
            i <= bytes.len(),
            h == fnv1a_of(bytes@.take(i as int)),
        decreases bytes.len() - i,
    {
        assert(bytes@.take(i + 1).drop_last() =~= bytes@.take(i as int));
        h = (h ^ (bytes[i] as u32)).wrapping_mul(0x0100_0193);
        i = i + 1;
    }
    assert(bytes@.take(i as int) =~= bytes@);
    h
}

/// Offset just past the hash entries, as the header announces them.
pub open spec fn entries_end(b: Seq<u8>) -> int {
    ENTRIES_BASE + 12 * le_at(b, 20, 8)
}

/// Checksum over a segment body: directory, entries and postings.
pub open spec fn body_checksum_of(b: Seq<u8>) -> u32 {
    let dir = fnv1a_of(b.subrange(HEADER_LEN as int, ENTRIES_BASE as int));
    let entries = fnv1a_of(b.subrange(ENTRIES_BASE as int, entries_end(b)));
    let postings = fnv1a_of(b.subrange(entries_end(b), b.len() as int));
    fnv_mul(fnv_mul(dir) ^ entries) ^ postings
}

/// Checksum over a segment body. The number of hashes is read from the
/// header.
pub fn body_checksum(map: &[u8]) -> (h: u32)
    requires
        map.len() >= ENTRIES_BASE,
        entries_end(map@) <= map.len(),
    ensures
        h == body_checksum_of(map@),
{
    let n: u64 = read_le(map, 20, 8);
    let end: usize = ENTRIES_BASE + (n as usize) * 12;
    let dir: u32 = fnv1a(&map[HEADER_LEN..ENTRIES_BASE]);
    let entries: u32 = fnv1a(&map[ENTRIES_BASE..end]);
    let postings: u32 = fnv1a(&map[end..map.len()]);
    let h: u32 = dir.wrapping_mul(0x0100_0193) ^ entries;
    h.wrapping_mul(0x0100_0193) ^ postings
}

/// Append the 40 low bits of `v`.
pub fn put_u40(buf: &mut Vec<u8>, v: u64)
    ensures
        final(buf)@ == old(buf)@ + le_bytes(v as nat, 5),
{
    push_le(buf, v, 5);
}

/// The 40-bit number at `at`.
pub fn get_u40(buf: &[u8], at: usize) -> (v: u64)
    requires
        at + 5 <= buf.len(),
    ensures
        v == le_at(buf@, at as int, 5),
        v < 0x100_0000_0000,
{
    proof {
        lemma_byte_range();
    }
    read_le(buf, at, 5)
}

/// Append the 24 low bits of `v`.
pub fn put_u24(buf: &mut Vec<u8>, v: u64)
    ensures
        final(buf)@ == old(buf)@ + le_bytes(v as nat, 3),
{
    push_le(buf, v, 3);
}

/// The 24-bit number at `at`.
pub fn get_u24(buf: &[u8], at: usize) -> (v: u64)
    requires
        at + 3 <= buf.len(),
    ensures
        v == le_at(buf@, at as int, 3),
        v < 0x100_0000,
{
    proof {
        lemma_byte_range();
    }
    read_le(buf, at, 3)
}

// ---- reading ----

/// The directory value of bucket `slot`.
pub open spec fn dir_value(b: Seq<u8>, slot: int) -> nat {
    le_at(b, HEADER_LEN + 8 * slot, 8)
}

/// Index of the first entry of bucket `slot` or a later one.
pub open spec fn first_entry(b: Seq<u8>, slot: int) -> int {
    (dir_value(b, slot) - ENTRIES_BASE) / 12
}

/// Low half of the hash of entry `i`.
pub open spec fn entry_low(b: Seq<u8>, i: int) -> nat {
    le_at(b, ENTRIES_BASE + 12 * i, 2)
}

/// Where the postings of entry `i` start.
pub open spec fn entry_offset(b: Seq<u8>, i: int) -> nat {
    le_at(b, ENTRIES_BASE + 12 * i + 2, 5)
}

/// Document frequency of entry `i`.
pub open spec fn entry_df(b: Seq<u8>, i: int) -> nat {
    le_at(b, ENTRIES_BASE + 12 * i + 7, 3)
}

/// Number of hashes, as the header announces it.
pub open spec fn hash_count_of(b: Seq<u8>) -> nat {
    le_at(b, 20, 8)
}

/// What the header bytes say.
pub open spec fn header_of(b: Seq<u8>) -> SegmentHeader {
    SegmentHeader {
        index_format_version: le_at(b, 4, 4) as u32,
        fingerprint_version: FingerprintVersion {
            major: le_at(b, 8, 2) as u16,
            minor: le_at(b, 10, 2) as u16,
        },
        recording_count: le_at(b, 12, 8) as u64,
        hash_count: le_at(b, 20, 8) as u64,
        posting_count: le_at(b, 28, 8) as u64,
    }
}

/// Why bytes are not a segment.
#[derive(Debug, Clone, Copy, PartialEq, Eq, Structural)]
pub enum OpenError {
    BadMagic,
    UnsupportedFormat(u32),
    ChecksumMismatch { expected: u32, found: u32 },
    /// The segment was built with another fingerprint format than the
    /// catalog claims.
    VersionMismatch { segment: FingerprintVersion, manifest: FingerprintVersion },
}

/// The bytes start with `SIV1` and hold at least a header and a directory.
pub open spec fn has_segment_magic(b: Seq<u8>) -> bool {
    b.len() >= ENTRIES_BASE && b[0] == 0x53 && b[1] == 0x49 && b[2] == 0x56 && b[3] == 0x31
}

/// What opening the bytes gives: the header, or the first thing wrong with
/// them.
pub open spec fn open_outcome(b: Seq<u8>) -> Result<SegmentHeader, OpenError> {
    if !has_segment_magic(b) {
        Err(OpenError::BadMagic)
    } else if le_at(b, 4, 4) != INDEX_FORMAT_VERSION {
        Err(OpenError::UnsupportedFormat(le_at(b, 4, 4) as u32))
    } else if entries_end(b) > b.len() {
        Err(OpenError::BadMagic)
    } else if le_at(b, 36, 4) != body_checksum_of(b) {
        Err(
            OpenError::ChecksumMismatch {
                expected: le_at(b, 36, 4) as u32,
                found: body_checksum_of(b),
            },
        )
    } else {
        Ok(header_of(b))
    }
}

/// Every bucket of the directory is a run of whole entries, in order, inside
/// the entry region.
pub open spec fn directory_ok(b: Seq<u8>) -> bool {
    &&& forall|slot: int|
        0 <= slot <= 0x1_0000 ==> {
            &&& ENTRIES_BASE <= #[trigger] dir_value(b, slot) <= entries_end(b)
            &&& (dir_value(b, slot) - ENTRIES_BASE) % 12 == 0
        }
    &&& forall|slot: int, next: int|
        0 <= slot <= next <= 0x1_0000 ==> #[trigger] dir_value(b, slot) <= #[trigger] dir_value(
            b,
            next,
        )
}

/// Within each bucket the entries ascend.
pub open spec fn buckets_ascend(b: Seq<u8>) -> bool {
    forall|slot: int, i: int, j: int|
        #![trigger first_entry(b, slot), entry_low(b, i), entry_low(b, j)]
        0 <= slot < 0x1_0000 && first_entry(b, slot) <= i < j < first_entry(b, slot + 1)
            ==> entry_low(b, i) < entry_low(b, j)
}

/// Entry `i` is the entry of `hash`.
pub open spec fn is_entry_of(b: Seq<u8>, i: int, hash: u32) -> bool {
    &&& first_entry(b, hash as int / 0x1_0000) <= i < first_entry(b, hash as int / 0x1_0000 + 1)
    &&& entry_low(b, i) == hash % 0x1_0000
}

/// Where the posting run of entry `i` ends: at the next entry's run, or at
/// the end of the bytes.
pub open spec fn run_end(b: Seq<u8>, i: int) -> int {
    if i + 1 < hash_count_of(b) && entry_offset(b, i + 1) < b.len() {
        entry_offset(b, i + 1) as int
    } else {
        b.len() as int
    }
}

/// Number of postings in the run of entry `i`.
pub open spec fn run_len(b: Seq<u8>, i: int) -> nat {
    if entry_offset(b, i) < run_end(b, i) {
        ((run_end(b, i) - entry_offset(b, i)) / 8) as nat
    } else {
        0
    }
}

/// The postings of entry `i`.
pub open spec fn run_postings(b: Seq<u8>, i: int) -> Seq<Posting> {
    Seq::new(run_len(b, i), |k: int| posting_at(b, entry_offset(b, i) + 8 * k))
}

/// The entry at which bisecting the entries `lo..hi` for a low half ends.
pub open spec fn bisected(b: Seq<u8>, low: nat, lo: int, hi: int) -> Option<int>
    decreases hi - lo,
{
    if lo >= hi {
        None
    } else {
        let mid = lo + (hi - lo) / 2;
        if entry_low(b, mid) == low {
            Some(mid)
        } else if entry_low(b, mid) < low {
            bisected(b, low, mid + 1, hi)
        } else {
            bisected(b, low, lo, mid)
        }
    }
}

/// The entry that a search for `hash` finds in its bucket. Where the entries
/// of a bucket ascend, every hash is found that has an entry:
/// [`law_search_finds_every_entry`].
pub open spec fn found_entry(b: Seq<u8>, hash: u32) -> Option<int> {
    bisected(
        b,
        (hash % 0x1_0000) as nat,
        first_entry(b, hash as int / 0x1_0000),
        first_entry(b, hash as int / 0x1_0000 + 1),
    )
}

/// What looking up the document frequency of `hash` gives: that of its entry.
pub open spec fn frequency_answers(b: Seq<u8>, hash: u32, r: Option<u64>) -> bool {
    match found_entry(b, hash) {
        Some(i) => r matches Some(df) && df == entry_df(b, i),
        None => r is None,
    }
}

/// What looking up `hash` gives: the run of its entry, or nothing.
pub open spec fn lookup_answers(b: Seq<u8>, hash: u32, found: bool, out: Seq<Posting>) -> bool {
    match found_entry(b, hash) {
        Some(i) => found && out == run_postings(b, i),
        None => !found && out.len() == 0,
    }
}

/// Bisecting finds an entry with the low half, if any; where the entries
/// ascend, it finds the one there is.
proof fn lemma_bisected(b: Seq<u8>, low: nat, lo: int, hi: int)
    ensures
        bisected(b, low, lo, hi) matches Some(i) ==> lo <= i < hi && entry_low(b, i) == low,
        (forall|i: int, j: int|
            #![trigger entry_low(b, i), entry_low(b, j)]
            lo <= i < j < hi ==> entry_low(b, i) < entry_low(b, j)) && bisected(
            b,
            low,
            lo,
            hi,
        ) is None ==> forall|i: int| lo <= i < hi ==> #[trigger] entry_low(b, i) != low,
    decreases hi - lo,
{
    if lo < hi {
        let mid = lo + (hi - lo) / 2;
        if entry_low(b, mid) < low {
            lemma_bisected(b, low, mid + 1, hi);
        } else if entry_low(b, mid) > low {
            lemma_bisected(b, low, lo, mid);
        }
    }
}

/// What a search finds is an entry of the hash; where the entries of each
/// bucket ascend, as they do in every segment that was built, it misses none.
pub proof fn law_search_finds_every_entry(b: Seq<u8>, hash: u32)
    ensures
        found_entry(b, hash) matches Some(i) ==> is_entry_of(b, i, hash),
        found_entry(b, hash) is None && buckets_ascend(b) ==> forall|i: int|
            !is_entry_of(b, i, hash),
{
    let slot = hash as int / 0x1_0000;
    assert(0 <= slot < 0x1_0000);
    lemma_bisected(
        b,
        (hash % 0x1_0000) as nat,
        first_entry(b, slot),
        first_entry(b, slot + 1),
    );
}

/// The hashes of all entries, in entry order.
pub open spec fn lists_hashes(b: Seq<u8>, out: Seq<u32>) -> bool {
    &&& out.len() == first_entry(b, 0x1_0000) - first_entry(b, 0)
    &&& forall|k: int|
        0 <= k < out.len() ==> is_entry_of(b, first_entry(b, 0) + k, #[trigger] out[k])
}

/// An opened segment.
#[derive(Debug)]
pub struct SivSegment {
    map: Vec<u8>,
    header: SegmentHeader,
}

impl View for SivSegment {
    type V = Seq<u8>;

    /// The bytes of the segment.
    closed spec fn view(&self) -> Seq<u8> {
        self.map@
    }
}

impl SivSegment {
    /// The bytes opened without complaint.
    pub closed spec fn wf(&self) -> bool {
        open_outcome(self.map@) == Ok::<SegmentHeader, OpenError>(self.header)
    }

    /// Open a segment held in memory.
    pub fn open(map: Vec<u8>) -> (r: Result<SivSegment, OpenError>)
        ensures
            match r {
                Ok(seg) => seg.wf() && seg@ == map@ && open_outcome(map@) is Ok,
                Err(e) => open_outcome(map@) == Err::<SegmentHeader, OpenError>(e),
            },
    {
        if map.len() < ENTRIES_BASE {
            return Err(OpenError::BadMagic);
        }
        if map[0] != 0x53 || map[1] != 0x49 || map[2] != 0x56 || map[3] != 0x31 {
            return Err(OpenError::BadMagic);
        }
        proof {
            lemma_byte_range();
        }
        let ver: u32 = read_le(&map, 4, 4) as u32;
        if ver != INDEX_FORMAT_VERSION {
            return Err(OpenError::UnsupportedFormat(ver));
        }
        let header = SegmentHeader {
            index_format_version: ver,
            fingerprint_version: FingerprintVersion::new(
                read_le(&map, 8, 2) as u16,
                read_le(&map, 10, 2) as u16,
            ),
            recording_count: read_le(&map, 12, 8),
            hash_count: read_le(&map, 20, 8),
            posting_count: read_le(&map, 28, 8),
        };
        // Header-derived lengths are untrusted: the count is rejected before
        // any derived index leaves the mapping, and nothing overflows.
        let room: u64 = (map.len() - ENTRIES_BASE) as u64;
        if header.hash_count > room / 12 {
            return Err(OpenError::BadMagic);
        }
        let expected: u32 = read_le(&map, 36, 4) as u32;
        let found: u32 = body_checksum(&map);
        if found != expected {
            return Err(OpenError::ChecksumMismatch { expected, found });
        }
        Ok(SivSegment { map, header })
    }

    /// The header of the segment.
    pub fn header(&self) -> (h: SegmentHeader)
        requires
            self.wf(),
        ensures
            h == header_of(self@),
    {
        self.header
    }

    /// What a segment that opened is known to hold.
    proof fn lemma_wf(&self)
        requires
            self.wf(),
        ensures
            self@ == self.map@,
            self.map.len() >= ENTRIES_BASE,
            self.header == header_of(self@),
            self.header.hash_count == hash_count_of(self@),
            ENTRIES_BASE + 12 * hash_count_of(self@) <= self.map.len(),
    {
        lemma_byte_range();
        crate::bytes::lemma_le_value_bound(self@.subrange(20, 28));
    }

    /// First entry of a bucket of a consistent directory.
    fn bucket_start(&self, slot: usize) -> (i: usize)
        requires
            self.wf(),
            directory_ok(self@),
            slot <= 0x1_0000,
        ensures
            i == first_entry(self@, slot as int),
            i <= hash_count_of(self@),
    {
        proof {
            self.lemma_wf();
            assert(ENTRIES_BASE <= dir_value(self@, slot as int) <= entries_end(self@));
        }
        ((self.dir_val(slot) - ENTRIES_BASE as u64) / 12) as usize
    }

    fn dir_val(&self, slot: usize) -> (v: u64)
        requires
            self.wf(),
            slot <= 0x1_0000,
        ensures
            v == dir_value(self@, slot as int),
    {
        proof {
            self.lemma_wf();
        }
        read_le(&self.map, HEADER_LEN + slot * 8, 8)
    }

    /// The directory is consistent: lookups stay inside the segment.
    pub fn has_valid_directory(&self) -> (r: bool)
        requires
            self.wf(),
        ensures
            r == directory_ok(self@),
    {
        proof {
            self.lemma_wf();
        }
        let end: u64 = ENTRIES_BASE as u64 + self.header.hash_count * 12;
        let mut last: u64 = ENTRIES_BASE as u64;
        let mut slot: usize = 0;
        while slot <= 0x1_0000
            invariant
                self.wf(),
                slot <= 0x1_0001,
                end == entries_end(self@),
                last == if slot == 0 {
                    ENTRIES_BASE as nat
                } else {
                    dir_value(self@, slot - 1)
                },
                ENTRIES_BASE <= last,
                forall|s: int|
                    0 <= s < slot ==> {
                        &&& ENTRIES_BASE <= #[trigger] dir_value(self@, s) <= end
                        &&& (dir_value(self@, s) - ENTRIES_BASE) % 12 == 0
                    },
                forall|s: int, t: int|
                    0 <= s <= t < slot ==> #[trigger] dir_value(self@, s) <= #[trigger] dir_value(
                        self@,
                        t,
                    ),
            decreases 0x1_0001 - slot,
        {
            let v: u64 = self.dir_val(slot);
            if v < last || v > end || (v - ENTRIES_BASE as u64) % 12 != 0 {
                proof {
                    if directory_ok(self@) && slot > 0 {
                        assert(dir_value(self@, slot - 1) <= dir_value(self@, slot as int));
                    }
                }
                return false;
            }
            last = v;
            slot = slot + 1;
        }
        true
    }

    /// Binary search within the bucket for `hash`; returns the entry index.
    fn find_entry(&self, hash: u32) -> (r: Option<usize>)
        requires
            self.wf(),
            directory_ok(self@),
        ensures
            match found_entry(self@, hash) {
                Some(i) => r matches Some(k) && k == i && i < hash_count_of(self@),
                None => r is None,
            },
    {
        let high: usize = (hash / 0x1_0000) as usize;
        let low: u32 = hash % 0x1_0000;
        let ghost b = self@;
        assert(dir_value(b, high as int) <= dir_value(b, high + 1));
        let mut lo: usize = self.bucket_start(high);
        let mut hi: usize = self.bucket_start(high + 1);
        proof {
            self.lemma_wf();
        }
        while lo < hi
            invariant
                self.wf(),
                b == self@,
                b == self.map@,
                found_entry(b, hash) == bisected(b, low as nat, lo as int, hi as int),
                hi <= hash_count_of(b),
                ENTRIES_BASE + 12 * hash_count_of(b) <= self.map.len(),
            decreases hi - lo,
        {
            let mid: usize = lo + (hi - lo) / 2;
            let mid_low: u64 = read_le(&self.map, ENTRIES_BASE + 12 * mid, 2);
            assert(mid_low == entry_low(b, mid as int));
            if mid_low == low as u64 {
                return Some(mid);
            }
            if mid_low < low as u64 {
                lo = mid + 1;
            } else {
                hi = mid;
            }
        }
        None
    }

    /// Document frequency of `hash` (distinct recordings containing it, up to
    /// `0xFF_FFFF`).
    pub fn document_frequency(&self, hash: u32) -> (r: Option<u64>)
        requires
            self.wf(),
            directory_ok(self@),
        ensures
            frequency_answers(self@, hash, r),
    {
        match self.find_entry(hash) {
            Some(i) => {
                proof {
                    self.lemma_wf();
                }
                let df: u64 = get_u24(&self.map, ENTRIES_BASE + 12 * i + 7);
                assert(df == entry_df(self@, i as int));
                Some(df)
            },
            None => None,
        }
    }

    /// Collect every posting for `hash` into `out` (cleared first). Returns
    /// false when absent.
    pub fn lookup(&self, hash: u32, out: &mut Vec<Posting>) -> (found: bool)
        requires
            self.wf(),
            directory_ok(self@),
        ensures
            lookup_answers(self@, hash, found, final(out)@),
    {
        out.clear();
        let i: usize = match self.find_entry(hash) {
            Some(i) => i,
            None => {
                return false;
            },
        };
        let ghost b = self@;
        proof {
            self.lemma_wf();
        }
        let start: u64 = get_u40(&self.map, ENTRIES_BASE + 12 * i + 2);
        let total: u64 = self.map.len() as u64;
        let mut end: u64 = total;
        if i as u64 + 1 < self.header.hash_count {
            let next: u64 = get_u40(&self.map, ENTRIES_BASE + 12 * (i + 1) + 2);
            assert(next == entry_offset(b, i + 1));
            if next < total {
                end = next;
            }
        }
        assert(start == entry_offset(b, i as int));
        assert(end == run_end(b, i as int));
        let n: u64 = if start < end {
            (end - start) / 8
        } else {
            0
        };
        let mut k: u64 = 0;
        while k < n
            invariant
                k <= n,
                b == self@,
                self.map@ == b,
                n == run_len(b, i as int),
                start == entry_offset(b, i as int),
                n > 0 ==> start + 8 * n <= self.map.len(),
                out.len() == k,
                forall|j: int|
                    0 <= j < k ==> #[trigger] out[j] == posting_at(b, start + 8 * j),
            decreases n - k,
        {
            out.push(unpack_posting(&self.map, (start + 8 * k) as usize));
            k = k + 1;
        }
        assert(out@ =~= run_postings(b, i as int));
        true
    }

    /// Every hash of the segment, ascending.
    ///
    /// Entries inside `dir[b] .. dir[b+1]` all have the high half `b`, so
    /// walking the directory reconstructs full hashes without storing them
    /// twice.
    pub fn all_hashes(&self) -> (out: Vec<u32>)
        requires
            self.wf(),
            directory_ok(self@),
        ensures
            lists_hashes(self@, out@),
    {
        let ghost b = self@;
        let mut out: Vec<u32> = Vec::new();
        let mut slot: usize = 0;
        let ghost origin = first_entry(b, 0);
        while slot < 0x1_0000
            invariant
                self.wf(),
                b == self@,
                directory_ok(b),
                origin == first_entry(b, 0),
                slot <= 0x1_0000,
                out.len() == first_entry(b, slot as int) - origin,
                forall|k: int|
                    0 <= k < out.len() ==> is_entry_of(b, origin + k, #[trigger] out[k]),
            decreases 0x1_0000 - slot,
        {
            assert(dir_value(b, slot as int) <= dir_value(b, slot + 1));
            let start: usize = self.bucket_start(slot);
            let end: usize = self.bucket_start(slot + 1);
            proof {
                self.lemma_wf();
            }
            let mut i: usize = start;
            while i < end
                invariant
                    self.wf(),
                    b == self@,
                    b == self.map@,
                    slot < 0x1_0000,
                    start == first_entry(b, slot as int),
                    end == first_entry(b, slot + 1),
                    start <= i <= end <= hash_count_of(b),
                    ENTRIES_BASE + 12 * hash_count_of(b) <= self.map.len(),
                    out.len() == i - origin,
                    forall|k: int|
                        0 <= k < out.len() ==> is_entry_of(b, origin + k, #[trigger] out[k]),
                decreases end - i,
            {
                proof {
                    lemma_byte_range();
                }
                let low: u64 = read_le(&self.map, ENTRIES_BASE + 12 * i, 2);
                let hash: u32 = slot as u32 * 0x1_0000 + low as u32;
                assert(hash as int / 0x1_0000 == slot && hash % 0x1_0000 == low);
                assert(is_entry_of(b, i as int, hash));
                out.push(hash);
                i = i + 1;
            }
            slot = slot + 1;
        }
        out
    }
}

// ---- building ----

impl Ranked for u32 {
    open spec fn leq(a: u32, b: u32) -> bool {
        a <= b
    }

    proof fn total_order() {
    }

    fn is_leq(&self, other: &u32) -> (r: bool) {
        *self <= *other
    }
}

/// The hashes ascend, each once.
pub open spec fn ascending(hs: Seq<u32>) -> bool {
    forall|i: int, j: int| 0 <= i < j < hs.len() ==> #[trigger] hs[i] < #[trigger] hs[j]
}

/// There are at most `2^32` of them.
proof fn lemma_ascending_len(hs: Seq<u32>)
    requires
        ascending(hs),
    ensures
        forall|i: int| 0 <= i < hs.len() ==> i <= #[trigger] hs[i],
        hs.len() <= 0x1_0000_0000,
    decreases hs.len(),
{
    if hs.len() > 0 {
        let t = hs.drop_last();
        assert forall|i: int, j: int| 0 <= i < j < t.len() implies #[trigger] t[i] < #[trigger] t[j] by {
            assert(hs[i] < hs[j]);
        }
        lemma_ascending_len(t);
        assert forall|i: int| 0 <= i < hs.len() implies i <= #[trigger] hs[i] by {
            if i < t.len() {
                assert(i <= t[i]);
            } else if i > 0 {
                assert(i - 1 <= t[i - 1]);
                assert(hs[i - 1] < hs[i]);
            }
        }
        assert(hs[hs.len() - 1] >= hs.len() - 1);
    }
}

/// Number of hashes below bucket `slot`, for ascending hashes.
pub open spec fn below_bucket(hs: Seq<u32>, slot: int) -> nat
    decreases hs.len(),
{
    if hs.len() == 0 {
        0
    } else if hs.last() as int / 0x1_0000 < slot {
        hs.len()
    } else {
        below_bucket(hs.drop_last(), slot)
    }
}

/// It splits the hashes at the bucket.
proof fn lemma_below_bucket(hs: Seq<u32>, slot: int)
    requires
        ascending(hs),
    ensures
        below_bucket(hs, slot) <= hs.len(),
        forall|i: int|
            0 <= i < hs.len() ==> (i < below_bucket(hs, slot) <==> #[trigger] hs[i] as int / 0x1_0000
                < slot),
    decreases hs.len(),
{
    if hs.len() > 0 {
        let t = hs.drop_last();
        assert forall|i: int, j: int| 0 <= i < j < t.len() implies #[trigger] t[i] < #[trigger] t[j] by {
            assert(hs[i] < hs[j]);
        }
        lemma_below_bucket(t, slot);
        assert forall|i: int| 0 <= i < hs.len() implies (i < below_bucket(hs, slot)
            <==> #[trigger] hs[i] as int / 0x1_0000 < slot) by {
            if i < t.len() {
                assert(t[i] == hs[i]);
                assert(hs[i] < hs[hs.len() - 1]);
            }
        }
    }
}

/// Where the run of hash `i` starts.
pub open spec fn run_start(m: Map<u32, Seq<Posting>>, hs: Seq<u32>, i: int) -> int {
    ENTRIES_BASE + 12 * hs.len() + 8 * list_total(m, hs.take(i))
}

/// The directory of a segment over the hashes `hs`.
pub open spec fn directory_written(b: Seq<u8>, hs: Seq<u32>) -> bool {
    forall|slot: int|
        0 <= slot <= 0x1_0000 ==> #[trigger] dir_value(b, slot) == ENTRIES_BASE + 12 * below_bucket(
            hs,
            slot,
        )
}

/// A document frequency as an entry can hold it.
pub open spec fn stored_df(df: nat) -> nat {
    if df < 0xFF_FFFF {
        df
    } else {
        0xFF_FFFF
    }
}

/// Entry `i` of a segment over the hashes `hs`.
pub open spec fn entry_written(
    b: Seq<u8>,
    m: Map<u32, Seq<Posting>>,
    hs: Seq<u32>,
    i: int,
) -> bool {
    &&& entry_low(b, i) == hs[i] % 0x1_0000
    &&& entry_offset(b, i) == run_start(m, hs, i) % 0x100_0000_0000
    &&& entry_df(b, i) == stored_df(document_frequency(m[hs[i]]))
    &&& le_at(b, ENTRIES_BASE + 12 * i + 10, 2) == 0
}

/// The run of hash `i`.
pub open spec fn run_written(b: Seq<u8>, m: Map<u32, Seq<Posting>>, hs: Seq<u32>, i: int) -> bool {
    forall|k: int|
        0 <= k < m[hs[i]].len() ==> {
            &&& #[trigger] posting_at(b, run_start(m, hs, i) + 8 * k) == stored_posting(m[hs[i]][k])
            &&& b[run_start(m, hs, i) + 8 * k + 7] == 0
        }
}

/// The bytes of a segment: every byte is fixed by the posting lists, their
/// hashes in ascending order, the counts and the fingerprint version.
pub open spec fn is_segment(
    b: Seq<u8>,
    m: Map<u32, Seq<Posting>>,
    hs: Seq<u32>,
    header: SegmentHeader,
) -> bool {
    &&& ascending(hs)
    &&& forall|h: u32| hs.contains(h) <==> m.contains_key(h)
    &&& b.len() == run_start(m, hs, hs.len() as int)
    &&& has_segment_magic(b)
    &&& header_of(b) == header
    &&& header.index_format_version == INDEX_FORMAT_VERSION
    &&& header.hash_count == hs.len()
    &&& header.posting_count == list_total(m, hs)
    &&& le_at(b, 36, 4) == body_checksum_of(b)
    &&& le_at(b, 40, 4) == 0
    &&& directory_written(b, hs)
    &&& forall|i: int| 0 <= i < hs.len() ==> #[trigger] entry_written(b, m, hs, i)
    &&& forall|i: int| 0 <= i < hs.len() ==> #[trigger] run_written(b, m, hs, i)
}

/// Build statistics returned by [`SegmentBuilder::build`].
#[derive(Debug, Clone, Copy, PartialEq, Eq, Structural)]
pub struct BuildStats {
    pub recordings: usize,
    pub hashes: usize,
    /// Postings in the file: repetitions are stored once.
    pub postings: usize,
    pub bytes: usize,
}

/// Accumulates recordings and serializes a segment.
pub struct SegmentBuilder {
    /// Posting lists, order arbitrary until build.
    map: PostingMap,
    recordings: HashSet<u32>,
}

impl View for SegmentBuilder {
    type V = Map<u32, Seq<Posting>>;

    closed spec fn view(&self) -> Map<u32, Seq<Posting>> {
        self.map@
    }
}

impl SegmentBuilder {
    pub closed spec fn wf(&self) -> bool {
        self.map.wf()
    }

    /// The recordings added so far.
    pub closed spec fn recordings_added(&self) -> Set<u32> {
        self.recordings@
    }

    /// The postings of all lists, counted.
    pub closed spec fn posting_count(&self) -> nat {
        list_total(self.map@, self.map.key_order())
    }

    /// No list is empty.
    pub proof fn lemma_no_empty_list(&self)
        requires
            self.wf(),
        ensures
            forall|h: u32| #[trigger] self@.contains_key(h) ==> self@[h].len() > 0,
    {
        self.map.lemma_no_empty_list();
    }

    pub fn new() -> (builder: Self)
        ensures
            builder.wf(),
            builder@ == Map::<u32, Seq<Posting>>::empty(),
            builder.recordings_added() == Set::<u32>::empty(),
            builder.posting_count() == 0,
    {
        broadcast use vstd::std_specs::hash::group_hash_axioms;

        SegmentBuilder { map: PostingMap::new(), recordings: HashSet::new() }
    }

    pub fn add_recording(&mut self, recording: RecordingId, fps: &[(u32, u32)])
        requires
            old(self).wf(),
        ensures
            final(self).wf(),
            final(self)@ == with_recording(old(self)@, recording, fps@),
            final(self).recordings_added() == old(self).recordings_added().insert(recording.0),
            final(self).posting_count() == old(self).posting_count() + fps.len(),
    {
        broadcast use vstd::std_specs::hash::group_hash_axioms;

        self.recordings.insert(recording.0);
        self.map.push_recording(recording, fps);
    }

    /// Add one posting directly: compaction replays existing segments through
    /// it.
    pub fn add_posting(&mut self, hash: u32, recording: RecordingId, anchor_time: u32)
        requires
            old(self).wf(),
        ensures
            final(self).wf(),
            final(self)@ == with_posting(old(self)@, hash, Posting { recording, anchor_time }),
            final(self).recordings_added() == old(self).recordings_added().insert(recording.0),
            final(self).posting_count() == old(self).posting_count() + 1,
    {
        broadcast use vstd::std_specs::hash::group_hash_axioms;

        proof {
            self.map.lemma_key_order();
            lemma_total_grows(
                self.map@,
                self.map.key_order(),
                hash,
                Posting { recording, anchor_time },
            );
        }
        self.recordings.insert(recording.0);
        self.map.push(hash, Posting { recording, anchor_time });
    }
}

/// The bytes from the directory on agree.
spec fn same_body(a: Seq<u8>, b: Seq<u8>, upto: int) -> bool {
    &&& upto <= a.len()
    &&& upto <= b.len()
    &&& forall|k: int| HEADER_LEN <= k < upto ==> #[trigger] a[k] == b[k]
}

proof fn lemma_le_at_agrees(a: Seq<u8>, b: Seq<u8>, at: int, n: int)
    requires
        0 <= at,
        0 <= n,
        at + n <= a.len(),
        at + n <= b.len(),
        forall|k: int| at <= k < at + n ==> #[trigger] a[k] == b[k],
    ensures
        le_at(a, at, n) == le_at(b, at, n),
{
    assert(a.subrange(at, at + n) =~= b.subrange(at, at + n));
}

proof fn lemma_directory_agrees(a: Seq<u8>, b: Seq<u8>, hs: Seq<u32>)
    requires
        same_body(a, b, ENTRIES_BASE as int),
        directory_written(a, hs),
    ensures
        directory_written(b, hs),
{
    assert forall|slot: int| 0 <= slot <= 0x1_0000 implies #[trigger] dir_value(b, slot)
        == ENTRIES_BASE + 12 * below_bucket(hs, slot) by {
        lemma_le_at_agrees(a, b, HEADER_LEN + 8 * slot, 8);
        assert(dir_value(a, slot) == ENTRIES_BASE + 12 * below_bucket(hs, slot));
    }
}

proof fn lemma_entry_agrees(
    a: Seq<u8>,
    b: Seq<u8>,
    m: Map<u32, Seq<Posting>>,
    hs: Seq<u32>,
    i: int,
)
    requires
        0 <= i,
        same_body(a, b, ENTRIES_BASE + 12 * i + 12),
        entry_written(a, m, hs, i),
    ensures
        entry_written(b, m, hs, i),
{
    let at = ENTRIES_BASE + 12 * i;
    lemma_le_at_agrees(a, b, at, 2);
    lemma_le_at_agrees(a, b, at + 2, 5);
    lemma_le_at_agrees(a, b, at + 7, 3);
    lemma_le_at_agrees(a, b, at + 10, 2);
}

proof fn lemma_run_agrees(
    a: Seq<u8>,
    b: Seq<u8>,
    m: Map<u32, Seq<Posting>>,
    hs: Seq<u32>,
    i: int,
)
    requires
        0 <= i < hs.len(),
        same_body(a, b, run_start(m, hs, i + 1)),
        run_written(a, m, hs, i),
    ensures
        run_written(b, m, hs, i),
{
    lemma_total_step(m, hs, i);
    assert forall|k: int| 0 <= k < m[hs[i]].len() implies {
        &&& #[trigger] posting_at(b, run_start(m, hs, i) + 8 * k) == stored_posting(m[hs[i]][k])
        &&& b[run_start(m, hs, i) + 8 * k + 7] == 0
    } by {
        let at = run_start(m, hs, i) + 8 * k;
        assert(posting_at(a, at) == stored_posting(m[hs[i]][k]));
        lemma_le_at_agrees(a, b, at, 4);
        assert(a[at + 4] == b[at + 4] && a[at + 5] == b[at + 5] && a[at + 6] == b[at + 6] && a[at
            + 7] == b[at + 7]);
    }
}

/// One more hash adds its list.
proof fn lemma_total_step(m: Map<u32, Seq<Posting>>, hs: Seq<u32>, i: int)
    requires
        0 <= i < hs.len(),
    ensures
        list_total(m, hs.take(i + 1)) == list_total(m, hs.take(i)) + m[hs[i]].len(),
        run_start(m, hs, i + 1) == run_start(m, hs, i) + 8 * m[hs[i]].len(),
{
    assert(hs.take(i + 1) =~= hs.take(i).push(hs[i]));
    lemma_sum_push(hs.take(i), hs[i], |h: u32| true, |h: u32| m[h].len());
}

/// A prefix holds no more postings than all hashes together.
proof fn lemma_total_monotone(m: Map<u32, Seq<Posting>>, hs: Seq<u32>, i: int)
    requires
        0 <= i <= hs.len(),
    ensures
        list_total(m, hs.take(i)) <= list_total(m, hs),
    decreases hs.len() - i,
{
    if i < hs.len() {
        lemma_total_step(m, hs, i);
        lemma_total_monotone(m, hs, i + 1);
    } else {
        assert(hs.take(i) =~= hs);
    }
}

fn push_directory(out: &mut Vec<u8>, hashes: &Vec<u32>)
    requires
        old(out).len() == HEADER_LEN,
        ascending(hashes@),
    ensures
        final(out).len() == ENTRIES_BASE,
        final(out)@.take(HEADER_LEN as int) == old(out)@,
        directory_written(final(out)@, hashes@),
{
    let n: usize = hashes.len();
    let mut i: usize = 0;
    let mut slot: u32 = 0;
    proof {
        lemma_ascending_len(hashes@);
    }
    assert(out@.take(HEADER_LEN as int) =~= old(out)@);
    while slot <= 0x1_0000
        invariant
            slot <= 0x1_0001,
            n == hashes.len(),
            n <= 0x1_0000_0000,
            i <= n,
            ascending(hashes@),
            forall|k: int| 0 <= k < i ==> #[trigger] hashes[k] as int / 0x1_0000 < slot,
            out.len() == HEADER_LEN + 8 * slot,
            out@.take(HEADER_LEN as int) == old(out)@,
            forall|t: int|
                0 <= t < slot ==> #[trigger] dir_value(out@, t) == ENTRIES_BASE + 12 * below_bucket(
                    hashes@,
                    t,
                ),
        decreases 0x1_0001 - slot,
    {
        while i < n && hashes[i] / 0x1_0000 < slot
            invariant
                slot <= 0x1_0000,
                n == hashes.len(),
                i <= n,
                forall|k: int| 0 <= k < i ==> #[trigger] hashes[k] as int / 0x1_0000 < slot,
            decreases n - i,
        {
            i = i + 1;
        }
        proof {
            lemma_below_bucket(hashes@, slot as int);
            let d = below_bucket(hashes@, slot as int);
            assert(i == d) by {
                if i < d {
                    assert(hashes[i as int] as int / 0x1_0000 < slot);
                }
                if d < i {
                    assert(hashes[d as int] as int / 0x1_0000 < slot);
                }
            }
        }
        let ghost before = out@;
        let v: u64 = ENTRIES_BASE as u64 + 12 * i as u64;
        push_le(out, v, 8);
        proof {
            lemma_byte_range();
            assert(out@.take(HEADER_LEN as int) =~= before.take(HEADER_LEN as int));
            assert forall|t: int| 0 <= t < slot + 1 implies #[trigger] dir_value(out@, t)
                == ENTRIES_BASE + 12 * below_bucket(hashes@, t) by {
                if t < slot {
                    assert(dir_value(before, t) == ENTRIES_BASE + 12 * below_bucket(hashes@, t));
                    lemma_le_at_agrees(before, out@, HEADER_LEN + 8 * t, 8);
                }
            }
        }
        slot = slot + 1;
    }
}

fn push_entries(out: &mut Vec<u8>, hashes: &Vec<u32>, map: &PostingMap)
    requires
        old(out).len() == ENTRIES_BASE,
        ascending(hashes@),
        map.wf(),
        map.is_tidied(),
        forall|h: u32| hashes@.contains(h) <==> map@.contains_key(h),
        list_total(map@, hashes@) < 0x1000_0000_0000_0000,
    ensures
        final(out).len() == ENTRIES_BASE + 12 * hashes.len(),
        final(out)@.take(ENTRIES_BASE as int) == old(out)@,
        forall|i: int|
            0 <= i < hashes.len() ==> #[trigger] entry_written(final(out)@, map@, hashes@, i),
{
    let n: usize = hashes.len();
    let mut acc: u64 = 0;
    let mut i: usize = 0;
    proof {
        lemma_ascending_len(hashes@);
        assert(out@.take(ENTRIES_BASE as int) =~= old(out)@);
        assert(hashes@.take(0) =~= Seq::<u32>::empty());
    }
    while i < n
        invariant
            i <= n,
            n == hashes.len(),
            n <= 0x1_0000_0000,
            map.wf(),
            map.is_tidied(),
            forall|h: u32| hashes@.contains(h) <==> map@.contains_key(h),
            list_total(map@, hashes@) < 0x1000_0000_0000_0000,
            acc == list_total(map@, hashes@.take(i as int)),
            out.len() == ENTRIES_BASE + 12 * i,
            out@.take(ENTRIES_BASE as int) == old(out)@,
            forall|k: int|
                0 <= k < i ==> #[trigger] entry_written(out@, map@, hashes@, k),
        decreases n - i,
    {
        let h: u32 = hashes[i];
        assert(hashes@.contains(h));
        let len: usize = match map.get(h) {
            Some(list) => list.len(),
            None => 0,
        };
        let df: u64 = map.frequency(h);
        let capped: u64 = if df < 0xFF_FFFF {
            df
        } else {
            0xFF_FFFF
        };
        proof {
            lemma_total_step(map@, hashes@, i as int);
            lemma_total_monotone(map@, hashes@, i as int);
            lemma_total_monotone(map@, hashes@, i + 1);
        }
        let off: u64 = ENTRIES_BASE as u64 + 12 * n as u64 + 8 * acc;
        let ghost before = out@;
        push_le(out, (h % 0x1_0000) as u64, 2);
        let ghost s1 = out@;
        put_u40(out, off);
        let ghost s2 = out@;
        put_u24(out, capped);
        let ghost s3 = out@;
        push_le(out, 0, 2);
        proof {
            lemma_byte_range();
            lemma_le_bytes_len(off as nat, 5);
            lemma_le_bytes_len(capped as nat, 3);
            lemma_pushed(s1, off as nat, 5);
            lemma_pushed(s2, capped as nat, 3);
            let at = ENTRIES_BASE + 12 * i;
            assert forall|k: int| 0 <= k < before.len() implies out@[k] == before[k] by {}
            lemma_le_at_agrees(s1, out@, at, 2);
            lemma_le_at_agrees(s2, out@, at + 2, 5);
            lemma_le_at_agrees(s3, out@, at + 7, 3);
            assert(out@.take(ENTRIES_BASE as int) =~= before.take(ENTRIES_BASE as int));
            assert forall|k: int| 0 <= k < i + 1 implies #[trigger] entry_written(
                out@,
                map@,
                hashes@,
                k,
            ) by {
                if k < i {
                    assert(entry_written(before, map@, hashes@, k));
                    lemma_entry_agrees(before, out@, map@, hashes@, k);
                }
            }
        }
        acc = acc + len as u64;
        i = i + 1;
    }
}

/// What was appended can be read back.
proof fn lemma_pushed(s: Seq<u8>, v: nat, n: nat)
    ensures
        le_at(s + le_bytes(v, n), s.len() as int, n as int) == v % byte_range(n),
{
    lemma_le_bytes_len(v, n);
    crate::bytes::lemma_le_roundtrip(v, n);
    assert((s + le_bytes(v, n)).subrange(s.len() as int, (s.len() + n) as int) =~= le_bytes(v, n));
}

/// Append one posting.
fn push_posting(out: &mut Vec<u8>, p: Posting)
    ensures
        final(out).len() == old(out).len() + 8,
        final(out)@.take(old(out).len() as int) == old(out)@,
        posting_at(final(out)@, old(out).len() as int) == stored_posting(p),
        final(out)@[old(out).len() + 7] == 0,
{
    let packed: [u8; 8] = pack_posting(p.recording, p.anchor_time, 0);
    let ghost before = out@;
    let mut k: usize = 0;
    while k < 8
        invariant
            k <= 8,
            out@ == before + packed@.take(k as int),
        decreases 8 - k,
    {
        out.push(packed[k]);
        assert(packed@.take(k + 1) =~= packed@.take(k as int).push(packed[k as int]));
        k = k + 1;
    }
    proof {
        let at = before.len() as int;
        assert(out@.take(at) =~= before);
        assert(out@.subrange(at, at + 4) =~= packed@.subrange(0, 4));
        assert(out@[at + 4] == packed[4] && out@[at + 5] == packed[5] && out@[at + 6] == packed[6]
            && out@[at + 7] == packed[7]);
    }
}

/// Append the postings of one list.
fn push_run(out: &mut Vec<u8>, list: &[Posting])
    ensures
        final(out).len() == old(out).len() + 8 * list.len(),
        final(out)@.take(old(out).len() as int) == old(out)@,
        forall|j: int|
            0 <= j < list.len() ==> {
                &&& #[trigger] posting_at(final(out)@, old(out).len() + 8 * j) == stored_posting(
                    list[j],
                )
                &&& final(out)@[old(out).len() + 8 * j + 7] == 0
            },
{
    let ghost before = out@;
    let ghost at = out.len() as int;
    let mut k: usize = 0;
    assert(out@.take(at) =~= before);
    while k < list.len()
        invariant
            k <= list.len(),
            out.len() == at + 8 * k,
            at == before.len(),
            out@.take(at) == before,
            forall|j: int|
                0 <= j < k ==> {
                    &&& #[trigger] posting_at(out@, at + 8 * j) == stored_posting(list[j])
                    &&& out@[at + 8 * j + 7] == 0
                },
        decreases list.len() - k,
    {
        let ghost mid = out@;
        push_posting(out, list[k]);
        proof {
            assert(out@.take(at) =~= mid.take(at));
            assert forall|j: int| 0 <= j < mid.len() implies out@[j] == mid[j] by {
                assert(out@.take(mid.len() as int)[j] == mid[j]);
            }
            assert forall|j: int| 0 <= j < k + 1 implies {
                &&& #[trigger] posting_at(out@, at + 8 * j) == stored_posting(list[j])
                &&& out@[at + 8 * j + 7] == 0
            } by {
                if j < k {
                    assert(posting_at(mid, at + 8 * j) == stored_posting(list[j]));
                    lemma_le_at_agrees(mid, out@, at + 8 * j, 4);
                }
            }
        }
        k = k + 1;
    }
}

fn push_postings(out: &mut Vec<u8>, hashes: &Vec<u32>, map: &PostingMap)
    requires
        old(out).len() == ENTRIES_BASE + 12 * hashes.len(),
        map.wf(),
        forall|h: u32| hashes@.contains(h) <==> map@.contains_key(h),
    ensures
        final(out).len() == run_start(map@, hashes@, hashes.len() as int),
        final(out)@.take(old(out).len() as int) == old(out)@,
        forall|i: int|
            0 <= i < hashes.len() ==> #[trigger] run_written(final(out)@, map@, hashes@, i),
{
    let ghost m = map@;
    let ghost hs = hashes@;
    let ghost base = out.len() as int;
    let mut i: usize = 0;
    proof {
        assert(out@.take(base) =~= old(out)@);
        assert(hs.take(0) =~= Seq::<u32>::empty());
    }
    while i < hashes.len()
        invariant
            i <= hashes.len(),
            map.wf(),
            m == map@,
            hs == hashes@,
            base == old(out).len(),
            base == ENTRIES_BASE + 12 * hs.len(),
            forall|h: u32| hs.contains(h) <==> m.contains_key(h),
            out.len() == run_start(m, hs, i as int),
            out@.take(base) == old(out)@,
            forall|k: int| 0 <= k < i ==> #[trigger] run_written(out@, m, hs, k),
        decreases hashes.len() - i,
    {
        let h: u32 = hashes[i];
        assert(hs.contains(h));
        let ghost before = out@;
        let ghost at = out.len() as int;
        match map.get(h) {
            Some(list) => {
                push_run(out, list);
                proof {
                    assert forall|j: int| 0 <= j < m[h].len() implies {
                        &&& #[trigger] posting_at(out@, run_start(m, hs, i as int) + 8 * j)
                            == stored_posting(m[h][j])
                        &&& out@[run_start(m, hs, i as int) + 8 * j + 7] == 0
                    } by {
                        assert(posting_at(out@, at + 8 * j) == stored_posting(list[j]));
                    }
                }
            },
            None => {
                assert(m.contains_key(h));
            },
        }
        assert(run_written(out@, m, hs, i as int));
        proof {
            lemma_total_step(m, hs, i as int);
            assert(out.len() == run_start(m, hs, i + 1));
            assert(forall|k: int| 0 <= k < before.len() ==> out@[k] == before[k]) by {
                assert forall|k: int| 0 <= k < before.len() implies out@[k] == before[k] by {
                    assert(out@.take(at)[k] == before[k]);
                }
            }
            assert(out@.take(base) =~= before.take(base));
            assert forall|k: int| 0 <= k < i + 1 implies #[trigger] run_written(out@, m, hs, k) by {
                if k < i {
                    assert(run_written(before, m, hs, k));
                    lemma_run_start_monotone(m, hs, k + 1, i as int);
                    lemma_run_agrees(before, out@, m, hs, k);
                }
            }
        }
        i = i + 1;
    }
}

proof fn lemma_run_start_monotone(m: Map<u32, Seq<Posting>>, hs: Seq<u32>, i: int, j: int)
    requires
        0 <= i <= j <= hs.len(),
    ensures
        run_start(m, hs, i) <= run_start(m, hs, j),
    decreases j - i,
{
    if i < j {
        lemma_total_step(m, hs, i);
        lemma_run_start_monotone(m, hs, i + 1, j);
    }
}

/// Append the header, with the checksum left open.
fn push_header(out: &mut Vec<u8>, header: SegmentHeader)
    requires
        old(out).len() == 0,
    ensures
        final(out).len() == HEADER_LEN,
        final(out)@[0] == 0x53,
        final(out)@[1] == 0x49,
        final(out)@[2] == 0x56,
        final(out)@[3] == 0x31,
        header_of(final(out)@) == header,
        le_at(final(out)@, 40, 4) == 0,
{
    out.push(0x53);
    out.push(0x49);
    out.push(0x56);
    out.push(0x31);
    proof {
        lemma_byte_range();
    }
    push_le(out, header.index_format_version as u64, 4);
    let ghost s1 = out@;
    push_le(out, header.fingerprint_version.major as u64, 2);
    let ghost s2 = out@;
    push_le(out, header.fingerprint_version.minor as u64, 2);
    let ghost s3 = out@;
    push_le(out, header.recording_count, 8);
    let ghost s4 = out@;
    push_le(out, header.hash_count, 8);
    let ghost s5 = out@;
    push_le(out, header.posting_count, 8);
    let ghost s6 = out@;
    push_le(out, 0, 4);
    push_le(out, 0, 4);
    proof {
        lemma_le_at_agrees(s1, out@, 4, 4);
        lemma_le_at_agrees(s2, out@, 8, 2);
        lemma_le_at_agrees(s3, out@, 10, 2);
        lemma_le_at_agrees(s4, out@, 12, 8);
        lemma_le_at_agrees(s5, out@, 20, 8);
        lemma_le_at_agrees(s6, out@, 28, 8);
    }
}

/// Write the checksum into the header.
fn patch_checksum(out: &mut Vec<u8>, checksum: u32)
    requires
        old(out).len() >= HEADER_LEN,
    ensures
        final(out).len() == old(out).len(),
        forall|k: int|
            0 <= k < old(out).len() && !(36 <= k < 40) ==> #[trigger] final(out)@[k] == old(out)@[k],
        le_at(final(out)@, 36, 4) == checksum,
{
    let mut cs: Vec<u8> = Vec::new();
    push_le(&mut cs, checksum as u64, 4);
    out.set(36, cs[0]);
    out.set(37, cs[1]);
    out.set(38, cs[2]);
    out.set(39, cs[3]);
    proof {
        lemma_byte_range();
        assert(out@.subrange(36, 40) =~= cs@.subrange(0, 4));
    }
}

/// The checksum covers the count of hashes and the body, nothing else.
proof fn lemma_checksum_agrees(a: Seq<u8>, b: Seq<u8>)
    requires
        a.len() == b.len(),
        a.len() >= ENTRIES_BASE,
        entries_end(a) <= a.len(),
        forall|k: int| 20 <= k < 28 || HEADER_LEN <= k < a.len() ==> #[trigger] a[k] == b[k],
    ensures
        body_checksum_of(a) == body_checksum_of(b),
        entries_end(a) == entries_end(b),
{
    lemma_le_at_agrees(a, b, 20, 8);
    assert(a.subrange(HEADER_LEN as int, ENTRIES_BASE as int) =~= b.subrange(
        HEADER_LEN as int,
        ENTRIES_BASE as int,
    ));
    assert(a.subrange(ENTRIES_BASE as int, entries_end(a)) =~= b.subrange(
        ENTRIES_BASE as int,
        entries_end(b),
    ));
    assert(a.subrange(entries_end(a), a.len() as int) =~= b.subrange(
        entries_end(b),
        b.len() as int,
    ));
}

/// Tidying does not add postings.
proof fn lemma_total_shrinks(
    new: Map<u32, Seq<Posting>>,
    old: Map<u32, Seq<Posting>>,
    hs: Seq<u32>,
)
    requires
        forall|i: int| 0 <= i < hs.len() ==> new[#[trigger] hs[i]].len() <= old[hs[i]].len(),
    ensures
        list_total(new, hs) <= list_total(old, hs),
    decreases hs.len(),
{
    if hs.len() > 0 {
        let t = hs.drop_last();
        assert forall|i: int| 0 <= i < t.len() implies new[#[trigger] t[i]].len() <= old[t[i]].len() by {
            assert(t[i] == hs[i]);
        }
        lemma_total_shrinks(new, old, t);
        assert(new[hs[hs.len() - 1]].len() <= old[hs[hs.len() - 1]].len());
    }
}

/// Postings of all lists together.
fn count_postings(map: &PostingMap, keys: &Vec<u32>) -> (n: usize)
    requires
        map.wf(),
        forall|h: u32| keys@.contains(h) <==> map@.contains_key(h),
        list_total(map@, keys@) <= usize::MAX,
    ensures
        n == list_total(map@, keys@),
{
    let mut n: usize = 0;
    let mut i: usize = 0;
    assert(keys@.take(0) =~= Seq::<u32>::empty());
    while i < keys.len()
        invariant
            i <= keys.len(),
            map.wf(),
            forall|h: u32| keys@.contains(h) <==> map@.contains_key(h),
            list_total(map@, keys@) <= usize::MAX,
            n == list_total(map@, keys@.take(i as int)),
        decreases keys.len() - i,
    {
        let h: u32 = keys[i];
        assert(keys@.contains(h));
        proof {
            lemma_total_step(map@, keys@, i as int);
            lemma_total_monotone(map@, keys@, i + 1);
        }
        if let Some(list) = map.get(h) {
            n = n + list.len();
        }
        i = i + 1;
    }
    assert(keys@.take(i as int) =~= keys@);
    n
}

/// Ascending hashes out of distinct ones.
pub proof fn lemma_sorted_ascends(keys: Seq<u32>, hs: Seq<u32>)
    requires
        keys.no_duplicates(),
        permuted(hs, keys),
        ordered(hs),
    ensures
        ascending(hs),
{
    keys.lemma_multiset_has_no_duplicates();
    hs.lemma_multiset_has_no_duplicates_conv();
    assert forall|i: int, j: int| 0 <= i < j < hs.len() implies #[trigger] hs[i] < #[trigger] hs[j] by {
        assert(u32::leq(hs[i], hs[j]));
        assert(hs[i] != hs[j]);
    }
}

/// The header that a build writes.
pub open spec fn built_header(
    recordings: nat,
    hashes: nat,
    postings: nat,
    fp: FingerprintVersion,
) -> SegmentHeader {
    SegmentHeader {
        index_format_version: INDEX_FORMAT_VERSION,
        fingerprint_version: fp,
        recording_count: recordings as u64,
        hash_count: hashes as u64,
        posting_count: postings as u64,
    }
}

/// The segment of some ascending sequence of the hashes of `m`.
pub open spec fn serializes(b: Seq<u8>, m: Map<u32, Seq<Posting>>, header: SegmentHeader) -> bool {
    exists|hs: Seq<u32>| #[trigger] is_segment(b, m, hs, header)
}

impl SegmentBuilder {
    /// Serialize the segment.
    ///
    /// Postings per hash are sorted and deduplicated in place; document
    /// frequency counts distinct recordings. The header counts the postings
    /// that are left.
    pub fn build(&mut self, fp_version: FingerprintVersion) -> (r: (Vec<u8>, BuildStats))
        requires
            old(self).wf(),
            old(self).posting_count() < 0x1000_0000_0000_0000,
            old(self).posting_count() <= usize::MAX,
        ensures
            final(self).wf(),
            tidied(final(self)@, old(self)@),
            all_tidy(final(self)@),
            final(self).recordings_added() == old(self).recordings_added(),
            serializes(
                r.0@,
                final(self)@,
                built_header(
                    old(self).recordings_added().len(),
                    old(self)@.dom().len(),
                    final(self).posting_count(),
                    fp_version,
                ),
            ),
            r.1.recordings == old(self).recordings_added().len(),
            r.1.hashes == old(self)@.dom().len(),
            r.1.postings == final(self).posting_count(),
            final(self).posting_count() <= old(self).posting_count(),
            r.1.bytes == r.0.len(),
            r.1.bytes == ENTRIES_BASE + 12 * r.1.hashes + 8 * r.1.postings,
    {
        broadcast use vstd::std_specs::hash::group_hash_axioms;

        let keys: Vec<u32> = self.map.keys();
        let n_recs: usize = self.recordings.len();
        let n_hashes: usize = self.map.len();
        self.map.tidy();
        let hashes: Vec<u32> = sorted(keys.as_slice());
        let ghost m = self.map@;
        let ghost hs = hashes@;
        proof {
            self.map.lemma_tidied_lists();
            lemma_permuted_contains(hs, keys@);
            lemma_sorted_ascends(keys@, hs);
            assert forall|h: u32| hs.contains(h) <==> m.contains_key(h) by {
                assert(m.dom().contains(h) <==> old(self)@.dom().contains(h));
            }
            let m_old = old(self)@;
            assert forall|i: int| 0 <= i < keys.len() implies m[#[trigger] keys@[i]].len()
                <= m_old[keys@[i]].len() by {
                assert(keys@.contains(keys@[i]));
                assert(m.contains_key(keys@[i]));
            }
            lemma_total_shrinks(m, old(self)@, keys@);
            lemma_sum_permuted(hs, keys@, |h: u32| true, |h: u32| m[h].len());
            assert(hs.len() == old(self)@.dom().len()) by {
                keys@.unique_seq_to_set();
                assert(keys@.to_set() =~= old(self)@.dom());
            }
        }
        let total: usize = count_postings(&self.map, &keys);
        let header = SegmentHeader {
            index_format_version: INDEX_FORMAT_VERSION,
            fingerprint_version: fp_version,
            recording_count: n_recs as u64,
            hash_count: n_hashes as u64,
            posting_count: total as u64,
        };
        let mut out: Vec<u8> = Vec::new();
        push_header(&mut out, header);
        let ghost b0 = out@;
        push_directory(&mut out, &hashes);
        let ghost b1 = out@;
        push_entries(&mut out, &hashes, &self.map);
        let ghost b2 = out@;
        push_postings(&mut out, &hashes, &self.map);
        let ghost b3 = out@;
        proof {
            assert forall|k: int| 0 <= k < b2.len() implies b3[k] == b2[k] by {
                assert(b3.take(b2.len() as int)[k] == b2[k]);
            }
            assert forall|k: int| 0 <= k < b1.len() implies b2[k] == b1[k] by {
                assert(b2.take(ENTRIES_BASE as int)[k] == b1[k]);
            }
            assert forall|k: int| 0 <= k < b0.len() implies b1[k] == b0[k] by {
                assert(b1.take(HEADER_LEN as int)[k] == b0[k]);
            }
            lemma_le_at_agrees(b0, b3, 20, 8);
            assert(hs.take(hs.len() as int) =~= hs);
            lemma_byte_range();
            crate::bytes::lemma_le_value_bound(b0.subrange(20, 28));
        }
        let checksum: u32 = body_checksum(&out);
        patch_checksum(&mut out, checksum);
        proof {
            let b = out@;
            lemma_checksum_agrees(b3, b);
            lemma_le_at_agrees(b0, b, 4, 4);
            lemma_le_at_agrees(b0, b, 8, 2);
            lemma_le_at_agrees(b0, b, 10, 2);
            lemma_le_at_agrees(b0, b, 12, 8);
            lemma_le_at_agrees(b0, b, 20, 8);
            lemma_le_at_agrees(b0, b, 28, 8);
            lemma_le_at_agrees(b0, b, 40, 4);
            lemma_directory_agrees(b1, b, hs);
            assert forall|i: int| 0 <= i < hs.len() implies #[trigger] entry_written(b, m, hs, i) by {
                assert(entry_written(b2, m, hs, i));
                lemma_entry_agrees(b2, b, m, hs, i);
            }
            assert forall|i: int| 0 <= i < hs.len() implies #[trigger] run_written(b, m, hs, i) by {
                assert(run_written(b3, m, hs, i));
                lemma_run_start_monotone(m, hs, i + 1, hs.len() as int);
                lemma_run_agrees(b3, b, m, hs, i);
            }
            assert(is_segment(b, m, hs, header));
        }
        let bytes: usize = out.len();
        (out, BuildStats { recordings: n_recs, hashes: n_hashes, postings: total, bytes })
    }
}

// ---- what a built segment gives back ----

/// A built segment opens, and its header says what the build wrote.
pub proof fn law_built_segment_opens(
    b: Seq<u8>,
    m: Map<u32, Seq<Posting>>,
    header: SegmentHeader,
)
    requires
        serializes(b, m, header),
    ensures
        open_outcome(b) == Ok::<SegmentHeader, OpenError>(header),
{
    let hs = choose|hs: Seq<u32>| #[trigger] is_segment(b, m, hs, header);
    lemma_segment_size(b, m, hs, header);
}

proof fn lemma_segment_size(
    b: Seq<u8>,
    m: Map<u32, Seq<Posting>>,
    hs: Seq<u32>,
    header: SegmentHeader,
)
    requires
        is_segment(b, m, hs, header),
    ensures
        hash_count_of(b) == hs.len(),
        entries_end(b) == ENTRIES_BASE + 12 * hs.len(),
        entries_end(b) <= b.len(),
        le_at(b, 4, 4) == INDEX_FORMAT_VERSION,
{
    lemma_byte_range();
    crate::bytes::lemma_le_value_bound(b.subrange(20, 28));
    crate::bytes::lemma_le_value_bound(b.subrange(4, 8));
}

proof fn lemma_first_entry(
    b: Seq<u8>,
    m: Map<u32, Seq<Posting>>,
    hs: Seq<u32>,
    header: SegmentHeader,
    slot: int,
)
    requires
        is_segment(b, m, hs, header),
        0 <= slot <= 0x1_0000,
    ensures
        first_entry(b, slot) == below_bucket(hs, slot),
        below_bucket(hs, slot) <= hs.len(),
        forall|i: int|
            0 <= i < hs.len() ==> (i < below_bucket(hs, slot) <==> #[trigger] hs[i] as int / 0x1_0000
                < slot),
{
    assert(dir_value(b, slot) == ENTRIES_BASE + 12 * below_bucket(hs, slot));
    lemma_below_bucket(hs, slot);
}

/// The directory of a built segment is consistent, and its buckets ascend.
pub proof fn law_built_directory_is_valid(
    b: Seq<u8>,
    m: Map<u32, Seq<Posting>>,
    header: SegmentHeader,
)
    requires
        serializes(b, m, header),
    ensures
        directory_ok(b),
        buckets_ascend(b),
{
    let hs = choose|hs: Seq<u32>| #[trigger] is_segment(b, m, hs, header);
    lemma_segment_size(b, m, hs, header);
    assert forall|slot: int| 0 <= slot <= 0x1_0000 implies {
        &&& ENTRIES_BASE <= #[trigger] dir_value(b, slot) <= entries_end(b)
        &&& (dir_value(b, slot) - ENTRIES_BASE) % 12 == 0
    } by {
        lemma_first_entry(b, m, hs, header, slot);
    }
    assert forall|slot: int, next: int| 0 <= slot <= next <= 0x1_0000 implies #[trigger] dir_value(
        b,
        slot,
    ) <= #[trigger] dir_value(b, next) by {
        lemma_first_entry(b, m, hs, header, slot);
        lemma_first_entry(b, m, hs, header, next);
        let x = below_bucket(hs, slot) as int;
        let y = below_bucket(hs, next) as int;
        if y < x {
            assert(hs[y] as int / 0x1_0000 < slot);
        }
    }
    assert forall|slot: int, i: int, j: int|
        #![trigger first_entry(b, slot), entry_low(b, i), entry_low(b, j)]
        0 <= slot < 0x1_0000 && first_entry(b, slot) <= i < j < first_entry(
            b,
            slot + 1,
        ) implies entry_low(b, i) < entry_low(b, j) by {
        lemma_first_entry(b, m, hs, header, slot);
        lemma_first_entry(b, m, hs, header, slot + 1);
        assert(entry_written(b, m, hs, i) && entry_written(b, m, hs, j));
        assert(hs[i] < hs[j]);
        assert(hs[i] as int / 0x1_0000 == slot && hs[j] as int / 0x1_0000 == slot);
    }
}

/// Entry `i` of a built segment is the entry of the `i`-th hash.
proof fn lemma_entry_of(
    b: Seq<u8>,
    m: Map<u32, Seq<Posting>>,
    hs: Seq<u32>,
    header: SegmentHeader,
    i: int,
    hash: u32,
)
    requires
        is_segment(b, m, hs, header),
    ensures
        is_entry_of(b, i, hash) <==> 0 <= i < hs.len() && hs[i] == hash,
{
    let slot = hash as int / 0x1_0000;
    lemma_first_entry(b, m, hs, header, slot);
    lemma_first_entry(b, m, hs, header, slot + 1);
    if 0 <= i < hs.len() {
        assert(entry_written(b, m, hs, i));
    }
}

/// The run of entry `i` of a built segment holds the list of the `i`-th hash.
proof fn lemma_run_of(
    b: Seq<u8>,
    m: Map<u32, Seq<Posting>>,
    hs: Seq<u32>,
    header: SegmentHeader,
    i: int,
)
    requires
        is_segment(b, m, hs, header),
        b.len() < 0x100_0000_0000,
        0 <= i < hs.len(),
    ensures
        run_postings(b, i) == m[hs[i]].map_values(|p: Posting| stored_posting(p)),
{
    lemma_segment_size(b, m, hs, header);
    lemma_total_step(m, hs, i);
    lemma_run_start_monotone(m, hs, i + 1, hs.len() as int);
    assert(entry_written(b, m, hs, i));
    assert(run_written(b, m, hs, i));
    if i + 1 < hs.len() {
        assert(entry_written(b, m, hs, i + 1));
    }
    assert(entry_offset(b, i) == run_start(m, hs, i));
    assert(run_end(b, i) == run_start(m, hs, i + 1));
    let list = m[hs[i]];
    assert(run_len(b, i) == list.len());
    assert forall|k: int| 0 <= k < list.len() implies run_postings(b, i)[k] == stored_posting(
        list[k],
    ) by {
        assert(posting_at(b, run_start(m, hs, i) + 8 * k) == stored_posting(list[k]));
    }
    assert(run_postings(b, i) =~= list.map_values(|p: Posting| stored_posting(p)));
}

/// Looking a hash up in a built segment gives its tidied list, anchor times
/// reduced to 24 bits; a hash that was never added is absent. The format
/// addresses postings by 40-bit offsets, so the segment must be smaller than
/// that.
pub proof fn law_lookup_reads_what_was_built(
    b: Seq<u8>,
    m: Map<u32, Seq<Posting>>,
    header: SegmentHeader,
    hash: u32,
    found: bool,
    out: Seq<Posting>,
)
    requires
        serializes(b, m, header),
        b.len() < 0x100_0000_0000,
        lookup_answers(b, hash, found, out),
    ensures
        found == m.contains_key(hash),
        found ==> out == m[hash].map_values(|p: Posting| stored_posting(p)),
{
    let hs = choose|hs: Seq<u32>| #[trigger] is_segment(b, m, hs, header);
    law_built_directory_is_valid(b, m, header);
    law_search_finds_every_entry(b, hash);
    if found {
        let i = found_entry(b, hash)->0;
        lemma_entry_of(b, m, hs, header, i, hash);
        lemma_run_of(b, m, hs, header, i);
        assert(hs.contains(hash));
    } else if m.contains_key(hash) {
        assert(hs.contains(hash));
        let i = hs.index_of(hash);
        lemma_entry_of(b, m, hs, header, i, hash);
        assert(is_entry_of(b, i, hash));
    }
}

/// Anchor times below `2^24` come back unchanged.
pub proof fn law_small_anchors_are_kept(list: Seq<Posting>)
    requires
        forall|k: int| 0 <= k < list.len() ==> (#[trigger] list[k]).anchor_time < 0x100_0000,
    ensures
        list.map_values(|p: Posting| stored_posting(p)) == list,
{
    assert forall|k: int| 0 <= k < list.len() implies list.map_values(
        |p: Posting| stored_posting(p),
    )[k] == list[k] by {
        assert(list[k].anchor_time < 0x100_0000);
    }
    assert(list.map_values(|p: Posting| stored_posting(p)) =~= list);
}

/// A built segment reports the distinct recordings of each hash, up to the
/// 24-bit cap.
pub proof fn law_frequency_reads_what_was_built(
    b: Seq<u8>,
    m: Map<u32, Seq<Posting>>,
    header: SegmentHeader,
    hash: u32,
    r: Option<u64>,
)
    requires
        serializes(b, m, header),
        frequency_answers(b, hash, r),
    ensures
        r is Some <==> m.contains_key(hash),
        r is Some ==> r->0 == stored_df(document_frequency(m[hash])),
{
    let hs = choose|hs: Seq<u32>| #[trigger] is_segment(b, m, hs, header);
    law_built_directory_is_valid(b, m, header);
    law_search_finds_every_entry(b, hash);
    if let Some(df) = r {
        let i = found_entry(b, hash)->0;
        lemma_entry_of(b, m, hs, header, i, hash);
        assert(entry_written(b, m, hs, i));
        assert(hs.contains(hash));
    } else if m.contains_key(hash) {
        assert(hs.contains(hash));
        let i = hs.index_of(hash);
        lemma_entry_of(b, m, hs, header, i, hash);
        assert(is_entry_of(b, i, hash));
    }
}

/// A built segment lists exactly its hashes, ascending.
pub proof fn law_all_hashes_reconstructs_every_key(
    b: Seq<u8>,
    m: Map<u32, Seq<Posting>>,
    header: SegmentHeader,
    out: Seq<u32>,
)
    requires
        serializes(b, m, header),
        lists_hashes(b, out),
    ensures
        ascending(out),
        forall|h: u32| out.contains(h) <==> m.contains_key(h),
{
    let hs = choose|hs: Seq<u32>| #[trigger] is_segment(b, m, hs, header);
    lemma_first_entry(b, m, hs, header, 0);
    lemma_first_entry(b, m, hs, header, 0x1_0000);
    let first = below_bucket(hs, 0) as int;
    let last = below_bucket(hs, 0x1_0000) as int;
    if first > 0 {
        assert(hs[0] as int / 0x1_0000 < 0);
    }
    if last < hs.len() {
        assert(hs[last] as int / 0x1_0000 < 0x1_0000);
    }
    assert forall|k: int| 0 <= k < out.len() implies out[k] == hs[k] by {
        assert(is_entry_of(b, first_entry(b, 0) + k, out[k]));
        lemma_entry_of(b, m, hs, header, k, out[k]);
    }
    assert(out =~= hs);
}

/// A set of hashes has one ascending order.
pub proof fn law_hash_order_is_unique(a: Seq<u32>, b: Seq<u32>)
    requires
        ascending(a),
        ascending(b),
        forall|h: u32| a.contains(h) <==> b.contains(h),
    ensures
        a == b,
    decreases a.len(),
{
    if a.len() == 0 {
        if b.len() > 0 {
            assert(b.contains(b[0]));
            assert(a.contains(b[0]));
        }
        assert(a =~= b);
    } else {
        assert(a.contains(a.last()));
        let j = b.index_of(a.last());
        assert(b[j] == a.last());
        assert(b.contains(b.last()));
        let k = a.index_of(b.last());
        assert(a[k] == b.last());
        let a2 = a.drop_last();
        let b2 = b.drop_last();
        assert(a.last() == b.last());
        assert forall|h: u32| a2.contains(h) <==> b2.contains(h) by {
            lemma_drop_last_hash(a, h);
            lemma_drop_last_hash(b, h);
        }
        law_hash_order_is_unique(a2, b2);
        assert(a =~= a2.push(a.last()));
        assert(b =~= b2.push(b.last()));
    }
}

proof fn lemma_drop_last_hash(s: Seq<u32>, h: u32)
    requires
        ascending(s),
        s.len() > 0,
    ensures
        s.drop_last().contains(h) <==> s.contains(h) && h != s.last(),
{
    let t = s.drop_last();
    if t.contains(h) {
        let i = t.index_of(h);
        assert(s[i] == h);
        assert(s[i] < s[s.len() - 1]);
    }
    if s.contains(h) && h != s.last() {
        let i = s.index_of(h);
        assert(t[i] == h);
    }
}

// ---- corruption ----

/// Multiplication by the FNV prime can be undone: the prime is odd.
proof fn lemma_fnv_mul_injective(x: u32, y: u32)
    requires
        fnv_mul(x) == fnv_mul(y),
    ensures
        x == y,
{
    lemma_fnv_unmul(x);
    lemma_fnv_unmul(y);
}

proof fn lemma_fnv_unmul(x: u32)
    ensures
        (fnv_mul(x) * 0x359c449b) % 0x1_0000_0000 == x,
{
    let m: int = 0x1_0000_0000;
    let p: int = 0x0100_0193;
    let q: int = 0x359c449b;
    let v = x as int;
    vstd::arithmetic::div_mod::lemma_mul_mod_noop_left(v * p, q, m);
    assert((v * p) * q == v * (p * q)) by (nonlinear_arith)
        requires
            p == 0x0100_0193,
            q == 0x359c449b,
    ;
    assert(p * q == m * 3513497 + 1);
    let k: int = 3513497;
    assert(v * (p * q) == m * (v * k) + v) by (nonlinear_arith)
        requires
            p * q == m * k + 1,
    ;
    vstd::arithmetic::div_mod::lemma_mod_multiples_vanish(v * k, v, m);
    vstd::arithmetic::div_mod::lemma_small_mod(x as nat, m as nat);
}

/// One changed byte changes the FNV-1a hash.
proof fn lemma_fnv_detects(s: Seq<u8>, k: int, x: u8)
    requires
        0 <= k < s.len(),
        s[k] != x,
    ensures
        fnv1a_of(s.update(k, x)) != fnv1a_of(s),
    decreases s.len(),
{
    let t = s.update(k, x);
    let h = fnv1a_of(s.drop_last());
    let g = fnv1a_of(t.drop_last());
    let a = s.last();
    let b = t.last();
    if k == s.len() - 1 {
        assert(t.drop_last() =~= s.drop_last());
        if fnv_step(h, a) == fnv_step(g, b) {
            lemma_fnv_mul_injective(h ^ (a as u32), g ^ (b as u32));
            assert(a == b) by (bit_vector)
                requires
                    h ^ (a as u32) == h ^ (b as u32),
            ;
        }
    } else {
        assert(t.drop_last() =~= s.drop_last().update(k, x));
        lemma_fnv_detects(s.drop_last(), k, x);
        if fnv_step(h, a) == fnv_step(g, b) {
            lemma_fnv_mul_injective(h ^ (a as u32), g ^ (b as u32));
            assert(h == g) by (bit_vector)
                requires
                    h ^ (a as u32) == g ^ (a as u32),
            ;
        }
    }
}

/// One changed byte of the body changes the checksum.
proof fn lemma_checksum_detects(b: Seq<u8>, k: int, x: u8)
    requires
        b.len() >= ENTRIES_BASE,
        entries_end(b) <= b.len(),
        HEADER_LEN <= k < b.len(),
        b[k] != x,
    ensures
        body_checksum_of(b.update(k, x)) != body_checksum_of(b),
        entries_end(b.update(k, x)) == entries_end(b),
{
    let c = b.update(k, x);
    let end = entries_end(b);
    lemma_le_at_agrees(b, c, 20, 8);
    let (b1, c1) = (
        b.subrange(HEADER_LEN as int, ENTRIES_BASE as int),
        c.subrange(HEADER_LEN as int, ENTRIES_BASE as int),
    );
    let (b2, c2) = (b.subrange(ENTRIES_BASE as int, end), c.subrange(ENTRIES_BASE as int, end));
    let (b3, c3) = (b.subrange(end, b.len() as int), c.subrange(end, b.len() as int));
    let (d, e, p) = (fnv1a_of(b1), fnv1a_of(b2), fnv1a_of(b3));
    let (d2, e2, p2) = (fnv1a_of(c1), fnv1a_of(c2), fnv1a_of(c3));
    if k < ENTRIES_BASE {
        assert(c1 =~= b1.update(k - HEADER_LEN, x));
        lemma_fnv_detects(b1, k - HEADER_LEN, x);
        assert(c2 =~= b2);
        assert(c3 =~= b3);
    } else if k < end {
        assert(c2 =~= b2.update(k - ENTRIES_BASE, x));
        lemma_fnv_detects(b2, k - ENTRIES_BASE, x);
        assert(c1 =~= b1);
        assert(c3 =~= b3);
    } else {
        assert(c3 =~= b3.update(k - end, x));
        lemma_fnv_detects(b3, k - end, x);
        assert(c1 =~= b1);
        assert(c2 =~= b2);
    }
    let (u, u2) = (fnv_mul(d), fnv_mul(d2));
    let (v, v2) = (u ^ e, u2 ^ e2);
    let (w, w2) = (fnv_mul(v), fnv_mul(v2));
    if w ^ p == w2 ^ p2 {
        if k < end {
            assert(w == w2) by (bit_vector)
                requires
                    w ^ p == w2 ^ p2,
                    p == p2,
            ;
            lemma_fnv_mul_injective(v, v2);
            if k < ENTRIES_BASE {
                assert(u == u2) by (bit_vector)
                    requires
                        v == u ^ e,
                        v2 == u2 ^ e2,
                        v == v2,
                        e == e2,
                ;
                lemma_fnv_mul_injective(d, d2);
            } else {
                assert(e == e2) by (bit_vector)
                    requires
                        v == u ^ e,
                        v2 == u2 ^ e2,
                        v == v2,
                        u == u2,
                ;
            }
        } else {
            assert(p == p2) by (bit_vector)
                requires
                    w ^ p == w2 ^ p2,
                    w == w2,
            ;
        }
    }
}

/// A segment with one corrupted byte of its body does not open: the checksum
/// tells.
pub proof fn law_corrupted_body_is_detected(b: Seq<u8>, k: int, x: u8)
    requires
        open_outcome(b) is Ok,
        HEADER_LEN <= k < b.len(),
        b[k] != x,
    ensures
        open_outcome(b.update(k, x)) == Err::<SegmentHeader, OpenError>(
            OpenError::ChecksumMismatch {
                expected: body_checksum_of(b),
                found: body_checksum_of(b.update(k, x)),
            },
        ),
{
    let c = b.update(k, x);
    lemma_checksum_detects(b, k, x);
    lemma_le_at_agrees(b, c, 4, 4);
    lemma_le_at_agrees(b, c, 36, 4);
}

/// The four bytes of a number, the highest first.
pub open spec fn high_bytes(v: u32) -> Seq<u8> {
    seq![
        (v / 0x100_0000) as u8,
        (v / 0x1_0000 % 0x100) as u8,
        (v / 0x100 % 0x100) as u8,
        (v % 0x100) as u8,
    ]
}

/// The words of an error.
pub open spec fn open_error_words(e: OpenError) -> Seq<char> {
    match e {
        OpenError::BadMagic => "not a .siv segment"@,
        OpenError::UnsupportedFormat(v) => "unsupported index format v"@ + decimal(v as nat),
        OpenError::ChecksumMismatch { expected, found } => "corrupt segment: checksum 0x"@ + hex(
            high_bytes(found),
        ) + ", expected 0x"@ + hex(high_bytes(expected)),
        OpenError::VersionMismatch { segment, manifest } => "fingerprint v"@
            + decimal(segment.major as nat) + "."@ + decimal(segment.minor as nat)
            + ", manifest v"@ + decimal(manifest.major as nat) + "."@ + decimal(
            manifest.minor as nat,
        ),
    }
}

fn push_words(out: &mut Vec<char>, s: &str)
    ensures
        final(out)@ == old(out)@ + s@,
{
    let mut cs: Vec<char> = chars_of(s);
    out.append(&mut cs);
}

fn push_decimal(out: &mut Vec<char>, n: u64)
    ensures
        final(out)@ == old(out)@ + decimal(n as nat),
{
    let mut cs: Vec<char> = decimal_digits(n);
    out.append(&mut cs);
}

fn push_hex(out: &mut Vec<char>, v: u32)
    ensures
        final(out)@ == old(out)@ + hex(high_bytes(v)),
{
    let bytes: [u8; 4] = [
        (v / 0x100_0000) as u8,
        (v / 0x1_0000 % 0x100) as u8,
        (v / 0x100 % 0x100) as u8,
        (v % 0x100) as u8,
    ];
    assert(bytes@ =~= high_bytes(v));
    let digits: String = to_hex(&bytes);
    push_words(out, digits.as_str());
}

impl OpenError {
    /// The error in words.
    pub fn describe(&self) -> (s: String)
        ensures
            s@ == open_error_words(*self),
    {
        let mut cs: Vec<char> = Vec::new();
        match self {
            OpenError::BadMagic => {
                push_words(&mut cs, "not a .siv segment");
            },
            OpenError::UnsupportedFormat(v) => {
                push_words(&mut cs, "unsupported index format v");
                push_decimal(&mut cs, *v as u64);
            },
            OpenError::ChecksumMismatch { expected, found } => {
                push_words(&mut cs, "corrupt segment: checksum 0x");
                push_hex(&mut cs, *found);
                push_words(&mut cs, ", expected 0x");
                push_hex(&mut cs, *expected);
            },
            OpenError::VersionMismatch { segment, manifest } => {
                push_words(&mut cs, "fingerprint v");
                push_decimal(&mut cs, segment.major as u64);
                push_words(&mut cs, ".");
                push_decimal(&mut cs, segment.minor as u64);
                push_words(&mut cs, ", manifest v");
                push_decimal(&mut cs, manifest.major as u64);
                push_words(&mut cs, ".");
                push_decimal(&mut cs, manifest.minor as u64);
            },
        }
        assert(cs@ =~= open_error_words(*self));
        string_of(&cs)
    }
}

// ---- the format, byte by byte ----

/// Where things stand in a segment: the counts in the header, the directory
/// behind it, the entries behind that; a posting is the recording in four
/// bytes, the anchor time in three and one more.
pub proof fn law_segments_are_read_byte_by_byte(b: Seq<u8>, slot: int, i: int, at: int)
    requires
        b.len() >= 524_340,
    ensures
        header_of(b).index_format_version == word_at(b, 4),
        header_of(b).fingerprint_version.major == b[8] + 0x100 * b[9],
        header_of(b).fingerprint_version.minor == b[10] + 0x100 * b[11],
        header_of(b).recording_count == word_at(b, 12) + 0x1_0000_0000 * word_at(b, 16),
        header_of(b).hash_count == word_at(b, 20) + 0x1_0000_0000 * word_at(b, 24),
        header_of(b).posting_count == word_at(b, 28) + 0x1_0000_0000 * word_at(b, 32),
        hash_count_of(b) == header_of(b).hash_count,
        0 <= slot <= 65_536 ==> dir_value(b, slot) == word_at(b, 44 + 8 * slot) + 0x1_0000_0000
            * word_at(b, 48 + 8 * slot),
        0 <= slot <= 65_536 ==> first_entry(b, slot) == (dir_value(b, slot) - 524_340) / 12,
        0 <= i && 524_340 + 12 * i + 12 <= b.len() ==> {
            let e = 524_340 + 12 * i;
            &&& entry_low(b, i) == b[e] + 0x100 * b[e + 1]
            &&& entry_offset(b, i) == word_at(b, e + 2) + 0x1_0000_0000 * b[e + 6]
            &&& entry_df(b, i) == b[e + 7] + 0x100 * b[e + 8] + 0x1_0000 * b[e + 9]
        },
        0 <= at && at + 8 <= b.len() ==> {
            &&& posting_at(b, at).recording.0 == word_at(b, at)
            &&& posting_at(b, at).anchor_time == b[at + 4] + 0x100 * b[at + 5] + 0x1_0000 * b[at
                + 6]
        },
{
    law_numbers_are_little_endian(b, 4);
    law_numbers_are_little_endian(b, 8);
    law_numbers_are_little_endian(b, 10);
    law_numbers_are_little_endian(b, 12);
    law_numbers_are_little_endian(b, 20);
    law_numbers_are_little_endian(b, 28);
    if 0 <= slot <= 65_536 {
        law_numbers_are_little_endian(b, 44 + 8 * slot);
    }
    if 0 <= i && 524_340 + 12 * i + 12 <= b.len() {
        let e = 524_340 + 12 * i;
        law_numbers_are_little_endian(b, e);
        law_numbers_are_little_endian(b, e + 2);
        law_numbers_are_little_endian(b, e + 7);
    }
    if 0 <= at && at + 8 <= b.len() {
        law_numbers_are_little_endian(b, at);
    }
}

/// Bytes open exactly if they start with the letters SIV1, hold header and
/// directory, are of format 1, hold the entries they announce and carry the
/// checksum of their body. What does not open is told by the first of these
/// that fails; entries that do not fit are no segment either.
pub proof fn law_segments_open_by_their_bytes(b: Seq<u8>)
    ensures
        ({
            let whole = b.len() >= 524_340 && b[0] == 'S' as u8 && b[1] == 'I' as u8 && b[2]
                == 'V' as u8 && b[3] == '1' as u8;
            let hashes = word_at(b, 20) + 0x1_0000_0000 * word_at(b, 24);
            let fits = 524_340 + 12 * hashes <= b.len();
            &&& open_outcome(b) is Ok <==> whole && word_at(b, 4) == 1 && fits && word_at(b, 36)
                == body_checksum_of(b)
            &&& open_outcome(b) is Ok ==> open_outcome(b)->Ok_0 == header_of(b)
            &&& open_outcome(b) == Err::<SegmentHeader, OpenError>(OpenError::BadMagic) <==> !whole
                || (word_at(b, 4) == 1 && !fits)
            &&& whole && word_at(b, 4) != 1 ==> open_outcome(b) == Err::<SegmentHeader, OpenError>(
                OpenError::UnsupportedFormat(word_at(b, 4) as u32),
            )
            &&& whole && word_at(b, 4) == 1 && fits && word_at(b, 36) != body_checksum_of(b)
                ==> open_outcome(b) == Err::<SegmentHeader, OpenError>(
                OpenError::ChecksumMismatch {
                    expected: word_at(b, 36) as u32,
                    found: body_checksum_of(b),
                },
            )
        }),
{
    if b.len() >= 524_340 {
        law_numbers_are_little_endian(b, 4);
        law_numbers_are_little_endian(b, 20);
        law_numbers_are_little_endian(b, 36);
    }
}

/// The checksum of bytes starts at 2166136261; every byte is mixed in by
/// exclusive or, and what comes of it is multiplied by 16777619 and reduced
/// to 32 bits. That of a body is made of those of its directory, entries and
/// postings.
pub proof fn law_checksums_mix_every_byte(s: Seq<u8>, x: u8, b: Seq<u8>)
    ensures
        fnv1a_of(Seq::<u8>::empty()) == 2_166_136_261u32,
        fnv1a_of(s.push(x)) == ((fnv1a_of(s) ^ (x as u32)) as int * 16_777_619)
            % 4_294_967_296,
        b.len() >= 524_340 ==> {
            let end = 524_340 + 12 * (word_at(b, 20) + 0x1_0000_0000 * word_at(b, 24));
            let dir = fnv1a_of(b.subrange(44, 524_340));
            let entries = fnv1a_of(b.subrange(524_340, end));
            let postings = fnv1a_of(b.subrange(end, b.len() as int));
            let first = ((dir as int * 16_777_619) % 4_294_967_296) as u32;
            let second = (((first ^ entries) as int * 16_777_619) % 4_294_967_296) as u32;
            body_checksum_of(b) == second ^ postings
        },
{
    assert(s.push(x).drop_last() =~= s);
    if b.len() >= 524_340 {
        law_numbers_are_little_endian(b, 20);
    }
}

/// What a build writes first: the letters, the format, the checksum, and a
/// directory in which every bucket points behind the hashes of lower buckets.
/// The hashes ascend.
pub proof fn law_directories_are_written_byte_by_byte(
    b: Seq<u8>,
    m: Map<u32, Seq<Posting>>,
    hs: Seq<u32>,
    header: SegmentHeader,
    slot: int,
)
    requires
        is_segment(b, m, hs, header),
        0 <= slot <= 65_536,
    ensures
        forall|x: int, y: int| 0 <= x < y < hs.len() ==> #[trigger] hs[x] < #[trigger] hs[y],
        b[0] == 'S' as u8 && b[1] == 'I' as u8 && b[2] == 'V' as u8 && b[3] == '1' as u8,
        word_at(b, 4) == 1 && word_at(b, 40) == 0 && word_at(b, 36) == body_checksum_of(b),
        word_at(b, 44 + 8 * slot) + 0x1_0000_0000 * word_at(b, 48 + 8 * slot) == 524_340 + 12
            * hs.filter(|h: u32| (h as int) < 65_536 * slot).len(),
{
    law_numbers_are_little_endian(b, 4);
    law_numbers_are_little_endian(b, 36);
    law_numbers_are_little_endian(b, 40);
    law_numbers_are_little_endian(b, 44 + 8 * slot);
    assert(dir_value(b, slot) == ENTRIES_BASE + 12 * below_bucket(hs, slot));
    lemma_below_is_filter(hs, slot);
}

/// What a build writes for a hash: the low half, where its postings start,
/// and how many recordings list it (at most 16777215). The postings of a hash
/// stand in one run behind the entries, and the runs follow one another in
/// the order of the hashes, up to the end.
pub proof fn law_entries_are_written_byte_by_byte(
    b: Seq<u8>,
    m: Map<u32, Seq<Posting>>,
    hs: Seq<u32>,
    header: SegmentHeader,
    i: int,
)
    requires
        is_segment(b, m, hs, header),
        b.len() < 0x100_0000_0000,
        0 <= i < hs.len(),
    ensures
        ({
            let e = 524_340 + 12 * i;
            let run = word_at(b, e + 2) + 0x1_0000_0000 * b[e + 6];
            &&& b[e] + 0x100 * b[e + 1] == hs[i] % 65_536
            &&& b[e + 7] + 0x100 * b[e + 8] + 0x1_0000 * b[e + 9] == if document_frequency(m[hs[i]])
                <= 16_777_215 {
                document_frequency(m[hs[i]]) as int
            } else {
                16_777_215
            }
            &&& i == 0 ==> run == 524_340 + 12 * hs.len()
            &&& i + 1 < hs.len() ==> word_at(b, e + 14) + 0x1_0000_0000 * b[e + 18] == run + 8
                * m[hs[i]].len()
            &&& i + 1 == hs.len() ==> b.len() == run + 8 * m[hs[i]].len()
        }),
{
    lemma_entry_bytes(b, m, hs, header, i);
    lemma_runs_fit(m, hs, i);
    if i + 1 < hs.len() {
        lemma_entry_bytes(b, m, hs, header, i + 1);
    }
    if i == 0 {
        assert(hs.take(0) =~= Seq::<u32>::empty());
    }
}

proof fn lemma_entry_bytes(
    b: Seq<u8>,
    m: Map<u32, Seq<Posting>>,
    hs: Seq<u32>,
    header: SegmentHeader,
    i: int,
)
    requires
        is_segment(b, m, hs, header),
        b.len() < 0x100_0000_0000,
        0 <= i < hs.len(),
    ensures
        ({
            let e = 524_340 + 12 * i;
            &&& b[e] + 0x100 * b[e + 1] == hs[i] % 65_536
            &&& word_at(b, e + 2) + 0x1_0000_0000 * b[e + 6] == run_start(m, hs, i)
            &&& b[e + 7] + 0x100 * b[e + 8] + 0x1_0000 * b[e + 9] == stored_df(
                document_frequency(m[hs[i]]),
            )
        }),
{
    let e = 524_340 + 12 * i;
    lemma_runs_fit(m, hs, i);
    assert(entry_written(b, m, hs, i));
    law_numbers_are_little_endian(b, e);
    law_numbers_are_little_endian(b, e + 2);
    law_numbers_are_little_endian(b, e + 7);
}

/// A posting of a run: the recording, and the anchor time as far as 24 bits
/// go.
pub proof fn law_postings_are_written_byte_by_byte(
    b: Seq<u8>,
    m: Map<u32, Seq<Posting>>,
    hs: Seq<u32>,
    header: SegmentHeader,
    i: int,
    k: int,
)
    requires
        is_segment(b, m, hs, header),
        b.len() < 0x100_0000_0000,
        0 <= i < hs.len(),
        0 <= k < m[hs[i]].len(),
    ensures
        ({
            let e = 524_340 + 12 * i;
            let at = word_at(b, e + 2) + 0x1_0000_0000 * b[e + 6] + 8 * k;
            let p = m[hs[i]][k];
            &&& word_at(b, at) == p.recording.0
            &&& b[at + 4] + 0x100 * b[at + 5] + 0x1_0000 * b[at + 6] == p.anchor_time
                % 0x100_0000
            &&& b[at + 7] == 0
        }),
{
    lemma_entry_bytes(b, m, hs, header, i);
    lemma_runs_fit(m, hs, i);
    let at = run_start(m, hs, i) + 8 * k;
    assert(run_written(b, m, hs, i));
    assert(posting_at(b, at) == stored_posting(m[hs[i]][k]));
    law_numbers_are_little_endian(b, at);
}

/// Hashes below a bucket, counted.
proof fn lemma_below_is_filter(hs: Seq<u32>, slot: int)
    requires
        ascending(hs),
    ensures
        below_bucket(hs, slot) == hs.filter(|h: u32| (h as int) < 65_536 * slot).len(),
    decreases hs.len(),
{
    reveal(Seq::filter);
    let p = |h: u32| (h as int) < 65_536 * slot;
    if hs.len() > 0 {
        let t = hs.drop_last();
        assert forall|x: int, y: int| 0 <= x < y < t.len() implies #[trigger] t[x] < #[trigger] t[y] by {
            assert(hs[x] < hs[y]);
        }
        lemma_below_is_filter(t, slot);
        let last = hs.last() as int;
        assert(last / 0x1_0000 < slot <==> last < 65_536 * slot);
        if last < 65_536 * slot {
            lemma_below_bucket(t, slot);
            assert(below_bucket(t, slot) == t.len()) by {
                if below_bucket(t, slot) < t.len() {
                    let x = below_bucket(t, slot) as int;
                    assert(t[x] as int / 0x1_0000 >= slot);
                    assert(hs[x] < hs[hs.len() - 1]);
                }
            }
        }
    }
}

/// The run of a hash and the one behind it.
proof fn lemma_runs_fit(m: Map<u32, Seq<Posting>>, hs: Seq<u32>, i: int)
    requires
        0 <= i < hs.len(),
    ensures
        run_start(m, hs, i + 1) == run_start(m, hs, i) + 8 * m[hs[i]].len(),
        run_start(m, hs, i + 1) <= run_start(m, hs, hs.len() as int),
    decreases hs.len() - i,
{
    assert(hs.take(i + 1).drop_last() =~= hs.take(i));
    if i + 1 < hs.len() {
        lemma_runs_fit(m, hs, i + 1);
    }
}

/// An anchor time loses what lies above 24 bits, and the recording nothing.
pub proof fn law_stored_postings_keep_the_recording(p: Posting)
    ensures
        stored_posting(p).recording == p.recording,
        stored_posting(p).anchor_time < 16_777_216,
        p.anchor_time < 16_777_216 ==> stored_posting(p) == p,
        (p.anchor_time - stored_posting(p).anchor_time) % 16_777_216 == 0,
{
}

/// The errors in words.
pub proof fn law_open_errors_in_words(v: u32, expected: u32, found: u32)
    ensures
        open_error_words(OpenError::BadMagic) == "not a .siv segment"@,
        open_error_words(OpenError::UnsupportedFormat(v)) == "unsupported index format v"@
            + decimal(v as nat),
        open_error_words(OpenError::ChecksumMismatch { expected, found })
            == "corrupt segment: checksum 0x"@ + hex(high_bytes(found)) + ", expected 0x"@ + hex(
            high_bytes(expected),
        ),
        high_bytes(found)[0] * 0x100_0000 + high_bytes(found)[1] * 0x1_0000 + high_bytes(found)[2]
            * 0x100 + high_bytes(found)[3] == found,
{
}

/// The postings of an entry stand from its offset on, eight bytes each, up to
/// where those of the next entry start, or to the end of the bytes where
/// there is no next entry or it starts beyond them.
pub proof fn law_runs_end_where_the_next_begins(b: Seq<u8>, i: int, k: int)
    requires
        0 <= i,
    ensures
        ({
            let start = entry_offset(b, i) as int;
            let next = entry_offset(b, i + 1) as int;
            let end = if i + 1 < hash_count_of(b) && next < b.len() {
                next
            } else {
                b.len() as int
            };
            let run = run_postings(b, i);
            &&& end <= start ==> run.len() == 0
            &&& start < end ==> 8 * run.len() <= end - start < 8 * run.len() + 8
            &&& 0 <= k < run.len() ==> run[k] == posting_at(b, start + 8 * k)
        }),
{
}

/// The header of a build: the counts and the version that it was given, and
/// the format.
pub proof fn law_built_headers_hold_the_counts(
    recordings: nat,
    hashes: nat,
    postings: nat,
    fp: FingerprintVersion,
)
    requires
        recordings <= u64::MAX,
        hashes <= u64::MAX,
        postings <= u64::MAX,
    ensures
        ({
            let h = built_header(recordings, hashes, postings, fp);
            &&& h.index_format_version == 1
            &&& h.fingerprint_version == fp
            &&& h.recording_count == recordings
            &&& h.hash_count == hashes
            &&& h.posting_count == postings
        }),
{
}

/// A directory is consistent exactly if every bucket starts at a whole entry,
/// within the entries that the header announces, and none before an earlier
/// one. Within a bucket the low halves ascend.
pub proof fn law_directories_are_runs_of_entries(b: Seq<u8>)
    requires
        b.len() >= 524_340,
    ensures
        directory_ok(b) <==> {
            &&& forall|s: int|
                0 <= s <= 65_536 ==> {
                    &&& 524_340 <= #[trigger] dir_value(b, s) <= 524_340 + 12 * header_of(
                        b,
                    ).hash_count
                    &&& (dir_value(b, s) - 524_340) % 12 == 0
                }
            &&& forall|s: int, t: int|
                0 <= s <= t <= 65_536 ==> #[trigger] dir_value(b, s) <= #[trigger] dir_value(b, t)
        },
{
    law_segments_are_read_byte_by_byte(b, 0, 0, 0);
}

/// Entry `i` is that of the hash exactly if it stands in the bucket of the
/// upper half and holds the lower.
pub proof fn law_entries_stand_in_their_bucket(b: Seq<u8>, i: int, hash: u32)
    ensures
        is_entry_of(b, i, hash) <==> first_entry(b, hash as int / 65_536) <= i < first_entry(
            b,
            hash as int / 65_536 + 1,
        ) && entry_low(b, i) == hash as int % 65_536,
{
}

} // verus!
