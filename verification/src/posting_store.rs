//! Posting lists as values of a key-value store.
//!
//! A store keeps one value per hash: the packed postings one after the
//! other, eight bytes each, in the same layout as index segments. Adding a
//! recording appends its postings to the values of its hashes.
use vstd::prelude::*;

use crate::bytes::{law_numbers_are_little_endian, word_at};
use crate::ids::RecordingId;
use crate::postings::{
    lemma_recording_postings, lemma_with_recording, list_of, recording_postings, PostingMap,
};
use crate::segment::{
    ascending, lemma_sorted_ascends, pack_posting, posting_at, stored_posting, unpack_posting, Posting,
};
use crate::sort::{lemma_permuted_contains, sorted};
use crate::version::{version_of, EngineId, FingerprintVersion};

verus! {

/// The postings of one recording under one hash.
#[derive(Debug)]
pub struct HashList {
    pub hash: u32,
    pub postings: Vec<Posting>,
}

pub open spec fn hashes_of(lists: Seq<HashList>) -> Seq<u32> {
    lists.map_values(|l: HashList| l.hash)
}

/// `lists` holds the postings of one recording: a list for each of its
/// hashes, by hash, each in the order of the fingerprints.
pub open spec fn lists_recording(
    lists: Seq<HashList>,
    recording: RecordingId,
    fps: Seq<(u32, u32)>,
) -> bool {
    &&& ascending(hashes_of(lists))
    &&& forall|h: u32| #[trigger]
        hashes_of(lists).contains(h) <==> recording_postings(recording, fps, h).len() > 0
    &&& forall|i: int|
        0 <= i < lists.len() ==> (#[trigger] lists[i]).postings@ == recording_postings(
            recording,
            fps,
            lists[i].hash,
        )
}

/// The postings of the fingerprints `(hash, anchor)` of one recording: one
/// list per hash, by hash, each in the order of the fingerprints.
pub fn recording_lists(recording: RecordingId, fps: &[(u32, u32)]) -> (lists: Vec<HashList>)
    ensures
        lists_recording(lists@, recording, fps@),
{
    let mut map = PostingMap::new();
    map.push_recording(recording, fps);
    let keys: Vec<u32> = map.keys();
    let order: Vec<u32> = sorted(keys.as_slice());
    proof {
        lemma_permuted_contains(order@, keys@);
        lemma_sorted_ascends(keys@, order@);
    }
    let ghost m = map@;
    let mut lists: Vec<HashList> = Vec::new();
    let mut i: usize = 0;
    while i < order.len()
        invariant
            i <= order.len(),
            map.wf(),
            m == map@,
            forall|h: u32| order@.contains(h) <==> m.contains_key(h),
            lists.len() == i,
            forall|k: int|
                0 <= k < i ==> (#[trigger] lists[k]).hash == order[k] && lists[k].postings@
                    == m[order[k]],
        decreases order.len() - i,
    {
        let hash: u32 = order[i];
        assert(order@.contains(hash));
        let mut postings: Vec<Posting> = Vec::new();
        if let Some(list) = map.get(hash) {
            let mut k: usize = 0;
            while k < list.len()
                invariant
                    k <= list.len(),
                    postings@ == list@.take(k as int),
                decreases list.len() - k,
            {
                postings.push(list[k]);
                k = k + 1;
                assert(postings@ =~= list@.take(k as int));
            }
            assert(list@.take(k as int) =~= list@);
        }
        lists.push(HashList { hash, postings });
        i = i + 1;
    }
    proof {
        assert(hashes_of(lists@) =~= order@);
        assert forall|h: u32| #[trigger] hashes_of(lists@).contains(h) <==> recording_postings(
            recording,
            fps@,
            h,
        ).len() > 0 by {
            lemma_with_recording(Map::empty(), recording, fps@, h);
        }
        assert forall|k: int| 0 <= k < lists.len() implies (#[trigger] lists[k]).postings@
            == recording_postings(recording, fps@, lists[k].hash) by {
            let h = lists[k].hash;
            assert(order@.contains(order[k]));
            lemma_with_recording(Map::empty(), recording, fps@, h);
            assert(list_of(m, h) =~= recording_postings(recording, fps@, h));
        }
    }
    lists
}

/// The postings that a value holds; a last incomplete one is passed over.
pub open spec fn value_postings(value: Seq<u8>) -> Seq<Posting> {
    Seq::new((value.len() / 8) as nat, |i: int| posting_at(value, 8 * i))
}

/// Reads the postings of a value.
pub fn read_value(value: &[u8]) -> (out: Vec<Posting>)
    ensures
        out@ == value_postings(value@),
{
    let n: usize = value.len() / 8;
    let mut out: Vec<Posting> = Vec::new();
    let mut i: usize = 0;
    while i < n
        invariant
            n == value.len() / 8,
            i <= n,
            out@ == value_postings(value@).take(i as int),
        decreases n - i,
    {
        out.push(unpack_posting(value, 8 * i));
        i = i + 1;
        assert(out@ =~= value_postings(value@).take(i as int));
    }
    assert(out@ =~= value_postings(value@));
    out
}

/// The bytes from `base` on hold posting `i` in its place.
pub open spec fn written_at(out: Seq<u8>, base: int, postings: Seq<Posting>, i: int) -> bool {
    posting_at(out, base + 8 * i) == stored_posting(postings[i]) && out[base + 8 * i + 7] == 0
}

/// Packed postings behind the bytes of a value.
pub open spec fn appended(value: Seq<u8>, postings: Seq<Posting>, out: Seq<u8>) -> bool {
    &&& out.len() == value.len() + 8 * postings.len()
    &&& out.take(value.len() as int) == value
    &&& forall|i: int|
        0 <= i < postings.len() ==> #[trigger] written_at(out, value.len() as int, postings, i)
}

/// Postings are read alike wherever their bytes stand.
proof fn lemma_posting_at(a: Seq<u8>, i: int, b: Seq<u8>, j: int)
    requires
        0 <= i,
        i + 8 <= a.len(),
        0 <= j,
        j + 8 <= b.len(),
        forall|k: int| 0 <= k < 8 ==> a[#[trigger] (i + k)] == b[j + k],
    ensures
        posting_at(a, i) == posting_at(b, j),
{
    let (x, y) = (a.subrange(i, i + 4), b.subrange(j, j + 4));
    assert(x =~= y) by {
        assert forall|k: int| 0 <= k < 4 implies #[trigger] x[k] == y[k] by {
            assert(a[i + k] == b[j + k]);
        }
    }
    assert(a[i + 4] == b[j + 4] && a[i + 5] == b[j + 5] && a[i + 6] == b[j + 6]);
}

/// The value with the postings behind what it held.
pub fn append_to_value(value: &[u8], postings: &[Posting]) -> (out: Vec<u8>)
    ensures
        appended(value@, postings@, out@),
{
    let mut out: Vec<u8> = Vec::new();
    out.extend_from_slice(value);
    assert(out@.take(value.len() as int) =~= value@);
    assert(appended(value@, postings@.take(0), out@));
    let mut i: usize = 0;
    while i < postings.len()
        invariant
            i <= postings.len(),
            appended(value@, postings@.take(i as int), out@),
        decreases postings.len() - i,
    {
        let p: Posting = postings[i];
        let packed: [u8; 8] = pack_posting(p.recording, p.anchor_time, 0);
        let ghost before = out@;
        out.extend_from_slice(&packed);
        proof {
            let at = value.len() + 8 * i;
            assert(out@ =~= before + packed@);
            assert(out@.take(value.len() as int) =~= before.take(value.len() as int));
            let done = postings@.take(i + 1);
            let start = value@.len() as int;
            assert forall|k: int| 0 <= k < done.len() implies #[trigger] written_at(
                out@,
                start,
                done,
                k,
            ) by {
                if k < i {
                    assert(written_at(before, start, postings@.take(i as int), k));
                    lemma_posting_at(before, value.len() + 8 * k, out@, value.len() + 8 * k);
                } else {
                    lemma_posting_at(packed@, 0, out@, at as int);
                }
            }
        }
        i = i + 1;
    }
    assert(postings@.take(i as int) =~= postings@);
    out
}

/// A value reads back as what it held and, behind it, what was appended, with
/// anchors as far as 24 bits hold them.
pub proof fn law_appended_postings_read_back(value: Seq<u8>, postings: Seq<Posting>, out: Seq<u8>)
    requires
        value.len() % 8 == 0,
        appended(value, postings, out),
    ensures
        value_postings(out) == value_postings(value) + postings.map_values(
            |p: Posting| stored_posting(p),
        ),
        out.len() % 8 == 0,
{
    let n = value.len() / 8;
    let both = value_postings(value) + postings.map_values(|p: Posting| stored_posting(p));
    let got = value_postings(out);
    assert(got.len() == both.len());
    assert forall|i: int| 0 <= i < got.len() implies got[i] == both[i] by {
        if i < n {
            assert forall|k: int| 0 <= k < 8 implies value[#[trigger] (8 * i + k)] == out[8 * i
                + k] by {
                assert(out.take(value.len() as int)[8 * i + k] == out[8 * i + k]);
            }
            lemma_posting_at(value, 8 * i, out, 8 * i);
        } else {
            assert(written_at(out, value.len() as int, postings, i - n));
            assert(value.len() + 8 * (i - n) == 8 * i);
        }
    }
    assert(got =~= both);
}

/// The value of a hash, empty where the store has none.
pub open spec fn value_of(store: Map<u32, Seq<u8>>, hash: u32) -> Seq<u8> {
    if store.contains_key(hash) {
        store[hash]
    } else {
        Seq::empty()
    }
}

/// `after` is the store with each list appended to the value of its hash; the
/// other values are as before.
pub open spec fn lists_added(
    before: Map<u32, Seq<u8>>,
    lists: Seq<HashList>,
    after: Map<u32, Seq<u8>>,
) -> bool {
    &&& forall|i: int|
        0 <= i < lists.len() ==> after.contains_key((#[trigger] lists[i]).hash) && appended(
            value_of(before, lists[i].hash),
            lists[i].postings@,
            after[lists[i].hash],
        )
    &&& forall|h: u32|
        !(#[trigger] hashes_of(lists).contains(h)) ==> (after.contains_key(h)
            <==> before.contains_key(h)) && value_of(after, h) == value_of(before, h)
}

/// After a recording is added, the value of each hash reads as its old
/// postings followed by those of the recording, in the order of its
/// fingerprints, with anchors as far as 24 bits hold them. Values stay whole:
/// the next recording can be added in the same way.
pub proof fn law_added_recording_reads_back(
    before: Map<u32, Seq<u8>>,
    recording: RecordingId,
    fps: Seq<(u32, u32)>,
    lists: Seq<HashList>,
    after: Map<u32, Seq<u8>>,
    hash: u32,
)
    requires
        forall|h: u32| #[trigger] before.contains_key(h) ==> before[h].len() % 8 == 0,
        lists_recording(lists, recording, fps),
        lists_added(before, lists, after),
    ensures
        value_postings(value_of(after, hash)) == value_postings(value_of(before, hash))
            + recording_postings(recording, fps, hash).map_values(|p: Posting| stored_posting(p)),
        after.contains_key(hash) <==> before.contains_key(hash) || recording_postings(
            recording,
            fps,
            hash,
        ).len() > 0,
        value_of(after, hash).len() % 8 == 0,
{
    let hs = hashes_of(lists);
    if hs.contains(hash) {
        let i = hs.index_of(hash);
        assert(lists[i].hash == hash);
        law_appended_postings_read_back(value_of(before, hash), lists[i].postings@, after[hash]);
    } else {
        assert(value_postings(value_of(before, hash)) + recording_postings(
            recording,
            fps,
            hash,
        ).map_values(|p: Posting| stored_posting(p)) =~= value_postings(value_of(before, hash)));
    }
}

/// The fingerprint format that stores of this layout hold.
pub fn fingerprint_version_note() -> (v: FingerprintVersion)
    ensures
        v == version_of(EngineId::LandmarkV2),
{
    FingerprintVersion::landmark_v2_32bit()
}

/// A recording brings one list per hash of its fingerprints, by ascending
/// hash; a list names the recording with an anchor time for every fingerprint
/// with that hash.
pub proof fn law_lists_follow_the_fingerprints(
    lists: Seq<HashList>,
    recording: RecordingId,
    fps: Seq<(u32, u32)>,
    hash: u32,
    p: Posting,
)
    requires
        lists_recording(lists, recording, fps),
    ensures
        forall|i: int, j: int|
            #![trigger lists[i], lists[j]]
            0 <= i < j < lists.len() ==> lists[i].hash < lists[j].hash,
        (exists|i: int|
            0 <= i < lists.len() && (#[trigger] lists[i]).hash == hash
                && lists[i].postings@.contains(p)) <==> p.recording == recording && exists|k: int|
            0 <= k < fps.len() && #[trigger] fps[k] == (hash, p.anchor_time),
{
    let hs = hashes_of(lists);
    assert forall|i: int, j: int|
        #![trigger lists[i], lists[j]]
        0 <= i < j < lists.len() implies lists[i].hash < lists[j].hash by {
        assert(hs[i] < hs[j]);
    }
    lemma_recording_postings(recording, fps, hash, p);
    if p.recording == recording && exists|k: int|
        0 <= k < fps.len() && #[trigger] fps[k] == (hash, p.anchor_time) {
        assert(fps.contains((hash, p.anchor_time)));
        let own = recording_postings(recording, fps, hash);
        assert(own.contains(p));
        assert(hs.contains(hash));
        let i = hs.index_of(hash);
        assert(lists[i].hash == hash);
    }
}

/// A value holds a posting for every eight of its bytes: the recording in
/// four, the anchor time in three, and one more.
pub proof fn law_values_are_read_byte_by_byte(value: Seq<u8>, i: int)
    requires
        0 <= i,
        8 * i + 8 <= value.len(),
    ensures
        8 * value_postings(value).len() <= value.len() < 8 * value_postings(value).len() + 8,
        value_postings(value)[i].recording.0 == word_at(value, 8 * i),
        value_postings(value)[i].anchor_time == value[8 * i + 4] + 0x100 * value[8 * i + 5]
            + 0x1_0000 * value[8 * i + 6],
{
    law_numbers_are_little_endian(value, 8 * i);
}

/// Appending keeps the bytes of a value and puts eight behind them for each
/// posting.
pub proof fn law_appended_bytes(value: Seq<u8>, postings: Seq<Posting>, out: Seq<u8>, i: int)
    requires
        appended(value, postings, out),
        0 <= i < postings.len(),
    ensures
        out.len() == value.len() + 8 * postings.len(),
        forall|k: int| 0 <= k < value.len() ==> #[trigger] out[k] == value[k],
        ({
            let at = value.len() + 8 * i;
            &&& word_at(out, at) == postings[i].recording.0
            &&& out[at + 4] + 0x100 * out[at + 5] + 0x1_0000 * out[at + 6]
                == postings[i].anchor_time % 0x100_0000
            &&& out[at + 7] == 0
        }),
{
    assert forall|k: int| 0 <= k < value.len() implies #[trigger] out[k] == value[k] by {
        assert(out.take(value.len() as int)[k] == out[k]);
    }
    assert(written_at(out, value.len() as int, postings, i));
    law_numbers_are_little_endian(out, value.len() + 8 * i);
}

} // verus!
