//! Catalog ingestion: which sources are new, which ids they get, and what is
//! written for them.
//!
//! A run offers every source by the digest of its bytes. A known one is
//! skipped, a new one is fingerprinted outside and completed here. At the end
//! the new recordings become one more segment and a new manifest, so running
//! a job twice adds nothing. Compaction merges all segments into one.
use vstd::prelude::*;

use crate::config::OPERATING_FREQ_BANDS;
use crate::bytes::word_at;
use crate::ids::{decimal, decimal_digits, law_decimals_read_back, RecordingId};
use crate::landmark::Fingerprint32;
use crate::manifest::{
    catalog_answers, directories_ok, part_answers, Catalog, Manifest,
};
use crate::postings::{
    all_tidy, law_added_fingerprints_are_listed, lists, posting_leq, strictly_ordered, tidied,
    with_posting, with_recording, Posting,
};
use crate::segment::{
    built_header, dir_value, directory_ok, first_entry, found_entry, is_entry_of,
    law_lookup_reads_what_was_built, law_search_finds_every_entry,
    law_segments_are_read_byte_by_byte, lists_hashes, lookup_answers, run_len, run_postings,
    serializes, stored_posting, SegmentBuilder, SegmentHeader, SivSegment,
};
use crate::sfp::{encode_batch, encodes, law_batches_are_written_byte_by_byte};
use crate::text::{
    chars_of, digits_value, extension, has_part, hex, is_extension_dot, is_part,
    law_parts_are_cut_out, lemma_lower_letter, lower_all, lowercase_text, lowercased, lowered,
    parsed_number, pieces, split_text, string_of, texts, to_hex, trim, trimmed,
};
use crate::version::{version_of, EngineId, FingerprintVersion};
use std::collections::HashMap;

verus! {

/// Sample rate of all fingerprinting.
pub const TARGET_SAMPLE_RATE: u32 = 22_050;

/// Number of log-spaced bands: every engine and the catalog agree on it.
pub const FREQ_BANDS: u16 = OPERATING_FREQ_BANDS;

/// Postings that one segment can count.
pub const POSTING_LIMIT: u64 = 0x0fff_ffff_ffff_ffff;

// ---- digests ----

/// What SHA-256 makes of the given bytes.
pub uninterp spec fn sha256(bytes: Seq<u8>) -> Seq<u8>;

/// `sha2::Sha256`, all bytes at once through `Digest::digest`: 32 bytes that
/// depend on the input alone. The function is named, not spelled out.
#[verifier::external_body]
fn sha256_of(bytes: &[u8]) -> (d: Vec<u8>)
    ensures
        d@ == sha256(bytes@),
        d.len() == 32,
{
    <sha2::Sha256 as sha2::Digest>::digest(bytes).to_vec()
}

/// The name of a source: the digest of its bytes.
pub fn source_digest(bytes: &[u8]) -> (s: String)
    ensures
        s@ == hex(sha256(bytes@)),
{
    to_hex(&sha256_of(bytes))
}

// ---- catalog state ----

/// A source that is in the catalog.
#[derive(Debug)]
pub struct Source {
    pub digest: String,
    pub recording: u32,
}

/// What a catalog knows beyond its segments.
#[derive(Debug)]
pub struct CatalogState {
    /// Sources by digest.
    pub sources: Vec<Source>,
    /// The next recording id to issue.
    pub next_recording_id: u32,
}

#[derive(Debug)]
pub struct RecordingMetadata {
    pub title: String,
    pub artist: String,
    pub artwork_url: Option<String>,
    pub source_url: Option<String>,
    pub source_provider: Option<String>,
}

/// What a run did.
#[derive(Debug)]
pub struct IngestStats {
    pub added: Vec<u32>,
    pub existing: Vec<u32>,
    pub skipped: usize,
    pub failed: Vec<(String, String)>,
    /// Name of the new segment.
    pub segment: Option<String>,
    pub postings: usize,
}

/// The recording of a source, if it is in the catalog.
pub open spec fn recording_of(sources: Seq<Source>, digest: Seq<char>) -> Option<u32>
    decreases sources.len(),
{
    if sources.len() == 0 {
        None
    } else if recording_of(sources.drop_last(), digest) is Some {
        recording_of(sources.drop_last(), digest)
    } else if sources.last().digest@ == digest {
        Some(sources.last().recording)
    } else {
        None
    }
}

impl CatalogState {
    pub fn new() -> (s: Self)
        ensures
            s.sources@.len() == 0,
            s.next_recording_id == 0,
    {
        CatalogState { sources: Vec::new(), next_recording_id: 0 }
    }

    /// The recording of a source.
    pub fn recording(&self, digest: &String) -> (r: Option<u32>)
        ensures
            r == recording_of(self.sources@, digest@),
    {
        let mut i: usize = 0;
        assert(self.sources@.take(0) =~= Seq::<Source>::empty());
        while i < self.sources.len()
            invariant
                i <= self.sources.len(),
                recording_of(self.sources@.take(i as int), digest@) is None,
            decreases self.sources.len() - i,
        {
            assert(self.sources@.take(i + 1).drop_last() =~= self.sources@.take(i as int));
            if self.sources[i].digest == *digest {
                let id: u32 = self.sources[i].recording;
                proof {
                    lemma_first_match(self.sources@, i + 1, digest@);
                }
                return Some(id);
            }
            i = i + 1;
        }
        assert(self.sources@.take(i as int) =~= self.sources@);
        None
    }
}

/// A match among the first sources is the match of all.
proof fn lemma_first_match(sources: Seq<Source>, n: int, digest: Seq<char>)
    requires
        0 <= n <= sources.len(),
        recording_of(sources.take(n), digest) is Some,
    ensures
        recording_of(sources, digest) == recording_of(sources.take(n), digest),
    decreases sources.len(),
{
    if n < sources.len() {
        let t = sources.drop_last();
        assert(t.take(n) =~= sources.take(n));
        lemma_first_match(t, n, digest);
    } else {
        assert(sources.take(n) =~= sources);
    }
}

// ---- segment names ----

/// A number with leading zeros up to six digits.
pub open spec fn six_digits(n: nat) -> Seq<char> {
    let d = decimal(n);
    if d.len() < 6 {
        Seq::new((6 - d.len()) as nat, |i: int| '0') + d
    } else {
        d
    }
}

/// Name of the segment with the given number.
pub fn segment_name(n: u64) -> (name: String)
    ensures
        name@ == "catalog-"@ + six_digits(n as nat) + ".siv"@,
{
    let mut cs: Vec<char> = chars_of("catalog-");
    let mut digits: Vec<char> = decimal_digits(n);
    let ghost start = cs@;
    let mut i: usize = digits.len();
    while i < 6
        invariant
            digits.len() <= i,
            digits.len() < 6 ==> i <= 6,
            digits.len() >= 6 ==> i == digits.len(),
            cs@ == start + Seq::new((i - digits.len()) as nat, |k: int| '0'),
        decreases 6 - i,
    {
        cs.push('0');
        i = i + 1;
        assert(cs@ =~= start + Seq::new((i - digits.len()) as nat, |k: int| '0'));
    }
    cs.append(&mut digits);
    let mut end: Vec<char> = chars_of(".siv");
    cs.append(&mut end);
    assert(cs@ =~= "catalog-"@ + six_digits(n as nat) + ".siv"@);
    string_of(&cs)
}

// ---- one run ----

/// One ingestion run over a catalog.
pub struct IngestRun {
    pub state: CatalogState,
    /// Metadata by recording id.
    pub metas: HashMap<u32, RecordingMetadata>,
    pub stats: IngestStats,
    pub builder: SegmentBuilder,
}

/// The fingerprints as pairs of hash and anchor.
pub open spec fn fingerprint_pairs(fps: Seq<Fingerprint32>) -> Seq<(u32, u32)> {
    fps.map_values(|f: Fingerprint32| (f.hash, f.anchor_time))
}

fn pairs_of(fps: &[Fingerprint32]) -> (out: Vec<(u32, u32)>)
    ensures
        out@ == fingerprint_pairs(fps@),
{
    let mut out: Vec<(u32, u32)> = Vec::new();
    let mut i: usize = 0;
    while i < fps.len()
        invariant
            i <= fps.len(),
            out@ == fingerprint_pairs(fps@).take(i as int),
        decreases fps.len() - i,
    {
        out.push((fps[i].hash, fps[i].anchor_time));
        i = i + 1;
        assert(out@ =~= fingerprint_pairs(fps@).take(i as int));
    }
    assert(out@ =~= fingerprint_pairs(fps@));
    out
}

/// The metadata of a recording that came without: its title alone.
pub open spec fn is_plain_metadata(m: RecordingMetadata, title: Seq<char>) -> bool {
    &&& m.title@ == title
    &&& m.artist@ == "Unknown artist"@
    &&& m.artwork_url is None
    &&& m.source_url is None
    &&& m.source_provider is None
}

/// A file of fingerprints to store beside the index.
#[derive(Debug)]
pub struct SidecarFile {
    pub recording: u32,
    pub bytes: Vec<u8>,
}

/// What is left to store at the end of a run that added recordings.
#[derive(Debug)]
pub struct NewSegment {
    pub name: String,
    pub bytes: Vec<u8>,
    pub manifest: Manifest,
}

/// The names of all segments.
pub open spec fn names_of(v: Seq<String>) -> Seq<Seq<char>> {
    v.map_values(|s: String| s@)
}

/// What offering a source does to a run: a known one is skipped and its
/// metadata replaced where new metadata came with it; a new one changes
/// nothing yet.
pub open spec fn offered(
    old: IngestRun,
    new: IngestRun,
    digest: Seq<char>,
    metadata: Option<RecordingMetadata>,
    is_new: bool,
) -> bool {
    match recording_of(old.state.sources@, digest) {
        Some(id) => {
            &&& !is_new
            &&& new.same_catalog(&old)
            &&& new.stats.failed == old.stats.failed
            &&& new.stats.skipped == old.stats.skipped + 1
            &&& new.stats.existing@ == old.stats.existing@.push(id)
            &&& new.metas@ == match metadata {
                Some(m) => old.metas@.insert(id, m),
                None => old.metas@,
            }
        },
        None => is_new && new == old,
    }
}

/// What completing a source does to a run: a known one is skipped and its
/// metadata replaced where new metadata came with it; a new one gets the next id, its file and its metadata, and its postings are
/// gathered.
pub open spec fn completed(
    old: IngestRun,
    new: IngestRun,
    digest: String,
    fps: Seq<Fingerprint32>,
    title: Seq<char>,
    metadata: Option<RecordingMetadata>,
    file: Option<SidecarFile>,
) -> bool {
    let id = old.state.next_recording_id;
    &&& new.stats.existing == old.stats.existing
    &&& new.stats.failed == old.stats.failed
    &&& new.stats.segment == old.stats.segment
    &&& new.stats.postings == old.stats.postings
    &&& recording_of(old.state.sources@, digest@) matches Some(known) ==> {
        &&& file is None
        &&& new.same_catalog(&old)
        &&& new.metas@ == match metadata {
            Some(m) => old.metas@.insert(known, m),
            None => old.metas@,
        }
        &&& new.stats.skipped == old.stats.skipped + 1
    }
    &&& recording_of(old.state.sources@, digest@) is None ==> {
        &&& file matches Some(f) && f.recording == id && encodes(f.bytes@, fps, TARGET_SAMPLE_RATE)
        &&& new.state.next_recording_id == id + 1
        &&& new.state.sources@ == old.state.sources@.push(Source { digest, recording: id })
        &&& new.stats.added@ == old.stats.added@.push(id)
        &&& new.stats.skipped == old.stats.skipped
        &&& new.gathered() == with_recording(
            old.gathered(),
            RecordingId(id),
            fingerprint_pairs(fps),
        )
        &&& new.posting_count() == old.posting_count() + fps.len()
        &&& new.recordings() == old.recordings().insert(id)
        &&& new.metas@.contains_key(id)
        &&& new.metas@ == old.metas@.insert(id, new.metas@[id])
        &&& match metadata {
            Some(m) => new.metas@[id] == m,
            None => is_plain_metadata(new.metas@[id], title),
        }
    }
}

impl IngestRun {
    /// Postings that the run has gathered.
    pub open spec fn gathered(&self) -> Map<u32, Seq<Posting>> {
        self.builder@
    }

    /// How many they are.
    pub open spec fn posting_count(&self) -> nat {
        self.builder.posting_count()
    }

    /// Recordings among them.
    pub open spec fn recordings(&self) -> Set<u32> {
        self.builder.recordings_added()
    }

    pub open spec fn wf(&self) -> bool {
        self.builder.wf()
    }

    /// The catalog and what is already added to it are as before.
    pub open spec fn same_catalog(&self, other: &Self) -> bool {
        &&& self.state == other.state
        &&& self.gathered() == other.gathered()
        &&& self.posting_count() == other.posting_count()
        &&& self.recordings() == other.recordings()
        &&& self.stats.added == other.stats.added
        &&& self.stats.segment == other.stats.segment
        &&& self.stats.postings == other.stats.postings
    }

    /// Nothing has been offered yet.
    pub open spec fn is_fresh(&self) -> bool {
        &&& self.stats.added@.len() == 0
        &&& self.stats.existing@.len() == 0
        &&& self.stats.skipped == 0
        &&& self.stats.failed@.len() == 0
        &&& self.stats.segment is None
        &&& self.stats.postings == 0
        &&& self.gathered() == Map::<u32, Seq<Posting>>::empty()
        &&& self.posting_count() == 0
        &&& self.recordings() == Set::<u32>::empty()
    }

    pub fn begin(state: CatalogState, metas: HashMap<u32, RecordingMetadata>) -> (run: Self)
        ensures
            run.wf(),
            run.state == state,
            run.metas == metas,
            run.is_fresh(),
    {
        IngestRun {
            state,
            metas,
            stats: IngestStats {
                added: Vec::new(),
                existing: Vec::new(),
                skipped: 0,
                failed: Vec::new(),
                segment: None,
                postings: 0,
            },
            builder: SegmentBuilder::new(),
        }
    }

    /// Offers a source by its digest: whether it has to be fingerprinted. A
    /// known one is skipped, and its metadata replaced where new metadata
    /// came with it.
    pub fn offer(&mut self, digest: &String, metadata: Option<RecordingMetadata>) -> (is_new: bool)
        requires
            old(self).wf(),
            old(self).stats.skipped < usize::MAX,
        ensures
            final(self).wf(),
            offered(*old(self), *final(self), digest@, metadata, is_new),
    {
        broadcast use vstd::std_specs::hash::group_hash_axioms;

        match self.state.recording(digest) {
            Some(id) => {
                self.stats.skipped = self.stats.skipped + 1;
                self.stats.existing.push(id);
                if let Some(m) = metadata {
                    self.metas.insert(id, m);
                }
                false
            },
            None => true,
        }
    }

    /// Notes a source that could not be read or fingerprinted.
    pub fn fail(&mut self, path: String, error: String)
        requires
            old(self).wf(),
        ensures
            final(self).wf(),
            final(self).same_catalog(old(self)),
            final(self).metas == old(self).metas,
            final(self).stats.skipped == old(self).stats.skipped,
            final(self).stats.existing == old(self).stats.existing,
            final(self).stats.failed@ == old(self).stats.failed@.push((path, error)),
    {
        self.stats.failed.push((path, error));
    }

    /// Adds a fingerprinted source under the next id, and gives the file to
    /// store for it. A source that came twice in one run is skipped the
    /// second time, and its metadata replaced where new metadata came with it.
    pub fn complete(
        &mut self,
        digest: String,
        fps: &[Fingerprint32],
        title: String,
        metadata: Option<RecordingMetadata>,
    ) -> (file: Option<SidecarFile>)
        requires
            old(self).wf(),
            old(self).stats.skipped < usize::MAX,
            old(self).state.next_recording_id < u32::MAX,
        ensures
            final(self).wf(),
            completed(*old(self), *final(self), digest, fps@, title@, metadata, file),
    {
        broadcast use vstd::std_specs::hash::group_hash_axioms;

        if let Some(known) = self.state.recording(&digest) {
            self.stats.skipped = self.stats.skipped + 1;
            if let Some(m) = metadata {
                self.metas.insert(known, m);
            }
            return None;
        }
        let id: u32 = self.state.next_recording_id;
        self.state.next_recording_id = id + 1;
        self.state.sources.push(Source { digest, recording: id });
        let meta = match metadata {
            Some(m) => m,
            None => RecordingMetadata {
                title,
                artist: "Unknown artist".to_owned(),
                artwork_url: None,
                source_url: None,
                source_provider: None,
            },
        };
        self.metas.insert(id, meta);
        let mut bytes: Vec<u8> = Vec::new();
        encode_batch(fps, TARGET_SAMPLE_RATE, &mut bytes);
        let pairs: Vec<(u32, u32)> = pairs_of(fps);
        self.builder.add_recording(RecordingId::new(id), &pairs);
        self.stats.added.push(id);
        Some(SidecarFile { recording: id, bytes })
    }

    /// Ends the run: where it added recordings, one more segment and the
    /// manifest of the next catalog version, which lists it last.
    pub fn finish(&mut self, existing: Vec<String>, previous_version: Option<u64>) -> (new: Option<
        NewSegment,
    >)
        requires
            old(self).wf(),
            old(self).posting_count() <= POSTING_LIMIT,
            old(self).posting_count() <= usize::MAX,
            previous_version matches Some(v) ==> v < u64::MAX,
            existing.len() < usize::MAX,
        ensures
            final(self).wf(),
            final(self).state == old(self).state,
            final(self).metas == old(self).metas,
            final(self).stats.added == old(self).stats.added,
            final(self).stats.existing == old(self).stats.existing,
            final(self).stats.skipped == old(self).stats.skipped,
            final(self).stats.failed == old(self).stats.failed,
            old(self).stats.added@.len() == 0 ==> new is None && *final(self) == *old(self),
            old(self).stats.added@.len() > 0 ==> {
                &&& new is Some
                &&& all_tidy(final(self).gathered())
                &&& tidied(final(self).gathered(), old(self).gathered())
                &&& serializes(
                    new->0.bytes@,
                    final(self).gathered(),
                    built_header(
                        old(self).recordings().len(),
                        old(self).gathered().dom().len(),
                        final(self).posting_count(),
                        version_of(EngineId::LandmarkV2),
                    ),
                )
                &&& new->0.name@ == "catalog-"@ + six_digits((existing.len() + 1) as nat) + ".siv"@
                &&& final(self).stats.segment matches Some(s) && s@ == new->0.name@
                &&& final(self).stats.postings == final(self).posting_count()
                &&& new->0.manifest.claimed() == version_of(EngineId::LandmarkV2)
                &&& new->0.manifest.catalog_version == match previous_version {
                    Some(v) => v + 1,
                    None => 1,
                }
                &&& names_of(new->0.manifest.segments@) == names_of(existing@).push(new->0.name@)
            },
    {
        if self.stats.added.len() == 0 {
            return None;
        }
        let name: String = segment_name(existing.len() as u64 + 1);
        let (bytes, built) = self.builder.build(FingerprintVersion::landmark_v2_32bit());
        self.stats.postings = built.postings;
        self.stats.segment = Some(name.clone());
        let catalog_version: u64 = match previous_version {
            Some(v) => v + 1,
            None => 1,
        };
        let ghost before = names_of(existing@);
        let mut segments: Vec<String> = existing;
        segments.push(name.clone());
        assert(names_of(segments@) =~= before.push(name@));
        let manifest = Manifest::new(
            catalog_version,
            FingerprintVersion::landmark_v2_32bit(),
            segments,
        );
        Some(NewSegment { name, bytes, manifest })
    }
}

// ---- compaction ----

/// A segment answers `hash` with the posting, among others.
pub open spec fn segment_holds(b: Seq<u8>, hash: u32, p: Posting) -> bool {
    found_entry(b, hash) matches Some(i) && run_postings(b, i).contains(p)
}

/// How many postings a segment answers `hash` with.
pub open spec fn answer_len(b: Seq<u8>, hash: u32) -> nat {
    match found_entry(b, hash) {
        Some(i) => run_len(b, i),
        None => 0,
    }
}

/// One of the first `n` segments holds the posting under the hash.
pub open spec fn catalog_holds(files: Seq<Seq<u8>>, n: int, hash: u32, p: Posting) -> bool {
    exists|k: int| 0 <= k < n && segment_holds(#[trigger] files[k], hash, p)
}

/// The lists hold the posting under the hash.
pub open spec fn lists_hold(m: Map<u32, Seq<Posting>>, hash: u32, p: Posting) -> bool {
    m.contains_key(hash) && m[hash].contains(p)
}

/// Every posting of the lists comes from one of the first `n` segments.
pub open spec fn nothing_added(files: Seq<Seq<u8>>, n: int, m: Map<u32, Seq<Posting>>) -> bool {
    forall|h: u32, p: Posting| #[trigger] lists_hold(m, h, p) ==> catalog_holds(files, n, h, p)
}

/// Every posting of the first `n` segments is in the lists.
pub open spec fn nothing_lost(files: Seq<Seq<u8>>, n: int, m: Map<u32, Seq<Posting>>) -> bool {
    forall|k: int, h: u32, p: Posting|
        0 <= k < n && #[trigger] segment_holds(files[k], h, p) ==> lists_hold(m, h, p)
}

/// Entries of a segment.
pub open spec fn entry_count(b: Seq<u8>) -> int {
    first_entry(b, 0x1_0000) - first_entry(b, 0)
}

/// The hash of an entry.
pub open spec fn entry_hash(b: Seq<u8>, i: int) -> u32 {
    choose|h: u32| is_entry_of(b, i, h)
}

/// Postings that a segment answers the hashes of its first `n` entries with.
pub open spec fn run_total(b: Seq<u8>, n: int) -> int
    decreases n,
{
    if n <= 0 {
        0
    } else {
        run_total(b, n - 1) + answer_len(b, entry_hash(b, first_entry(b, 0) + n - 1))
    }
}

/// Postings of the first `n` segments.
pub open spec fn postings_in(files: Seq<Seq<u8>>, n: int) -> int
    decreases n,
{
    if n <= 0 {
        0
    } else {
        postings_in(files, n - 1) + run_total(files[n - 1], entry_count(files[n - 1]))
    }
}

/// Entries of the first `n` segments.
pub open spec fn entries_in(files: Seq<Seq<u8>>, n: int) -> int
    decreases n,
{
    if n <= 0 {
        0
    } else {
        entries_in(files, n - 1) + entry_count(files[n - 1])
    }
}

/// So many postings can be counted.
pub open spec fn countable(n: int) -> bool {
    n <= POSTING_LIMIT && n <= usize::MAX
}

proof fn lemma_run_total_grows(b: Seq<u8>, m: int, n: int)
    requires
        m <= n,
    ensures
        run_total(b, m) <= run_total(b, n),
        0 <= run_total(b, n),
    decreases n,
{
    if n > 0 {
        if m < n {
            lemma_run_total_grows(b, m, n - 1);
        } else {
            lemma_run_total_grows(b, m - 1, n - 1);
        }
    }
}

proof fn lemma_postings_grow(files: Seq<Seq<u8>>, m: int, n: int)
    requires
        m <= n <= files.len(),
    ensures
        postings_in(files, m) <= postings_in(files, n),
    decreases n,
{
    if m < n && n > 0 {
        lemma_postings_grow(files, m, n - 1);
        let all = entry_count(files[n - 1]);
        lemma_run_total_grows(files[n - 1], all, all);
    }
}

proof fn lemma_entries_grow(files: Seq<Seq<u8>>, m: int, n: int)
    requires
        m <= n <= files.len(),
        directories_ok(files),
    ensures
        entries_in(files, m) <= entries_in(files, n),
    decreases n,
{
    if m < n && n > 0 {
        lemma_entries_grow(files, m, n - 1);
        let b = files[n - 1];
        assert(directory_ok(b));
        assert(crate::segment::dir_value(b, 0) <= crate::segment::dir_value(b, 0x1_0000));
    }
}

/// A catalog merged into one segment.
#[derive(Debug)]
pub struct Compacted {
    pub bytes: Vec<u8>,
    pub manifest: Manifest,
    /// Entries of all segments.
    pub total_hashes: usize,
}

/// What was merged: exactly the postings that the segments answer with,
/// tidied.
pub open spec fn is_compaction(
    files: Seq<Seq<u8>>,
    bytes: Seq<u8>,
    m: Map<u32, Seq<Posting>>,
    header: SegmentHeader,
) -> bool {
    &&& serializes(bytes, m, header)
    &&& header.fingerprint_version == version_of(EngineId::LandmarkV2)
    &&& all_tidy(m)
    &&& forall|h: u32| #[trigger] m.contains_key(h) ==> m[h].len() > 0
    &&& nothing_added(files, files.len() as int, m)
    &&& nothing_lost(files, files.len() as int, m)
}

/// The bytes are the segments merged into one.
pub open spec fn merges(files: Seq<Seq<u8>>, bytes: Seq<u8>) -> bool {
    exists|m: Map<u32, Seq<Posting>>, header: SegmentHeader| #[trigger]
        is_compaction(files, bytes, m, header)
}

proof fn lemma_merges(
    files: Seq<Seq<u8>>,
    bytes: Seq<u8>,
    m: Map<u32, Seq<Posting>>,
    header: SegmentHeader,
)
    requires
        is_compaction(files, bytes, m, header),
    ensures
        merges(files, bytes),
{
}

proof fn lemma_lists_push(m: Map<u32, Seq<Posting>>, hash: u32, x: Posting)
    ensures
        forall|h: u32, p: Posting| #[trigger]
            lists_hold(with_posting(m, hash, x), h, p) <==> lists_hold(m, h, p) || (h == hash && p
                == x),
{
    let n = with_posting(m, hash, x);
    assert forall|h: u32, p: Posting| #[trigger] lists_hold(n, h, p) <==> lists_hold(m, h, p) || (h
        == hash && p == x) by {
        if m.contains_key(hash) {
            crate::postings::lemma_push_contains(m[hash], x, p);
        } else if h == hash {
            assert(n[h] == seq![x]);
            assert(seq![x].contains(p) <==> p == x) by {
                assert(seq![x][0] == x);
            }
        }
    }
}

/// Adds the postings of one hash of one segment.
fn replay_hash(
    merged: &mut SegmentBuilder,
    seg: &SivSegment,
    hash: u32,
    count: &mut u64,
) -> (ok: bool)
    requires
        old(merged).wf(),
        seg.wf(),
        directory_ok(seg@),
        *old(count) == old(merged).posting_count(),
        *old(count) <= POSTING_LIMIT,
        *old(count) <= usize::MAX,
    ensures
        final(merged).wf(),
        *final(count) == final(merged).posting_count(),
        *final(count) <= POSTING_LIMIT,
        *final(count) <= usize::MAX,
        forall|h: u32, p: Posting| #[trigger]
            lists_hold(final(merged)@, h, p) ==> lists_hold(old(merged)@, h, p) || segment_holds(
                seg@,
                h,
                p,
            ),
        forall|h: u32, p: Posting|
            lists_hold(old(merged)@, h, p) ==> #[trigger] lists_hold(final(merged)@, h, p),
        ok ==> forall|p: Posting| #[trigger]
            segment_holds(seg@, hash, p) ==> lists_hold(final(merged)@, hash, p),
        ok == countable(*old(count) + answer_len(seg@, hash)),
        ok ==> *final(count) == *old(count) + answer_len(seg@, hash),
{
    let mut out: Vec<Posting> = Vec::new();
    let found: bool = seg.lookup(hash, &mut out);
    let ghost b = seg@;
    let ghost start = merged@;
    let mut k: usize = 0;
    while k < out.len()
        invariant
            k <= out.len(),
            *count == *old(count) + k,
            lookup_answers(b, hash, found, out@),
            b == seg@,
            start == old(merged)@,
            merged.wf(),
            *count == merged.posting_count(),
            *count <= POSTING_LIMIT,
            *count <= usize::MAX,
            forall|h: u32, p: Posting| #[trigger]
                lists_hold(merged@, h, p) ==> lists_hold(start, h, p) || segment_holds(b, h, p),
            forall|h: u32, p: Posting|
                lists_hold(start, h, p) ==> #[trigger] lists_hold(merged@, h, p),
            forall|i: int| 0 <= i < k ==> lists_hold(merged@, hash, #[trigger] out[i]),
        decreases out.len() - k,
    {
        if *count >= POSTING_LIMIT || *count >= usize::MAX as u64 {
            return false;
        }
        let p: Posting = out[k];
        let ghost before = merged@;
        merged.add_posting(hash, p.recording, p.anchor_time);
        *count = *count + 1;
        proof {
            lemma_lists_push(before, hash, p);
            assert(out@.contains(p));
            assert(segment_holds(b, hash, p));
        }
        k = k + 1;
    }
    proof {
        assert forall|p: Posting| #[trigger] segment_holds(b, hash, p) implies lists_hold(
            merged@,
            hash,
            p,
        ) by {
            let j = out@.index_of(p);
            assert(out[j] == p);
        }
    }
    true
}

/// What is new in the lists comes from the segment.
spec fn adds_only(
    before: Map<u32, Seq<Posting>>,
    after: Map<u32, Seq<Posting>>,
    b: Seq<u8>,
) -> bool {
    forall|h: u32, p: Posting| #[trigger]
        lists_hold(after, h, p) ==> lists_hold(before, h, p) || segment_holds(b, h, p)
}

/// Nothing is gone from the lists.
spec fn keeps_all(before: Map<u32, Seq<Posting>>, after: Map<u32, Seq<Posting>>) -> bool {
    forall|h: u32, p: Posting| lists_hold(before, h, p) ==> #[trigger] lists_hold(after, h, p)
}

/// Everything of the segment is in the lists.
spec fn takes_all(after: Map<u32, Seq<Posting>>, b: Seq<u8>) -> bool {
    forall|h: u32, p: Posting| #[trigger] segment_holds(b, h, p) ==> lists_hold(after, h, p)
}

proof fn lemma_merged_added(
    files: Seq<Seq<u8>>,
    i: int,
    before: Map<u32, Seq<Posting>>,
    after: Map<u32, Seq<Posting>>,
)
    requires
        0 <= i < files.len(),
        nothing_added(files, i, before),
        adds_only(before, after, files[i]),
    ensures
        nothing_added(files, i + 1, after),
{
    assert forall|h: u32, p: Posting| #[trigger] lists_hold(after, h, p) implies catalog_holds(
        files,
        i + 1,
        h,
        p,
    ) by {
        if lists_hold(before, h, p) {
            assert(catalog_holds(files, i, h, p));
            let k = choose|k: int| 0 <= k < i && segment_holds(#[trigger] files[k], h, p);
            assert(segment_holds(files[k], h, p));
        } else {
            assert(segment_holds(files[i], h, p));
        }
    }
}

proof fn lemma_merged_lost(
    files: Seq<Seq<u8>>,
    i: int,
    before: Map<u32, Seq<Posting>>,
    after: Map<u32, Seq<Posting>>,
)
    requires
        0 <= i < files.len(),
        nothing_lost(files, i, before),
        keeps_all(before, after),
        takes_all(after, files[i]),
    ensures
        nothing_lost(files, i + 1, after),
{
    assert forall|k: int, h: u32, p: Posting|
        0 <= k < i + 1 && #[trigger] segment_holds(files[k], h, p) implies lists_hold(
        after,
        h,
        p,
    ) by {
        if k < i {
            assert(lists_hold(before, h, p));
        }
    }
}

/// Adds the postings of one segment, and gives the number of its entries.
fn replay_segment(merged: &mut SegmentBuilder, seg: &SivSegment, count: &mut u64) -> (r: Option<
    usize,
>)
    requires
        old(merged).wf(),
        seg.wf(),
        directory_ok(seg@),
        *old(count) == old(merged).posting_count(),
        *old(count) <= POSTING_LIMIT,
        *old(count) <= usize::MAX,
    ensures
        final(merged).wf(),
        *final(count) == final(merged).posting_count(),
        *final(count) <= POSTING_LIMIT,
        *final(count) <= usize::MAX,
        adds_only(old(merged)@, final(merged)@, seg@),
        keeps_all(old(merged)@, final(merged)@),
        r matches Some(n) ==> n == entry_count(seg@),
        r is Some <==> countable(*old(count) + run_total(seg@, entry_count(seg@))),
        r is Some ==> *final(count) == *old(count) + run_total(seg@, entry_count(seg@)),
        r is Some ==> takes_all(final(merged)@, seg@),
{
    let hashes: Vec<u32> = seg.all_hashes();
    let ghost b = seg@;
    let ghost start = merged@;
    let mut i: usize = 0;
    while i < hashes.len()
        invariant
            i <= hashes.len(),
            b == seg@,
            seg.wf(),
            directory_ok(b),
            lists_hashes(b, hashes@),
            start == old(merged)@,
            *count == *old(count) + run_total(b, i as int),
            merged.wf(),
            *count == merged.posting_count(),
            *count <= POSTING_LIMIT,
            *count <= usize::MAX,
            forall|h: u32, p: Posting| #[trigger]
                lists_hold(merged@, h, p) ==> lists_hold(start, h, p) || segment_holds(b, h, p),
            forall|h: u32, p: Posting|
                lists_hold(start, h, p) ==> #[trigger] lists_hold(merged@, h, p),
            forall|k: int, p: Posting|
                0 <= k < i && #[trigger] segment_holds(b, hashes[k], p) ==> lists_hold(
                    merged@,
                    hashes[k],
                    p,
                ),
        decreases hashes.len() - i,
    {
        let ghost before = merged@;
        proof {
            lemma_entry_hash(b, hashes@, i as int);
            lemma_run_total_grows(b, i + 1, hashes.len() as int);
        }
        if !replay_hash(merged, seg, hashes[i], count) {
            return None;
        }
        proof {
            assert forall|k: int, p: Posting|
                0 <= k < i + 1 && #[trigger] segment_holds(b, hashes[k], p) implies lists_hold(
                merged@,
                hashes[k],
                p,
            ) by {
                if k < i {
                    assert(lists_hold(before, hashes[k], p));
                }
            }
        }
        i = i + 1;
    }
    proof {
        assert forall|h: u32, p: Posting| #[trigger] segment_holds(b, h, p) implies lists_hold(
            merged@,
            h,
            p,
        ) by {
            let e = found_entry(b, h)->0;
            law_search_finds_every_entry(b, h);
            lemma_entry_is_listed(b, hashes@, h, e);
            let k = e - first_entry(b, 0);
            assert(segment_holds(b, hashes[k], p));
        }
    }
    Some(hashes.len())
}

/// Every entry is listed at its place.
proof fn lemma_entry_is_listed(b: Seq<u8>, hashes: Seq<u32>, h: u32, e: int)
    requires
        directory_ok(b),
        lists_hashes(b, hashes),
        is_entry_of(b, e, h),
    ensures
        0 <= e - first_entry(b, 0) < hashes.len(),
        hashes[e - first_entry(b, 0)] == h,
{
    let k = e - first_entry(b, 0);
    let slot = h as int / 0x1_0000;
    assert(crate::segment::dir_value(b, 0) <= crate::segment::dir_value(b, slot));
    assert(crate::segment::dir_value(b, slot + 1) <= crate::segment::dir_value(b, 0x1_0000));
    assert(is_entry_of(b, first_entry(b, 0) + k, hashes[k]));
    let other = hashes[k] as int / 0x1_0000;
    if other < slot {
        assert(crate::segment::dir_value(b, other + 1) <= crate::segment::dir_value(b, slot));
    } else if slot < other {
        assert(crate::segment::dir_value(b, slot + 1) <= crate::segment::dir_value(b, other));
    }
}

/// The hash of an entry is the one listed for it.
proof fn lemma_entry_hash(b: Seq<u8>, hashes: Seq<u32>, k: int)
    requires
        directory_ok(b),
        lists_hashes(b, hashes),
        0 <= k < hashes.len(),
    ensures
        entry_hash(b, first_entry(b, 0) + k) == hashes[k],
{
    let e = first_entry(b, 0) + k;
    assert(is_entry_of(b, e, hashes[k]));
    lemma_entry_is_listed(b, hashes, entry_hash(b, e), e);
}

/// Merges every segment of a catalog into one, for the next catalog version.
/// `None` where the postings are more than a segment can count.
pub fn compact(catalog: &Catalog) -> (r: Option<Compacted>)
    requires
        catalog.wf(),
        directories_ok(catalog.files()),
        catalog.manifest.catalog_version < u64::MAX,
    ensures
        r is Some <==> countable(postings_in(catalog.files(), catalog.files().len() as int))
            && entries_in(catalog.files(), catalog.files().len() as int) <= usize::MAX,
        r matches Some(c) ==> c.total_hashes == entries_in(
            catalog.files(),
            catalog.files().len() as int,
        ),
        r matches Some(c) ==> merges(catalog.files(), c.bytes@),
        r matches Some(c) ==> c.manifest.catalog_version == catalog.manifest.catalog_version + 1,
        r matches Some(c) ==> c.manifest.claimed() == version_of(EngineId::LandmarkV2),
        r matches Some(c) ==> names_of(c.manifest.segments@) == seq!["catalog-000001.siv"@],
{
    let ghost files = catalog.files();
    let mut merged = SegmentBuilder::new();
    let mut count: u64 = 0;
    let mut total_hashes: usize = 0;
    let mut i: usize = 0;
    while i < catalog.segments.len()
        invariant
            i <= catalog.segments.len(),
            catalog.wf(),
            files == catalog.files(),
            directories_ok(files),
            merged.wf(),
            count == merged.posting_count(),
            count <= POSTING_LIMIT,
            count <= usize::MAX,
            total_hashes == entries_in(files, i as int),
            count == postings_in(files, i as int),
            nothing_added(files, i as int, merged@),
            nothing_lost(files, i as int, merged@),
        decreases catalog.segments.len() - i,
    {
        let ghost before = merged@;
        assert(catalog.segments[i as int].wf());
        assert(files[i as int] == catalog.segments[i as int]@);
        assert(directory_ok(files[i as int]));
        proof {
            lemma_postings_grow(files, i + 1, files.len() as int);
            lemma_entries_grow(files, i + 1, files.len() as int);
        }
        match replay_segment(&mut merged, &catalog.segments[i], &mut count) {
            Some(n) => {
                if n > usize::MAX - total_hashes {
                    return None;
                }
                total_hashes = total_hashes + n;
            },
            None => {
                return None;
            },
        }
        proof {
            lemma_merged_added(files, i as int, before, merged@);
            lemma_merged_lost(files, i as int, before, merged@);
        }
        i = i + 1;
    }
    let ghost lists = merged@;
    let (bytes, _stats) = merged.build(FingerprintVersion::landmark_v2_32bit());
    let ghost header = built_header(
        merged.recordings_added().len(),
        lists.dom().len(),
        merged.posting_count(),
        version_of(EngineId::LandmarkV2),
    );
    proof {
        let m = merged@;
        assert forall|h: u32, p: Posting| #[trigger] lists_hold(m, h, p) <==> lists_hold(
            lists,
            h,
            p,
        ) by {
            assert(m.dom().contains(h) <==> lists.dom().contains(h));
            if m.contains_key(h) {
                assert(crate::postings::is_tidy(m[h], lists[h]));
            }
        }
        merged.lemma_no_empty_list();
        lemma_merges(files, bytes@, m, header);
    }
    let name: String = "catalog-000001.siv".to_owned();
    let mut segments: Vec<String> = Vec::new();
    segments.push(name);
    assert(names_of(segments@) =~= seq!["catalog-000001.siv"@]);
    let manifest = Manifest::new(
        catalog.manifest.catalog_version + 1,
        FingerprintVersion::landmark_v2_32bit(),
        segments,
    );
    Some(Compacted { bytes, manifest, total_hashes })
}

/// What the first segments of a catalog answer is what they hold.
proof fn lemma_parts_are_held(
    files: Seq<Seq<u8>>,
    hash: u32,
    parts: Seq<Seq<Posting>>,
    n: int,
    p: Posting,
)
    requires
        0 <= n <= files.len(),
        parts.len() == files.len(),
        forall|i: int| 0 <= i < files.len() ==> #[trigger] part_answers(files, hash, parts, i),
    ensures
        parts.take(n).flatten().contains(p) <==> catalog_holds(files, n, hash, p),
    decreases n,
{
    if n == 0 {
        assert(parts.take(0) =~= Seq::<Seq<Posting>>::empty());
        assert(parts.take(0).flatten() =~= Seq::<Posting>::empty());
    } else {
        let i = n - 1;
        lemma_parts_are_held(files, hash, parts, i, p);
        assert(part_answers(files, hash, parts, i));
        let found = choose|found: bool| #[trigger]
            lookup_answers(files[i], hash, found, parts[i]);
        assert(parts[i].contains(p) <==> segment_holds(files[i], hash, p));
        assert(parts.take(n) =~= parts.take(i).push(parts[i]));
        parts.take(i).lemma_flatten_push(parts[i]);
        let rest = parts.take(i).flatten();
        lemma_concat_contains(rest, parts[i], p);
        if catalog_holds(files, n, hash, p) {
            let k = choose|k: int| 0 <= k < n && segment_holds(#[trigger] files[k], hash, p);
            if k < i {
                assert(segment_holds(files[k], hash, p));
                assert(catalog_holds(files, i, hash, p));
            }
        }
        if catalog_holds(files, i, hash, p) {
            let k = choose|k: int| 0 <= k < i && segment_holds(#[trigger] files[k], hash, p);
            assert(segment_holds(files[k], hash, p));
        }
    }
}

proof fn lemma_concat_contains(a: Seq<Posting>, b: Seq<Posting>, p: Posting)
    ensures
        (a + b).contains(p) <==> a.contains(p) || b.contains(p),
{
    if a.contains(p) {
        assert((a + b)[a.index_of(p)] == p);
    }
    if b.contains(p) {
        assert((a + b)[a.len() + b.index_of(p)] == p);
    }
    if (a + b).contains(p) {
        let k = (a + b).index_of(p);
        if k < a.len() {
            assert(a[k] == p);
        } else {
            assert(b[k - a.len()] == p);
        }
    }
}

/// What a catalog answered is what the merged lists hold.
proof fn lemma_answers_are_merged(
    files: Seq<Seq<u8>>,
    bytes: Seq<u8>,
    m: Map<u32, Seq<Posting>>,
    header: SegmentHeader,
    hash: u32,
    before: Seq<Posting>,
    p: Posting,
)
    requires
        is_compaction(files, bytes, m, header),
        catalog_answers(files, hash, before),
    ensures
        before.contains(p) <==> lists_hold(m, hash, p),
{
    let n = files.len() as int;
    let parts = choose|parts: Seq<Seq<Posting>>|
        {
            &&& parts.len() == files.len()
            &&& before == #[trigger] parts.flatten()
            &&& forall|i: int|
                0 <= i < files.len() ==> #[trigger] part_answers(files, hash, parts, i)
        };
    assert(parts.take(n) =~= parts);
    lemma_parts_are_held(files, hash, parts, n, p);
    if catalog_holds(files, n, hash, p) {
        let k = choose|k: int| 0 <= k < n && segment_holds(#[trigger] files[k], hash, p);
        assert(segment_holds(files[k], hash, p));
    }
}

/// What segments hold survives being stored.
proof fn lemma_merged_is_stored(
    files: Seq<Seq<u8>>,
    n: int,
    m: Map<u32, Seq<Posting>>,
    hash: u32,
)
    requires
        nothing_added(files, n, m),
        m.contains_key(hash),
    ensures
        m[hash].map_values(|p: Posting| stored_posting(p)) == m[hash],
{
    let list = m[hash];
    let stored = list.map_values(|p: Posting| stored_posting(p));
    assert forall|i: int| 0 <= i < list.len() implies #[trigger] stored[i] == list[i] by {
        let p = list[i];
        assert(list.contains(p));
        assert(lists_hold(m, hash, p));
        let k = choose|k: int| 0 <= k < n && segment_holds(#[trigger] files[k], hash, p);
        lemma_held_is_stored(files[k], hash, p);
    }
    assert(stored =~= list);
}

/// A strictly ordered list holds no posting twice.
proof fn lemma_ordered_once(list: Seq<Posting>)
    requires
        strictly_ordered(list),
    ensures
        list.no_duplicates(),
{
    assert forall|i: int, j: int| 0 <= i < list.len() && 0 <= j < list.len() && i != j implies list[i]
        != list[j] by {
        if i < j {
            assert(posting_leq(list[i], list[j]));
        } else {
            assert(posting_leq(list[j], list[i]));
        }
    }
}

/// Compaction keeps every lookup: the merged segment answers a hash with
/// exactly the postings that the segments together answered, each once.
pub proof fn law_compaction_preserves_lookups(
    files: Seq<Seq<u8>>,
    bytes: Seq<u8>,
    hash: u32,
    before: Seq<Posting>,
    found: bool,
    after: Seq<Posting>,
)
    requires
        directories_ok(files),
        merges(files, bytes),
        bytes.len() < 0x100_0000_0000,
        catalog_answers(files, hash, before),
        lookup_answers(bytes, hash, found, after),
    ensures
        forall|p: Posting| #[trigger] before.contains(p) <==> after.contains(p),
        after.no_duplicates(),
        found <==> before.len() > 0,
{
    let (m, header) = choose|m: Map<u32, Seq<Posting>>, header: SegmentHeader| #[trigger]
        is_compaction(files, bytes, m, header);
    assert(serializes(bytes, m, header));
    law_lookup_reads_what_was_built(bytes, m, header, hash, found, after);
    if m.contains_key(hash) {
        lemma_merged_is_stored(files, files.len() as int, m, hash);
        lemma_ordered_once(m[hash]);
        assert(m[hash].len() > 0);
        lemma_answers_are_merged(files, bytes, m, header, hash, before, m[hash][0]);
        assert(m[hash].contains(m[hash][0]));
        assert(before.contains(m[hash][0]));
    } else {
        assert(after =~= Seq::<Posting>::empty()) by {
            assert(!found);
        }
        if before.len() > 0 {
            lemma_answers_are_merged(files, bytes, m, header, hash, before, before[0]);
            assert(before.contains(before[0]));
        }
    }
    assert forall|p: Posting| #[trigger] before.contains(p) <==> after.contains(p) by {
        lemma_answers_are_merged(files, bytes, m, header, hash, before, p);
    }
}

/// What a segment holds has an anchor of 24 bits.
proof fn lemma_held_is_stored(b: Seq<u8>, hash: u32, p: Posting)
    requires
        segment_holds(b, hash, p),
    ensures
        stored_posting(p) == p,
{
    let i = found_entry(b, hash)->0;
    let k = run_postings(b, i).index_of(p);
    assert(run_postings(b, i)[k] == p);
}

/// A completed source is known from then on, under the id it got, and no
/// other source is: offering it again adds nothing.
pub proof fn law_ingesting_twice_adds_nothing(
    sources: Seq<Source>,
    source: Source,
    other: Seq<char>,
)
    requires
        recording_of(sources, source.digest@) is None,
    ensures
        recording_of(sources.push(source), source.digest@) == Some(source.recording),
        other != source.digest@ ==> recording_of(sources.push(source), other) == recording_of(
            sources,
            other,
        ),
{
    assert(sources.push(source).drop_last() =~= sources);
}

/// A run took the source in: it was known and skipped, or completed.
pub open spec fn takes_in(old: IngestRun, new: IngestRun, digest: String) -> bool {
    ||| exists|metadata: Option<RecordingMetadata>| #[trigger]
        offered(old, new, digest@, metadata, false)
    ||| exists|
        fps: Seq<Fingerprint32>,
        title: Seq<char>,
        metadata: Option<RecordingMetadata>,
        file: Option<SidecarFile>,
    | #[trigger] completed(old, new, digest, fps, title, metadata, file)
}

/// Metadata after `n` known sources came again, with or without new
/// metadata.
pub open spec fn metas_after(
    metas: Map<u32, RecordingMetadata>,
    sources: Seq<Source>,
    digests: Seq<Seq<char>>,
    metadata: Seq<Option<RecordingMetadata>>,
    n: int,
) -> Map<u32, RecordingMetadata>
    decreases n,
{
    if n <= 0 {
        metas
    } else {
        let before = metas_after(metas, sources, digests, metadata, n - 1);
        match (recording_of(sources, digests[n - 1]), metadata[n - 1]) {
            (Some(id), Some(m)) => before.insert(id, m),
            _ => before,
        }
    }
}

/// Once taken in, a source stays known to the end of the run.
proof fn lemma_taken_in_stays(runs: Seq<IngestRun>, digests: Seq<String>, k: int, n: int)
    requires
        runs.len() == digests.len() + 1,
        0 <= k < n <= digests.len(),
        forall|i: int|
            0 <= i < digests.len() ==> #[trigger] takes_in(runs[i], runs[i + 1], digests[i]),
    ensures
        recording_of(runs[n].state.sources@, digests[k]@) is Some,
    decreases n,
{
    let (a, b) = (runs[n - 1], runs[n]);
    assert(takes_in(runs[n - 1], runs[n - 1 + 1], digests[n - 1]));
    if k < n - 1 {
        lemma_taken_in_stays(runs, digests, k, n - 1);
    }
    if exists|metadata: Option<RecordingMetadata>| #[trigger]
        offered(a, b, digests[n - 1]@, metadata, false) {
        assert(a.state == b.state);
    } else {
        let id = a.state.next_recording_id;
        let source = Source { digest: digests[n - 1], recording: id };
        if recording_of(a.state.sources@, digests[n - 1]@) is None {
            law_ingesting_twice_adds_nothing(a.state.sources@, source, digests[k]@);
        }
    }
}

/// A second run over sources that a first one took in adds nothing: all are
/// skipped, none fails, the catalog stays as it was, and only metadata that
/// came along is replaced. With nothing added, the run ends without a
/// segment.
pub proof fn law_second_run_adds_nothing(
    first: Seq<IngestRun>,
    taken: Seq<String>,
    second: Seq<IngestRun>,
    digests: Seq<Seq<char>>,
    metadata: Seq<Option<RecordingMetadata>>,
    is_new: Seq<bool>,
    n: int,
)
    requires
        first.len() == taken.len() + 1,
        forall|i: int|
            0 <= i < taken.len() ==> #[trigger] takes_in(first[i], first[i + 1], taken[i]),
        0 <= n <= digests.len(),
        second.len() == digests.len() + 1,
        metadata.len() == digests.len(),
        is_new.len() == digests.len(),
        second[0].is_fresh(),
        second[0].state == first.last().state,
        forall|i: int|
            0 <= i < digests.len() ==> names_of(taken).contains(#[trigger] digests[i]),
        forall|i: int|
            0 <= i < digests.len() ==> #[trigger] offered(
                second[i],
                second[i + 1],
                digests[i],
                metadata[i],
                is_new[i],
            ),
    ensures
        forall|i: int| 0 <= i < n ==> !#[trigger] is_new[i],
        second[n].same_catalog(&second[0]),
        second[n].state == first.last().state,
        second[n].stats.added@.len() == 0,
        second[n].stats.failed@.len() == 0,
        second[n].stats.skipped == n,
        second[n].stats.existing@.len() == n,
        second[n].stats.segment is None,
        second[n].stats.postings == 0,
        second[n].metas@ == metas_after(
            second[0].metas@,
            first.last().state.sources@,
            digests,
            metadata,
            n,
        ),
    decreases n,
{
    if n > 0 {
        let i = n - 1;
        law_second_run_adds_nothing(first, taken, second, digests, metadata, is_new, i);
        assert(offered(second[i], second[i + 1], digests[i], metadata[i], is_new[i]));
        assert(names_of(taken).contains(digests[i]));
        let k = names_of(taken).index_of(digests[i]);
        assert(taken[k]@ == digests[i]);
        lemma_taken_in_stays(first, taken, k, taken.len() as int);
    }
}

/// Ids are given once: where all known ids lie below the next one, a new
/// source gets an id that no other has, and the next one stays above all.
pub proof fn law_recording_ids_are_fresh(sources: Seq<Source>, source: Source, other: Seq<char>)
    requires
        forall|i: int| 0 <= i < sources.len() ==> (#[trigger] sources[i]).recording
            < source.recording,
    ensures
        recording_of(sources, other) != Some(source.recording),
        forall|i: int|
            0 <= i < sources.push(source).len() ==> (#[trigger] sources.push(source)[i]).recording
                < source.recording + 1,
    decreases sources.len(),
{
    if sources.len() > 0 {
        let t = sources.drop_last();
        assert(sources[sources.len() - 1].recording < source.recording);
        assert forall|i: int| 0 <= i < t.len() implies (#[trigger] t[i]).recording
            < source.recording by {
            assert(t[i] == sources[i]);
        }
        law_recording_ids_are_fresh(t, source, other);
    }
    assert forall|i: int| 0 <= i < sources.push(source).len() implies (
    #[trigger] sources.push(source)[i]).recording < source.recording + 1 by {
        if i < sources.len() {
            assert(sources.push(source)[i] == sources[i]);
        }
    }
}

// ---- file names ----

/// The file is an index segment by its name.
pub open spec fn is_segment_name(name: Seq<char>) -> bool {
    name != ".."@ && exists|at: int| #[trigger]
        is_extension_dot(name, at) && name.skip(at + 1) == "siv"@
}

/// Whether a file of the catalog directory is to be deleted: a segment that
/// is not among those to keep.
pub fn is_unreferenced(name: &String, keep: &Vec<String>) -> (r: bool)
    ensures
        r == (is_segment_name(name@) && !names_of(keep@).contains(name@)),
{
    let cs: Vec<char> = chars_of(name.as_str());
    let is_segment: bool = match extension(&cs) {
        Some(ext) => {
            let want: Vec<char> = chars_of("siv");
            same_chars(&ext, &want)
        },
        None => false,
    };
    proof {
        lemma_extension_unique(name@);
    }
    if !is_segment {
        return false;
    }
    let mut i: usize = 0;
    while i < keep.len()
        invariant
            i <= keep.len(),
            forall|k: int| 0 <= k < i ==> (#[trigger] keep[k])@ != name@,
        decreases keep.len() - i,
    {
        if keep[i] == *name {
            assert(names_of(keep@)[i as int] == name@);
            return false;
        }
        i = i + 1;
    }
    assert(!names_of(keep@).contains(name@)) by {
        if names_of(keep@).contains(name@) {
            let k = names_of(keep@).index_of(name@);
            assert(keep[k]@ == name@);
        }
    }
    true
}

/// A name has one extension at most.
proof fn lemma_extension_unique(name: Seq<char>)
    ensures
        forall|a: int, b: int| #[trigger]
            is_extension_dot(name, a) && #[trigger] is_extension_dot(name, b) ==> a == b,
{
    assert forall|a: int, b: int| #[trigger] is_extension_dot(name, a) && #[trigger] is_extension_dot(
        name,
        b,
    ) implies a == b by {
        if a < b {
            assert(name[b] != '.');
        } else if b < a {
            assert(name[a] != '.');
        }
    }
}

fn same_chars(a: &Vec<char>, b: &Vec<char>) -> (r: bool)
    ensures
        r == (a@ == b@),
{
    assert(a@.subrange(0, a.len() as int) =~= a@);
    a.len() == b.len() && crate::text::is_at(a, b, 0)
}

/// The extensions of audio files.
pub open spec fn audio_extensions() -> Seq<Seq<char>> {
    seq!["mp3"@, "flac"@, "wav"@, "ogg"@, "m4a"@, "aac"@]
}

/// The file is an audio file by its name.
pub open spec fn is_audio_name_spec(name: Seq<char>) -> bool {
    name != ".."@ && exists|at: int| #[trigger]
        is_extension_dot(name, at) && audio_extensions().contains(lowered(name.skip(at + 1)))
}

/// Whether a walked file is ingested: by its extension, in any case.
pub fn is_audio_name(name: &str) -> (r: bool)
    ensures
        r == is_audio_name_spec(name@),
{
    let cs: Vec<char> = chars_of(name);
    proof {
        lemma_extension_unique(name@);
    }
    match extension(&cs) {
        None => false,
        Some(ext) => {
            let low: Vec<char> = lower_all(&ext);
            let r: bool = same_chars(&low, &chars_of("mp3")) || same_chars(&low, &chars_of("flac"))
                || same_chars(&low, &chars_of("wav")) || same_chars(&low, &chars_of("ogg"))
                || same_chars(&low, &chars_of("m4a")) || same_chars(&low, &chars_of("aac"));
            proof {
                let all = audio_extensions();
                assert(all[0] == "mp3"@ && all[1] == "flac"@ && all[2] == "wav"@ && all[3] == "ogg"@
                    && all[4] == "m4a"@ && all[5] == "aac"@);
                assert(r == all.contains(low@));
            }
            r
        },
    }
}

/// The patterns of an exclusion list: its pieces between commas, trimmed and
/// in lowercase, without empty ones.
pub open spec fn patterns_in(list: Seq<Seq<char>>) -> Seq<Seq<char>>
    decreases list.len(),
{
    if list.len() == 0 {
        Seq::empty()
    } else {
        let p = lowercased(trimmed(list.last()));
        if p.len() > 0 {
            patterns_in(list.drop_last()).push(p)
        } else {
            patterns_in(list.drop_last())
        }
    }
}

/// Reads an exclusion list.
pub fn exclusion_patterns(list: &str) -> (out: Vec<String>)
    ensures
        names_of(out@) == patterns_in(pieces(list@, ',')),
{
    let parts: Vec<Vec<char>> = split_text(&chars_of(list), ',');
    let ghost all = texts(parts@);
    let mut out: Vec<String> = Vec::new();
    let mut i: usize = 0;
    assert(all.take(0) =~= Seq::<Seq<char>>::empty());
    assert(names_of(out@) =~= patterns_in(all.take(0)));
    while i < parts.len()
        invariant
            i <= parts.len(),
            all == texts(parts@),
            names_of(out@) == patterns_in(all.take(i as int)),
        decreases parts.len() - i,
    {
        let ghost before = names_of(out@);
        proof {
            assert(all.take(i + 1).drop_last() =~= all.take(i as int));
            assert(all.take(i + 1).last() == parts[i as int]@);
        }
        let low: String = lowercase_text(string_of(trim(&parts[i])).as_str());
        let n: usize = low.as_str().unicode_len();
        if n > 0 {
            out.push(low);
            assert(names_of(out@) =~= before.push(low@));
        }
        i = i + 1;
    }
    assert(all.take(i as int) =~= all);
    out
}

/// One of the patterns stands in the name.
pub open spec fn matches_any(name: Seq<char>, patterns: Seq<Seq<char>>) -> bool {
    exists|i: int| 0 <= i < patterns.len() && has_part(name, #[trigger] patterns[i])
}

/// Whether a name in lowercase holds one of the patterns.
pub fn has_pattern(lower_name: &str, patterns: &Vec<String>) -> (r: bool)
    ensures
        r == matches_any(lower_name@, names_of(patterns@)),
{
    let cs: Vec<char> = chars_of(lower_name);
    let mut i: usize = 0;
    while i < patterns.len()
        invariant
            i <= patterns.len(),
            cs@ == lower_name@,
            forall|k: int| 0 <= k < i ==> !has_part(cs@, #[trigger] names_of(patterns@)[k]),
        decreases patterns.len() - i,
    {
        if is_part(&cs, &chars_of(patterns[i].as_str())) {
            assert(has_part(cs@, names_of(patterns@)[i as int]));
            return true;
        }
        i = i + 1;
    }
    false
}

/// Whether a file is left out: its name, in lowercase, holds one of the
/// patterns.
pub fn is_excluded(name: &str, patterns: &Vec<String>) -> (r: bool)
    ensures
        r == matches_any(lowercased(name@), names_of(patterns@)),
{
    has_pattern(lowercase_text(name).as_str(), patterns)
}

/// `s` is `t` with some letters in uppercase; `t` has no uppercase letters.
pub open spec fn in_any_case(s: Seq<char>, t: Seq<char>) -> bool {
    &&& s.len() == t.len()
    &&& forall|i: int|
        0 <= i < s.len() ==> #[trigger] s[i] == t[i] || ('a' <= t[i] <= 'z' && s[i] as int
            == t[i] as int - 32)
}

/// Files with the extensions mp3, flac, wav, ogg, m4a and aac are taken, in
/// any case and under any name, and no other files are: the extension is what
/// stands behind the last dot, and a name with nothing before it has none.
pub proof fn law_six_extensions_are_taken(stem: Seq<char>, ext: Seq<char>)
    requires
        forall|i: int| 0 <= i < ext.len() ==> #[trigger] ext[i] != '.',
    ensures
        is_audio_name_spec(stem + seq!['.'] + ext) <==> stem.len() > 0 && (in_any_case(
            ext,
            seq!['m', 'p', '3'],
        ) || in_any_case(ext, seq!['f', 'l', 'a', 'c']) || in_any_case(ext, seq!['w', 'a', 'v'])
            || in_any_case(ext, seq!['o', 'g', 'g']) || in_any_case(ext, seq!['m', '4', 'a'])
            || in_any_case(ext, seq!['a', 'a', 'c'])),
        !is_audio_name_spec(ext),
{
    let name = stem + seq!['.'] + ext;
    let at = stem.len() as int;
    reveal_strlit("..");
    reveal_strlit("mp3");
    reveal_strlit("flac");
    reveal_strlit("wav");
    reveal_strlit("ogg");
    reveal_strlit("m4a");
    reveal_strlit("aac");
    assert(name[at] == '.');
    assert(name.skip(at + 1) =~= ext);
    assert forall|k: int| at < k < name.len() implies #[trigger] name[k] != '.' by {
        assert(name[k] == ext[k - at - 1]);
    }
    lemma_extension_unique(name);
    let all = audio_extensions();
    assert("mp3"@ =~= seq!['m', 'p', '3']);
    assert("flac"@ =~= seq!['f', 'l', 'a', 'c']);
    assert("wav"@ =~= seq!['w', 'a', 'v']);
    assert("ogg"@ =~= seq!['o', 'g', 'g']);
    assert("m4a"@ =~= seq!['m', '4', 'a']);
    assert("aac"@ =~= seq!['a', 'a', 'c']);
    lemma_any_case(ext, "mp3"@);
    lemma_any_case(ext, "flac"@);
    lemma_any_case(ext, "wav"@);
    lemma_any_case(ext, "ogg"@);
    lemma_any_case(ext, "m4a"@);
    lemma_any_case(ext, "aac"@);
    assert(all[0] == "mp3"@ && all[1] == "flac"@ && all[2] == "wav"@ && all[3] == "ogg"@ && all[4]
        == "m4a"@ && all[5] == "aac"@);
    if stem.len() > 0 {
        assert(is_extension_dot(name, at));
        assert(all.contains(lowered(ext)) <==> is_audio_name_spec(name)) by {
            if all.contains(lowered(ext)) {
                assert(name != ".."@) by {
                    if name == ".."@ {
                        assert(ext.len() == 0);
                        let i = all.index_of(lowered(ext));
                        assert(all[i].len() > 0);
                    }
                }
            }
        }
    } else {
        assert forall|k: int| !#[trigger] is_extension_dot(name, k) by {
            if 0 < k < name.len() {
                assert(name[k] == ext[k - 1]);
            }
        }
    }
    assert forall|k: int| !#[trigger] is_extension_dot(ext, k) by {}
}

proof fn lemma_any_case(s: Seq<char>, t: Seq<char>)
    requires
        forall|i: int| 0 <= i < t.len() ==> !('A' <= #[trigger] t[i] <= 'Z'),
    ensures
        in_any_case(s, t) <==> lowered(s) == t,
{
    let low = lowered(s);
    assert forall|i: int| 0 <= i < s.len() && s.len() == t.len() implies (#[trigger] low[i] == t[i]
        <==> (s[i] == t[i] || ('a' <= t[i] <= 'z' && s[i] as int == t[i] as int - 32))) by {
        lemma_lower_letter(s[i], t[i]);
    }
    if in_any_case(s, t) {
        assert forall|i: int| 0 <= i < s.len() implies #[trigger] low[i] == t[i] by {
            assert(s[i] == t[i] || ('a' <= t[i] <= 'z' && s[i] as int == t[i] as int - 32));
        }
        assert(low =~= t);
    }
    if low == t {
        assert(low.len() == s.len());
        assert forall|i: int| 0 <= i < s.len() implies #[trigger] s[i] == t[i] || ('a' <= t[i]
            <= 'z' && s[i] as int == t[i] as int - 32) by {
            assert(low[i] == t[i]);
        }
    }
}

/// Segments are files with the extension `siv`, spelled so. Of those, exactly
/// the ones that are not to be kept are deleted; no other file ever is.
pub proof fn law_only_segments_are_deleted(stem: Seq<char>, ext: Seq<char>)
    requires
        forall|i: int| 0 <= i < ext.len() ==> #[trigger] ext[i] != '.',
    ensures
        is_segment_name(stem + seq!['.'] + ext) <==> stem.len() > 0 && ext == seq!['s', 'i', 'v'],
        !is_segment_name(ext),
{
    let name = stem + seq!['.'] + ext;
    let at = stem.len() as int;
    reveal_strlit("..");
    reveal_strlit("siv");
    assert("siv"@ =~= seq!['s', 'i', 'v']);
    assert(name[at] == '.');
    assert(name.skip(at + 1) =~= ext);
    assert forall|k: int| at < k < name.len() implies #[trigger] name[k] != '.' by {
        assert(name[k] == ext[k - at - 1]);
    }
    lemma_extension_unique(name);
    if stem.len() > 0 {
        assert(is_extension_dot(name, at));
    } else {
        assert forall|k: int| !#[trigger] is_extension_dot(name, k) by {
            if 0 < k < name.len() {
                assert(name[k] == ext[k - 1]);
            }
        }
    }
    assert forall|k: int| !#[trigger] is_extension_dot(ext, k) by {}
}

// ---- what a run does ----

/// Source `i` is the first with the digest.
pub open spec fn first_source(sources: Seq<Source>, digest: Seq<char>, i: int) -> bool {
    &&& 0 <= i < sources.len()
    &&& sources[i].digest@ == digest
    &&& forall|k: int| 0 <= k < i ==> (#[trigger] sources[k]).digest@ != digest
}

/// No source has the digest.
pub open spec fn no_source(sources: Seq<Source>, digest: Seq<char>) -> bool {
    forall|k: int| 0 <= k < sources.len() ==> (#[trigger] sources[k]).digest@ != digest
}

/// A source is known exactly if one with its digest is in the catalog, and it
/// is the recording of the first such.
pub proof fn law_sources_are_known_by_digest(sources: Seq<Source>, digest: Seq<char>)
    ensures
        recording_of(sources, digest) is None <==> no_source(sources, digest),
        forall|i: int| #[trigger]
            first_source(sources, digest, i) ==> recording_of(sources, digest) == Some(
                sources[i].recording,
            ),
    decreases sources.len(),
{
    if sources.len() > 0 {
        let rest = sources.drop_last();
        let n = sources.len() - 1;
        law_sources_are_known_by_digest(rest, digest);
        if no_source(sources, digest) {
            assert forall|k: int| 0 <= k < rest.len() implies (#[trigger] rest[k]).digest@
                != digest by {
                assert(sources[k].digest@ != digest);
            }
            assert(sources[n].digest@ != digest);
        }
        if recording_of(sources, digest) is None {
            assert forall|k: int| 0 <= k < sources.len() implies (#[trigger] sources[k]).digest@
                != digest by {
                if k < n {
                    assert(rest[k].digest@ != digest);
                }
            }
        }
        assert forall|i: int| #[trigger] first_source(sources, digest, i) implies recording_of(
            sources,
            digest,
        ) == Some(sources[i].recording) by {
            if i < n {
                assert(first_source(rest, digest, i)) by {
                    assert forall|k: int| 0 <= k < i implies (#[trigger] rest[k]).digest@
                        != digest by {
                        assert(sources[k].digest@ != digest);
                    }
                }
            } else {
                assert forall|k: int| 0 <= k < rest.len() implies (#[trigger] rest[k]).digest@
                    != digest by {
                    assert(sources[k].digest@ != digest);
                }
            }
        }
    }
}

/// Offering a source: a known one is not new, counts as skipped, and only its
/// metadata changes, to what came along; an unknown one is new and changes
/// nothing.
pub proof fn law_known_sources_are_skipped(
    old: IngestRun,
    new: IngestRun,
    digest: Seq<char>,
    metadata: Option<RecordingMetadata>,
    is_new: bool,
    i: int,
)
    requires
        offered(old, new, digest, metadata, is_new),
    ensures
        is_new <==> no_source(old.state.sources@, digest),
        is_new ==> new == old,
        first_source(old.state.sources@, digest, i) ==> {
            let id = old.state.sources@[i].recording;
            &&& new.state == old.state
            &&& new.gathered() == old.gathered()
            &&& new.stats.added == old.stats.added
            &&& new.stats.failed == old.stats.failed
            &&& new.stats.skipped == old.stats.skipped + 1
            &&& new.stats.existing@ == old.stats.existing@.push(id)
            &&& metadata is None ==> new.metas@ == old.metas@
            &&& metadata is Some ==> new.metas@ == old.metas@.insert(id, metadata->0)
        },
{
    law_sources_are_known_by_digest(old.state.sources@, digest);
}

/// Completing a new source: it gets the next id and a file with its
/// fingerprints, at 22050 samples per second; the run gathers a posting for
/// each of them and nothing else; its metadata is what came with it, or its
/// title by an unknown artist.
pub proof fn law_new_sources_are_added(
    old: IngestRun,
    new: IngestRun,
    digest: String,
    fps: Seq<Fingerprint32>,
    title: Seq<char>,
    metadata: Option<RecordingMetadata>,
    file: Option<SidecarFile>,
    hash: u32,
    p: Posting,
)
    requires
        completed(old, new, digest, fps, title, metadata, file),
        no_source(old.state.sources@, digest@),
        fps.len() <= u32::MAX,
    ensures
        ({
            let id = old.state.next_recording_id;
            &&& new.state.next_recording_id == id + 1
            &&& new.state.sources@.len() == old.state.sources@.len() + 1
            &&& new.state.sources@.drop_last() == old.state.sources@
            &&& new.state.sources@.last().digest@ == digest@
            &&& new.state.sources@.last().recording == id
            &&& new.stats.added@ == old.stats.added@.push(id)
            &&& new.stats.skipped == old.stats.skipped
            &&& new.stats.existing == old.stats.existing
            &&& new.stats.failed == old.stats.failed
            &&& lists(new.gathered(), hash, p) <==> lists(old.gathered(), hash, p) || (
            p.recording.0 == id && exists|k: int|
                0 <= k < fps.len() && (#[trigger] fps[k]).hash == hash && fps[k].anchor_time
                    == p.anchor_time)
            &&& file is Some && file->0.recording == id
            &&& file->0.bytes@.len() == 16 + 8 * fps.len()
            &&& word_at(file->0.bytes@, 8) == 22_050
            &&& forall|k: int|
                0 <= k < fps.len() ==> word_at(file->0.bytes@, 16 + 8 * k) == (
                #[trigger] fps[k]).hash && word_at(file->0.bytes@, 20 + 8 * k)
                    == fps[k].anchor_time
            &&& new.metas@.contains_key(id)
            &&& metadata is Some ==> new.metas@[id] == metadata->0
            &&& metadata is None ==> new.metas@[id].title@ == title && new.metas@[id].artist@
                == "Unknown artist"@ && new.metas@[id].artwork_url is None
                && new.metas@[id].source_url is None && new.metas@[id].source_provider is None
            &&& forall|r: u32|
                r != id ==> (#[trigger] new.metas@.contains_key(r) <==> old.metas@.contains_key(r))
            &&& forall|r: u32|
                r != id && old.metas@.contains_key(r) ==> #[trigger] new.metas@[r] == old.metas@[r]
        }),
{
    let id = old.state.next_recording_id;
    law_sources_are_known_by_digest(old.state.sources@, digest@);
    let source = Source { digest, recording: id };
    assert(old.state.sources@.push(source).drop_last() =~= old.state.sources@);
    law_batches_are_written_byte_by_byte(file->0.bytes@, fps, TARGET_SAMPLE_RATE);
    let pairs = fingerprint_pairs(fps);
    law_added_fingerprints_are_listed(old.gathered(), RecordingId(id), pairs, hash, p, p);
    if exists|k: int| 0 <= k < pairs.len() && #[trigger] pairs[k] == (hash, p.anchor_time) {
        let k = choose|k: int| 0 <= k < pairs.len() && #[trigger] pairs[k] == (hash, p.anchor_time);
        assert(fps[k].hash == hash);
    }
    if exists|k: int|
        0 <= k < fps.len() && (#[trigger] fps[k]).hash == hash && fps[k].anchor_time
            == p.anchor_time {
        let k = choose|k: int|
            0 <= k < fps.len() && (#[trigger] fps[k]).hash == hash && fps[k].anchor_time
                == p.anchor_time;
        assert(pairs[k] == (hash, p.anchor_time));
    }
}

/// Completing a source that came before in the run: it is skipped, nothing is
/// stored, and only metadata that came along is replaced.
pub proof fn law_repeated_sources_are_skipped(
    old: IngestRun,
    new: IngestRun,
    digest: String,
    fps: Seq<Fingerprint32>,
    title: Seq<char>,
    metadata: Option<RecordingMetadata>,
    file: Option<SidecarFile>,
    i: int,
)
    requires
        completed(old, new, digest, fps, title, metadata, file),
        first_source(old.state.sources@, digest@, i),
    ensures
        file is None,
        new.state == old.state,
        new.gathered() == old.gathered(),
        new.stats.added == old.stats.added,
        new.stats.existing == old.stats.existing,
        new.stats.skipped == old.stats.skipped + 1,
        metadata is None ==> new.metas@ == old.metas@,
        metadata is Some ==> new.metas@ == old.metas@.insert(
            old.state.sources@[i].recording,
            metadata->0,
        ),
{
    law_sources_are_known_by_digest(old.state.sources@, digest@);
}

/// Segments are numbered with six digits, or as many as the number needs, and
/// the number can be read back.
pub proof fn law_segments_are_numbered_with_six_digits(n: nat, max: nat)
    requires
        n <= max,
    ensures
        six_digits(n).len() >= 6,
        six_digits(n).len() > 6 ==> six_digits(n)[0] != '0',
        parsed_number(six_digits(n), max) == Some(n),
{
    let d = decimal(n);
    law_decimals_read_back(n, max);
    if d.len() < 6 {
        lemma_zeros_do_not_count(d, (6 - d.len()) as nat, n, max);
    } else if n == 0 {
        assert(d.len() == 1);
    }
}

/// Leading zeros leave a number as it is.
proof fn lemma_zeros_do_not_count(d: Seq<char>, zeros: nat, n: nat, max: nat)
    requires
        d.len() > 0,
        parsed_number(d, max) == Some(n),
        d[0] != '+',
    ensures
        parsed_number(Seq::new(zeros, |i: int| '0') + d, max) == Some(n),
    decreases zeros,
{
    let all = Seq::new(zeros, |i: int| '0') + d;
    if zeros == 0 {
        assert(all =~= d);
    } else {
        let less = Seq::new((zeros - 1) as nat, |i: int| '0') + d;
        lemma_zeros_do_not_count(d, (zeros - 1) as nat, n, max);
        assert(all =~= seq!['0'] + less);
        assert(less[0] != '+') by {
            if zeros == 1 {
                assert(less =~= d);
            } else {
                assert(less[0] == '0');
            }
        }
        lemma_leading_zero(less);
        assert(all[0] == '0');
        assert forall|i: int| 0 <= i < all.len() implies '0' <= #[trigger] all[i] <= '9' by {
            if i > 0 {
                assert(all[i] == less[i - 1]);
            }
        }
    }
}

proof fn lemma_leading_zero(s: Seq<char>)
    ensures
        digits_value(seq!['0'] + s) == digits_value(s),
    decreases s.len(),
{
    let t = seq!['0'] + s;
    if s.len() > 0 {
        lemma_leading_zero(s.drop_last());
        assert(t.drop_last() =~= seq!['0'] + s.drop_last());
        assert(t.last() == s.last());
    } else {
        assert(t =~= seq!['0']);
        assert(t.drop_last() =~= Seq::<char>::empty());
        assert(digits_value(Seq::<char>::empty()) == 0);
    }
}

/// The patterns of an exclusion list are its parts, trimmed and in lowercase,
/// as far as anything is left, in their order; a name is left out exactly if
/// it is some pattern with something around it.
pub proof fn law_exclusions_are_parts_of_names(
    list: Seq<Seq<char>>,
    name: Seq<char>,
    patterns: Seq<Seq<char>>,
)
    ensures
        patterns_in(list) == list.map_values(|p: Seq<char>| lowercased(trimmed(p))).filter(
            |p: Seq<char>| p.len() > 0,
        ),
        matches_any(name, patterns) <==> exists|i: int, x: Seq<char>, y: Seq<char>|
            0 <= i < patterns.len() && name == #[trigger] ((x + patterns[i]) + y),
{
    lemma_patterns(list);
    if matches_any(name, patterns) {
        let i = choose|i: int| 0 <= i < patterns.len() && has_part(name, #[trigger] patterns[i]);
        law_parts_are_cut_out(name, patterns[i], name, name);
        let (x, y) = choose|x: Seq<char>, y: Seq<char>| name == #[trigger] ((x + patterns[i]) + y);
        assert(name == (x + patterns[i]) + y);
    }
    if exists|i: int, x: Seq<char>, y: Seq<char>|
        0 <= i < patterns.len() && name == #[trigger] ((x + patterns[i]) + y) {
        let (i, x, y) = choose|i: int, x: Seq<char>, y: Seq<char>|
            0 <= i < patterns.len() && name == #[trigger] ((x + patterns[i]) + y);
        law_parts_are_cut_out(x, patterns[i], y, name);
    }
}

proof fn lemma_patterns(list: Seq<Seq<char>>)
    ensures
        patterns_in(list) == list.map_values(|p: Seq<char>| lowercased(trimmed(p))).filter(
            |p: Seq<char>| p.len() > 0,
        ),
    decreases list.len(),
{
    reveal(Seq::filter);
    let f = |p: Seq<char>| lowercased(trimmed(p));
    if list.len() > 0 {
        lemma_patterns(list.drop_last());
        assert(list.map_values(f).drop_last() =~= list.drop_last().map_values(f));
        assert(list.map_values(f).last() == f(list.last()));
    } else {
        assert(list.map_values(f) =~= Seq::<Seq<char>>::empty());
    }
}

/// A compaction counts the entries of every segment, the last bucket's end
/// less the first one's start; and it can merge as many postings as fit a
/// count of 60 bits.
pub proof fn law_compaction_counts_every_segment(files: Seq<Seq<u8>>, n: int)
    requires
        0 <= n < files.len(),
        files[n].len() >= 524_340,
    ensures
        entries_in(files, 0) == 0,
        entries_in(files, n + 1) == entries_in(files, n) + (dir_value(files[n], 65_536)
            - 524_340) / 12 - (dir_value(files[n], 0) - 524_340) / 12,
        countable(n) <==> n < 0x1000_0000_0000_0000 && n <= usize::MAX,
{
    law_segments_are_read_byte_by_byte(files[n], 0, 0, 0);
    law_segments_are_read_byte_by_byte(files[n], 65_536, 0, 0);
}

/// The postings that a compaction has to count: of each segment, those that
/// it answers the hashes of its entries with. A hash without an entry has
/// none.
pub proof fn law_compaction_counts_every_posting(
    files: Seq<Seq<u8>>,
    n: int,
    b: Seq<u8>,
    k: int,
    hash: u32,
)
    requires
        0 <= n < files.len(),
        0 <= k,
    ensures
        postings_in(files, 0) == 0,
        postings_in(files, n + 1) == postings_in(files, n) + run_total(
            files[n],
            first_entry(files[n], 65_536) - first_entry(files[n], 0),
        ),
        run_total(b, 0) == 0,
        is_entry_of(b, first_entry(b, 0) + k, hash) ==> exists|h: u32|
            #[trigger] is_entry_of(b, first_entry(b, 0) + k, h) && run_total(b, k + 1)
                == run_total(b, k) + answer_len(b, h),
        found_entry(b, hash) is None ==> answer_len(b, hash) == 0,
        found_entry(b, hash) matches Some(i) ==> answer_len(b, hash) == run_postings(b, i).len(),
{
    let at = first_entry(b, 0) + k;
    let h = entry_hash(b, at);
    if is_entry_of(b, at, hash) {
        assert(is_entry_of(b, at, h));
        assert(run_total(b, k + 1) == run_total(b, k) + answer_len(b, h));
    }
}

} // verus!
