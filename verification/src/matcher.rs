//! The matcher: an in-memory inverted index and offset voting.
//!
//! * rarity weights per document frequency, where the document frequency of a
//!   hash counts the *distinct recordings* that contain it
//! * stop-hash suppression above a document-frequency threshold
//! * flat vote tuples, sorted by recording and offset and walked in runs
//! * a window of `2 * tolerance + 1` frames slides over the offsets of each
//!   recording; the heaviest one is its winning cell
//! * per-offset breakdown inside the winning cell of each candidate
//!
//! Rarity weights are integers in millionths. Every sum is therefore exact,
//! and every ranking has an explicit tie-break, so results do not depend on
//! the order in which recordings were added or hash maps are walked.
use vstd::prelude::*;

use crate::ids::RecordingId;
use crate::postings::{all_tidy, document_frequency, tidied, with_recording, PostingMap};
use crate::ratio::ratio_at_least;
use crate::sort::{ordered, permuted, sorted, count_where, sum_where, Ranked};
use crate::sort::{lemma_permuted_contains, lemma_sum_permuted, lemma_sum_push, lemma_sum_range};
use std::collections::HashSet;

verus! {

pub use crate::postings::Posting;

/// One query fingerprint: 32-bit hash and anchor time in frames.
#[derive(Debug, Clone, Copy, PartialEq, Eq, Structural)]
pub struct QueryFp {
    pub hash: u32,
    pub anchor_time: u32,
}

/// In-memory reference index.
///
/// Build with [`Self::add_recording`], call [`Self::finalize`] once, then
/// query any number of times.
pub struct InMemoryIndex {
    map: PostingMap,
    n_recordings: u64,
    finalized: bool,
}

impl View for InMemoryIndex {
    type V = Map<u32, Seq<Posting>>;

    /// The posting list of every hash that the index has seen.
    closed spec fn view(&self) -> Map<u32, Seq<Posting>> {
        self.map@
    }
}

impl InMemoryIndex {
    /// Number of recordings added.
    pub closed spec fn recording_count(&self) -> nat {
        self.n_recordings as nat
    }

    /// [`Self::finalize`] has been called.
    pub closed spec fn is_finalized(&self) -> bool {
        self.finalized
    }

    /// Once finalized, every list is sorted without repetition and carries
    /// its document frequency.
    pub closed spec fn wf(&self) -> bool {
        &&& self.map.wf()
        &&& self.finalized ==> self.map.is_tidied()
    }

    pub fn new() -> (index: Self)
        ensures
            index.wf(),
            index@ == Map::<u32, Seq<Posting>>::empty(),
            index.recording_count() == 0,
            !index.is_finalized(),
    {
        InMemoryIndex { map: PostingMap::new(), n_recordings: 0, finalized: false }
    }

    /// Add all fingerprints `(hash, anchor)` of one recording. Cheap; may
    /// leave each hash's postings unsorted until [`Self::finalize`].
    pub fn add_recording(&mut self, recording: RecordingId, fps: &[(u32, u32)])
        requires
            old(self).wf(),
            !old(self).is_finalized(),
            old(self).recording_count() < u64::MAX,
        ensures
            final(self).wf(),
            final(self)@ == with_recording(old(self)@, recording, fps@),
            final(self).recording_count() == old(self).recording_count() + 1,
            !final(self).is_finalized(),
    {
        self.n_recordings = self.n_recordings + 1;
        self.map.push_recording(recording, fps);
    }

    /// Sort postings per hash, drop repetitions and compute the
    /// distinct-recording document frequencies. To be called once between
    /// building and querying; idempotent.
    pub fn finalize(&mut self)
        requires
            old(self).wf(),
        ensures
            final(self).wf(),
            final(self).is_finalized(),
            final(self).recording_count() == old(self).recording_count(),
            tidied(final(self)@, old(self)@),
            all_tidy(final(self)@),
    {
        self.map.tidy();
        self.finalized = true;
        proof {
            self.map.lemma_tidied_lists();
        }
    }

    /// Distinct hashes in the index (not recordings).
    pub fn len(&self) -> (n: usize)
        requires
            self.wf(),
        ensures
            n == self@.dom().len(),
    {
        self.map.len()
    }

    pub fn is_empty(&self) -> (r: bool)
        requires
            self.wf(),
        ensures
            r == (self@.dom().len() == 0),
    {
        self.map.len() == 0
    }

    /// Number of recordings added.
    pub fn n_recordings(&self) -> (n: u64)
        ensures
            n == self.recording_count(),
    {
        self.n_recordings
    }

    /// Raw posting list for one hash (sorted, without repetition after
    /// [`Self::finalize`]). Alternative scoring schemes reuse the index as
    /// pure storage through it.
    pub fn postings_for(&self, hash: u32) -> (list: Option<&[Posting]>)
        requires
            self.wf(),
        ensures
            list is Some <==> self@.contains_key(hash),
            list is Some ==> list->0@ == self@[hash],
    {
        self.map.get(hash)
    }

    /// Distinct recordings that contain the hash, for a finalized index;
    /// zero where the index has never seen the hash.
    pub fn document_frequency(&self, hash: u32) -> (df: u64)
        requires
            self.wf(),
            self.is_finalized(),
        ensures
            df == if self@.contains_key(hash) {
                document_frequency(self@[hash])
            } else {
                0
            },
    {
        self.map.frequency(hash)
    }
}

/// Rarity weights are counted in millionths, and none is below this floor: a
/// hash that every recording contains is nearly weightless, not dead.
pub const RARITY_FLOOR: u32 = 1000;

/// Rarity weight per document frequency: `weights[df]` is
/// `ln((N + 1) / (df + 1))` in millionths, for a catalog of `N` recordings.
#[derive(Debug)]
pub struct RarityTable {
    pub weights: Vec<u32>,
}

impl RarityTable {
    /// Weight of a hash with document frequency `df`.
    pub open spec fn weight_of(&self, df: nat) -> u32 {
        if df < self.weights.len() && self.weights[df as int] > RARITY_FLOOR {
            self.weights[df as int]
        } else {
            RARITY_FLOOR
        }
    }

    /// Weight of a hash with document frequency `df`; the floor where the
    /// table has no larger entry.
    pub fn weight(&self, df: u64) -> (w: u32)
        ensures
            w == self.weight_of(df as nat),
            w >= RARITY_FLOOR,
    {
        if df < self.weights.len() as u64 {
            let w: u32 = self.weights[df as usize];
            if w > RARITY_FLOOR {
                return w;
            }
        }
        RARITY_FLOOR
    }
}

/// Query parameters.
#[derive(Debug, Clone, Copy)]
pub struct MatchParams {
    /// Hashes whose distinct-recording document frequency exceeds this are
    /// ignored at query time.
    pub stop_hash_df_threshold: u64,
    /// Keep this many candidates for verification.
    pub shortlist_len: usize,
    /// Offset tolerance in frames: votes whose exact offsets fall in a common
    /// window reinforce each other instead of requiring exact alignment. Zero
    /// (or less) restores exact voting.
    pub offset_tolerance_frames: i64,
}

impl Default for MatchParams {
    fn default() -> (p: Self)
        ensures
            p.stop_hash_df_threshold == u64::MAX,
            p.shortlist_len == 5,
            p.offset_tolerance_frames == 2,
    {
        MatchParams {
            stop_hash_df_threshold: u64::MAX,
            shortlist_len: 5,
            offset_tolerance_frames: 2,
        }
    }
}

impl MatchParams {
    /// The tolerance in effect: negative values count as zero.
    pub open spec fn tolerance(&self) -> int {
        if self.offset_tolerance_frames < 0 {
            0
        } else {
            self.offset_tolerance_frames as int
        }
    }
}

/// One vote: a query fingerprint met a posting.
#[derive(Debug, Clone, Copy, PartialEq, Eq, Structural)]
pub struct Vote {
    pub rec: u32,
    /// Offset of the recording against the query, in frames.
    pub exact: i64,
    /// Which hash voted, and where in the query timeline it sits.
    pub hash: u32,
    pub q_anchor: u32,
    pub weight: u32,
}

impl Ranked for Vote {
    open spec fn leq(a: Vote, b: Vote) -> bool {
        if a.rec != b.rec {
            a.rec < b.rec
        } else if a.exact != b.exact {
            a.exact < b.exact
        } else if a.hash != b.hash {
            a.hash < b.hash
        } else if a.q_anchor != b.q_anchor {
            a.q_anchor < b.q_anchor
        } else {
            a.weight <= b.weight
        }
    }

    proof fn total_order() {
    }

    fn is_leq(&self, other: &Vote) -> (r: bool) {
        if self.rec != other.rec {
            self.rec < other.rec
        } else if self.exact != other.exact {
            self.exact < other.exact
        } else if self.hash != other.hash {
            self.hash < other.hash
        } else if self.q_anchor != other.q_anchor {
            self.q_anchor < other.q_anchor
        } else {
            self.weight <= other.weight
        }
    }
}

/// The vote of query fingerprint `q` for posting `p`.
pub open spec fn vote_of(q: QueryFp, p: Posting, weight: u32) -> Vote {
    Vote {
        rec: p.recording.0,
        exact: (p.anchor_time - q.anchor_time) as i64,
        hash: q.hash,
        q_anchor: q.anchor_time,
        weight,
    }
}

/// The votes of one query fingerprint: one per posting of its hash.
pub open spec fn fingerprint_votes(
    list: Seq<Posting>,
    q: QueryFp,
    rarity: RarityTable,
) -> Seq<Vote> {
    list.map_values(|p: Posting| vote_of(q, p, rarity.weight_of(document_frequency(list))))
}

/// The hash of fingerprint `i` occurs earlier in the query.
pub open spec fn repeats(query: Seq<QueryFp>, i: int) -> bool {
    exists|j: int| 0 <= j < i && (#[trigger] query[j]).hash == query[i].hash
}

/// All votes of a query: of every hash its first fingerprint votes, unless
/// the index does not know the hash or it is too common.
pub open spec fn query_votes(
    index: Map<u32, Seq<Posting>>,
    query: Seq<QueryFp>,
    params: MatchParams,
    rarity: RarityTable,
) -> Seq<Vote>
    decreases query.len(),
{
    if query.len() == 0 {
        Seq::empty()
    } else {
        let rest = query_votes(index, query.drop_last(), params, rarity);
        let q = query.last();
        if repeats(query, query.len() - 1) || !index.contains_key(q.hash) || document_frequency(
            index[q.hash],
        ) > params.stop_hash_df_threshold {
            rest
        } else {
            rest + fingerprint_votes(index[q.hash], q, rarity)
        }
    }
}

impl InMemoryIndex {
    fn collect_votes(
        &self,
        query: &[QueryFp],
        params: &MatchParams,
        rarity: &RarityTable,
    ) -> (votes: Vec<Vote>)
        requires
            self.wf(),
            self.is_finalized(),
        ensures
            votes@ == query_votes(self@, query@, *params, *rarity),
    {
        broadcast use vstd::std_specs::hash::group_hash_axioms;

        let mut votes: Vec<Vote> = Vec::new();
        let mut seen: HashSet<u32> = HashSet::new();
        let mut i: usize = 0;
        while i < query.len()
            invariant
                i <= query.len(),
                self.wf(),
                self.is_finalized(),
                forall|h: u32| #[trigger]
                    seen@.contains(h) <==> exists|j: int|
                        0 <= j < i && (#[trigger] query[j]).hash == h,
                votes@ == query_votes(self@, query@.take(i as int), *params, *rarity),
            decreases query.len() - i,
        {
            broadcast use vstd::std_specs::hash::group_hash_axioms;

            let q: QueryFp = query[i];
            let ghost seen_before = seen@;
            let fresh: bool = seen.insert(q.hash);
            proof {
                let upto = query@.take(i + 1);
                assert(upto.drop_last() =~= query@.take(i as int));
                assert(upto.last() == q);
                assert(repeats(upto, i as int) <==> seen_before.contains(q.hash)) by {
                    if seen_before.contains(q.hash) {
                        let j = choose|j: int| 0 <= j < i && (#[trigger] query[j]).hash == q.hash;
                        assert(upto[j].hash == upto[i as int].hash);
                    }
                    if repeats(upto, i as int) {
                        let j = choose|j: int|
                            0 <= j < i && (#[trigger] upto[j]).hash == upto[i as int].hash;
                        assert(query[j].hash == q.hash);
                    }
                }
                assert forall|h: u32| #[trigger] seen@.contains(h) <==> exists|j: int|
                    0 <= j < i + 1 && (#[trigger] query[j]).hash == h by {
                    if h == q.hash {
                        assert(query[i as int].hash == h);
                    }
                    if seen_before.contains(h) {
                        let j = choose|j: int| 0 <= j < i && (#[trigger] query[j]).hash == h;
                        assert(query[j].hash == h);
                    }
                }
            }
            if fresh {
                if let Some(postings) = self.postings_for(q.hash) {
                    let df: u64 = self.document_frequency(q.hash);
                    if df <= params.stop_hash_df_threshold {
                        let w: u32 = rarity.weight(df);
                        let ghost before = votes@;
                        let ghost expected = fingerprint_votes(postings@, q, *rarity);
                        let mut k: usize = 0;
                        while k < postings.len()
                            invariant
                                k <= postings.len(),
                                                expected == fingerprint_votes(postings@, q, *rarity),
                                w == rarity.weight_of(document_frequency(postings@)),
                                votes@ == before + expected.take(k as int),
                            decreases postings.len() - k,
                        {
                            let p: Posting = postings[k];
                            votes.push(cast_vote(q, p, w));
                            assert(expected.take(k + 1) =~= expected.take(k as int).push(
                                expected[k as int],
                            ));
                            k = k + 1;
                        }
                        assert(expected.take(k as int) =~= expected);
                    }
                }
            }
            i = i + 1;
        }
        assert(query@.take(i as int) =~= query@);
        votes
    }
}

/// One vote.
fn cast_vote(q: QueryFp, p: Posting, weight: u32) -> (v: Vote)
    ensures
        v == vote_of(q, p, weight),
{
    Vote {
        rec: p.recording.0,
        exact: p.anchor_time as i64 - q.anchor_time as i64,
        hash: q.hash,
        q_anchor: q.anchor_time,
        weight,
    }
}

/// The votes of one cell: those for a recording in the window of
/// `2 * tolerance + 1` frames from `start` on.
pub open spec fn in_cell(rec: u32, start: i64, tolerance: int) -> spec_fn(Vote) -> bool {
    |v: Vote| v.rec == rec && start <= v.exact <= start + 2 * tolerance
}

/// The votes for a recording at one exact offset.
pub open spec fn at_offset(rec: u32, offset: i64) -> spec_fn(Vote) -> bool {
    |v: Vote| v.rec == rec && v.exact == offset
}

/// The votes for a recording that agree with an offset within the tolerance.
pub open spec fn near_offset(rec: u32, offset: i64, tolerance: int) -> spec_fn(Vote) -> bool {
    |v: Vote| v.rec == rec && -tolerance <= v.exact - offset <= tolerance
}

pub open spec fn vote_weight() -> spec_fn(Vote) -> nat {
    |v: Vote| v.weight as nat
}

/// Rarity mass of the votes that satisfy `p`.
pub open spec fn mass(votes: Seq<Vote>, p: spec_fn(Vote) -> bool) -> nat {
    sum_where(votes, p, vote_weight())
}

/// The cell from `start` on is the heaviest of a recording; of equally heavy
/// ones, the one with the smallest offsets. A cell starts at a vote.
pub open spec fn is_best_cell(votes: Seq<Vote>, rec: u32, tolerance: int, start: i64) -> bool {
    &&& exists|v: Vote| #[trigger] votes.contains(v) && v.rec == rec && v.exact == start
    &&& forall|v: Vote| #[trigger]
        votes.contains(v) && v.rec == rec ==> {
            let other = mass(votes, in_cell(rec, v.exact, tolerance));
            let best = mass(votes, in_cell(rec, start, tolerance));
            other < best || (other == best && start <= v.exact)
        }
}

/// `offset` is the heaviest exact offset of a cell; of equally heavy ones,
/// the smallest.
pub open spec fn is_dominant(
    votes: Seq<Vote>,
    rec: u32,
    tolerance: int,
    start: i64,
    offset: i64,
) -> bool {
    let cell = in_cell(rec, start, tolerance);
    &&& exists|v: Vote| #[trigger] votes.contains(v) && cell(v) && v.exact == offset
    &&& forall|v: Vote| #[trigger]
        votes.contains(v) && cell(v) ==> {
            let other = mass(votes, at_offset(rec, v.exact));
            let best = mass(votes, at_offset(rec, offset));
            other < best || (other == best && offset <= v.exact)
        }
}

/// The distinct query hashes among the votes that satisfy `p`.
pub open spec fn hashes_where(votes: Seq<Vote>, p: spec_fn(Vote) -> bool) -> Set<u32> {
    Set::new(|h: u32| exists|v: Vote| #[trigger] votes.contains(v) && p(v) && v.hash == h)
}

/// `span` is the distance between the earliest and the latest query anchor
/// among the votes that satisfy `p`.
pub open spec fn is_span(votes: Seq<Vote>, p: spec_fn(Vote) -> bool, span: int) -> bool {
    &&& exists|a: Vote, b: Vote| #[trigger]
        votes.contains(a) && #[trigger] votes.contains(b) && p(a) && p(b) && b.q_anchor - a.q_anchor
            == span
    &&& forall|a: Vote, b: Vote| #[trigger]
        votes.contains(a) && #[trigger] votes.contains(b) && p(a) && p(b) ==> b.q_anchor
            - a.q_anchor <= span
}

/// Result of matching one query against one recording.
#[derive(Debug, Clone, Copy, PartialEq, Eq, Structural)]
pub struct MatchOutcome {
    pub recording: RecordingId,
    /// Rarity mass of the winning cell, after stop-hash filtering.
    pub weighted_score: u128,
    /// Votes agreeing with the reported offset within the tolerance.
    pub inliers: usize,
    /// Rarity mass of those votes. Its share of [`Self::weighted_score`] is
    /// the offset concentration.
    pub inlier_score: u128,
    /// Time offset of the recording relative to the query (frames): the
    /// dominant exact offset inside the winning cell.
    pub offset_frames: i64,
    /// Score of the next candidate of the shortlist, zero when there is none.
    /// [`Self::weighted_score`] divided by it is the margin, which counts as
    /// one where there is no next candidate.
    pub next_score: u128,
    /// Span of query anchor times that contribute inlier votes, in frames.
    /// Repetitive music concentrates evidence at one query moment; a real
    /// capture spreads it across the whole window.
    pub query_span_frames: u32,
    /// Distinct query hashes among the inliers. One hash repeating at many
    /// times inflates [`Self::inliers`] without adding identity.
    pub unique_aligned: usize,
    /// Recordings in the catalog that was asked.
    pub catalog_recordings: u64,
}

impl MatchOutcome {
    /// Mean rarity weight over the inlier votes, in millionths: the mean
    /// behind the score. Ubiquitous hashes drag it toward [`RARITY_FLOOR`]
    /// even where the counts look healthy. In a catalog of a single recording
    /// no hash is rarer than another, every weight is at the floor, and the
    /// mean counts as one.
    pub open spec fn mean_rarity(&self) -> int {
        if self.inliers == 0 {
            0
        } else if self.catalog_recordings <= 1 {
            1_000_000
        } else {
            self.inlier_score as int / self.inliers as int
        }
    }

    /// The offset concentration is at least `num / den`.
    pub open spec fn concentrated(&self, num: int, den: int) -> bool {
        if self.weighted_score > 0 {
            self.inlier_score * den >= self.weighted_score * num
        } else {
            num <= 0
        }
    }

    /// The margin over the next candidate is at least `num / den`.
    pub open spec fn leads_by(&self, num: int, den: int) -> bool {
        if self.next_score > 0 {
            self.weighted_score * den >= self.next_score * num
        } else {
            den >= num
        }
    }

    /// The share of the candidate's mass near its dominant offset is at least
    /// `num / den`.
    pub fn concentration_at_least(&self, num: u32, den: u32) -> (r: bool)
        requires
            den > 0,
        ensures
            r == self.concentrated(num as int, den as int),
    {
        if self.weighted_score > 0 {
            ratio_at_least(self.inlier_score, self.weighted_score, num, den)
        } else {
            num == 0
        }
    }

    /// The candidate's score is at least `num / den` times the next one's;
    /// without a next candidate the margin counts as one.
    pub fn margin_at_least(&self, num: u32, den: u32) -> (r: bool)
        requires
            den > 0,
        ensures
            r == self.leads_by(num as int, den as int),
    {
        if self.next_score > 0 {
            ratio_at_least(self.weighted_score, self.next_score, num, den)
        } else {
            den >= num
        }
    }

    /// The mean rarity of the inliers, in millionths.
    pub fn mean_rarity_micro(&self) -> (r: u128)
        ensures
            r == self.mean_rarity(),
    {
        if self.inliers == 0 {
            0
        } else if self.catalog_recordings <= 1 {
            1_000_000
        } else {
            self.inlier_score / self.inliers as u128
        }
    }

    /// The mean rarity of the inliers, in thousandths.
    pub fn mean_rarity_milli(&self) -> (r: u128)
        ensures
            r == self.mean_rarity() / 1000,
            self.inliers > 0 && self.catalog_recordings > 1 ==> r == self.inlier_score as int
                / self.inliers as int / 1000,
            self.inliers > 0 && self.catalog_recordings <= 1 ==> r == 1000,
    {
        self.mean_rarity_micro() / 1000
    }
}

/// What an outcome says of its recording, given all votes and the number of
/// recordings in the catalog.
pub open spec fn describes(
    votes: Seq<Vote>,
    tolerance: int,
    catalog: nat,
    o: MatchOutcome,
    start: i64,
) -> bool {
    let rec = o.recording.0;
    let near = near_offset(rec, o.offset_frames, tolerance);
    &&& is_best_cell(votes, rec, tolerance, start)
    &&& o.weighted_score == mass(votes, in_cell(rec, start, tolerance))
    &&& is_dominant(votes, rec, tolerance, start, o.offset_frames)
    &&& o.inliers == count_where(votes, near)
    &&& o.inlier_score == mass(votes, near)
    &&& is_span(votes, near, o.query_span_frames as int)
    &&& o.unique_aligned == hashes_where(votes, near).len()
    &&& o.catalog_recordings == catalog
}

/// Some cell is the winning cell that an outcome describes.
pub open spec fn is_described(
    votes: Seq<Vote>,
    tolerance: int,
    catalog: nat,
    o: MatchOutcome,
) -> bool {
    exists|start: i64| #[trigger] describes(votes, tolerance, catalog, o, start)
}

/// Ranking of candidates: heavier first, ties by ascending recording id.
pub open spec fn outranks(score_a: nat, rec_a: u32, score_b: nat, rec_b: u32) -> bool {
    score_a > score_b || (score_a == score_b && rec_a < rec_b)
}

/// The shortlist of a query: the best `limit` recordings that received a
/// vote, in ranking order, each described by its winning cell.
#[verifier::opaque]
pub open spec fn is_shortlist(
    votes: Seq<Vote>,
    tolerance: int,
    catalog: nat,
    limit: nat,
    out: Seq<MatchOutcome>,
) -> bool {
    &&& out.len() <= limit
    &&& forall|i: int|
        0 <= i < out.len() ==> is_described(votes, tolerance, catalog, #[trigger] out[i])
    &&& forall|i: int, j: int|
        #![trigger out[i], out[j]]
        0 <= i < j < out.len() ==> outranks(
            out[i].weighted_score as nat,
            out[i].recording.0,
            out[j].weighted_score as nat,
            out[j].recording.0,
        )
    &&& forall|v: Vote| #[trigger]
        votes.contains(v) ==> listed(out, v.rec) || (out.len() == limit && forall|i: int, b: i64|
            #![trigger out[i], is_best_cell(votes, v.rec, tolerance, b)]
            0 <= i < out.len() && is_best_cell(votes, v.rec, tolerance, b) ==> outranks(
                out[i].weighted_score as nat,
                out[i].recording.0,
                mass(votes, in_cell(v.rec, b, tolerance)),
                v.rec,
            ))
    &&& forall|i: int| 0 <= i < out.len() ==> #[trigger] names_competitor(out, i)
}

/// Outcome `i` carries the score of the next one, zero when it is the last.
pub open spec fn names_competitor(out: Seq<MatchOutcome>, i: int) -> bool {
    out[i].next_score == if i + 1 < out.len() {
        out[i + 1].weighted_score as int
    } else {
        0
    }
}

/// The recording is on the shortlist.
pub open spec fn listed(out: Seq<MatchOutcome>, rec: u32) -> bool {
    exists|i: int| 0 <= i < out.len() && (#[trigger] out[i]).recording.0 == rec
}

/// The winning cell of one recording: votes `lo..hi` of the sorted votes.
#[derive(Clone, Copy, PartialEq, Eq, Structural)]
struct Row {
    rec: u32,
    weight: u128,
    lo: usize,
    hi: usize,
}

impl Ranked for Row {
    closed spec fn leq(a: Row, b: Row) -> bool {
        if a.weight != b.weight {
            a.weight > b.weight
        } else if a.rec != b.rec {
            a.rec < b.rec
        } else if a.lo != b.lo {
            a.lo < b.lo
        } else {
            a.hi <= b.hi
        }
    }

    proof fn total_order() {
    }

    fn is_leq(&self, other: &Row) -> (r: bool) {
        if self.weight != other.weight {
            self.weight > other.weight
        } else if self.rec != other.rec {
            self.rec < other.rec
        } else if self.lo != other.lo {
            self.lo < other.lo
        } else {
            self.hi <= other.hi
        }
    }
}

/// Votes `lo..hi` are exactly those that satisfy `p`.
spec fn is_run(votes: Seq<Vote>, lo: int, hi: int, p: spec_fn(Vote) -> bool) -> bool {
    &&& 0 <= lo < hi <= votes.len()
    &&& forall|k: int| 0 <= k < votes.len() ==> (p(#[trigger] votes[k]) <==> lo <= k < hi)
}

/// Mass of the votes `lo..hi`.
spec fn range_mass(votes: Seq<Vote>, lo: int, hi: int) -> nat
    decreases hi - lo,
{
    if hi <= lo {
        0
    } else {
        range_mass(votes, lo, hi - 1) + votes[hi - 1].weight as nat
    }
}

/// It splits at any place between.
proof fn lemma_range_splits(votes: Seq<Vote>, lo: int, mid: int, hi: int)
    requires
        lo <= mid <= hi,
    ensures
        range_mass(votes, lo, hi) == range_mass(votes, lo, mid) + range_mass(votes, mid, hi),
    decreases hi - mid,
{
    if mid < hi {
        lemma_range_splits(votes, lo, mid, hi - 1);
    }
}

/// It fits 96 bits.
proof fn lemma_range_bound(votes: Seq<Vote>, lo: int, hi: int)
    requires
        0 <= lo <= hi <= votes.len(),
        votes.len() <= u64::MAX,
    ensures
        range_mass(votes, lo, hi) <= (hi - lo) * 0xffff_ffff,
        range_mass(votes, lo, hi) <= u64::MAX * 0xffff_ffff,
    decreases hi - lo,
{
    if lo < hi {
        lemma_range_bound(votes, lo, hi - 1);
    }
}

/// Where `lo..hi` are the votes that satisfy `p`, it is their mass.
proof fn lemma_run_mass(votes: Seq<Vote>, lo: int, hi: int, p: spec_fn(Vote) -> bool)
    requires
        is_run(votes, lo, hi, p),
    ensures
        mass(votes, p) == range_mass(votes, lo, hi),
{
    lemma_sum_range(votes, lo, hi, p, vote_weight());
    lemma_subrange_mass(votes, lo, hi, hi, p);
}

proof fn lemma_subrange_mass(votes: Seq<Vote>, lo: int, mid: int, hi: int, p: spec_fn(Vote) -> bool)
    requires
        is_run(votes, lo, hi, p),
        lo <= mid <= hi,
    ensures
        mass(votes.subrange(lo, mid), p) == range_mass(votes, lo, mid),
    decreases mid - lo,
{
    if lo < mid {
        lemma_subrange_mass(votes, lo, mid - 1, hi, p);
        assert(votes.subrange(lo, mid) =~= votes.subrange(lo, mid - 1).push(votes[mid - 1]));
        lemma_sum_push(votes.subrange(lo, mid - 1), votes[mid - 1], p, vote_weight());
        assert(p(votes[mid - 1]));
    } else {
        assert(votes.subrange(lo, mid) =~= Seq::<Vote>::empty());
    }
}

/// A row holds the winning cell of its recording.
spec fn row_ok(votes: Seq<Vote>, tolerance: int, row: Row) -> bool {
    let start = votes[row.lo as int].exact;
    &&& row.lo < row.hi <= votes.len()
    &&& votes[row.lo as int].rec == row.rec
    &&& is_run(votes, row.lo as int, row.hi as int, in_cell(row.rec, start, tolerance))
    &&& is_best_cell(votes, row.rec, tolerance, start)
    &&& row.weight == mass(votes, in_cell(row.rec, start, tolerance))
}

/// Every recording before `at` is smaller than every one from `at` on.
spec fn recording_boundary(votes: Seq<Vote>, at: int) -> bool {
    forall|k: int, l: int|
        #![trigger votes[k], votes[l]]
        0 <= k < at <= l < votes.len() ==> votes[k].rec < votes[l].rec
}

/// The offset lies in the window from `start` on.
fn in_window(exact: i64, start: i64, tol: i64) -> (r: bool)
    requires
        tol >= 0,
    ensures
        r == (exact <= start + 2 * tol),
{
    exact as i128 - start as i128 <= 2 * (tol as i128)
}

/// Votes `i..lo` are those for the recording before the offset at `lo`.
spec fn before_offset(votes: Seq<Vote>, i: int, lo: int) -> bool {
    forall|k: int, l: int|
        #![trigger votes[k], votes[l]]
        i <= k < lo <= l < votes.len() && votes[l].rec == votes[i].rec ==> votes[k].exact
            < votes[l].exact
}

/// The cell that starts at vote `k` weighs at most `w`, and less where it
/// stands before `start`.
spec fn not_better(votes: Seq<Vote>, tolerance: int, k: int, start: i64, w: nat) -> bool {
    let other = mass(votes, in_cell(votes[k].rec, votes[k].exact, tolerance));
    other < w || (other == w && start <= votes[k].exact)
}

/// End of the cell that starts at `lo`, where `lo..from` are known to belong
/// to it and to weigh `known`; and its mass.
fn extend_cell(votes: &Vec<Vote>, lo: usize, from: usize, known: u128, tol: i64) -> (r: (
    usize,
    u128,
))
    requires
        ordered(votes@),
        tol >= 0,
        lo <= from <= votes.len(),
        lo < votes.len(),
        known == range_mass(votes@, lo as int, from as int),
        forall|k: int|
            lo <= k < from ==> (#[trigger] votes[k]).rec == votes[lo as int].rec && votes[k].exact
                <= votes[lo as int].exact + 2 * tol,
        forall|k: int|
            0 <= k < lo ==> (#[trigger] votes[k]).rec != votes[lo as int].rec || votes[k].exact
                < votes[lo as int].exact,
    ensures
        from <= r.0,
        is_run(
            votes@,
            lo as int,
            r.0 as int,
            in_cell(votes[lo as int].rec, votes[lo as int].exact, tol as int),
        ),
        r.1 == range_mass(votes@, lo as int, r.0 as int),
        r.1 == mass(
            votes@,
            in_cell(votes[lo as int].rec, votes[lo as int].exact, tol as int),
        ),
{
    let rec: u32 = votes[lo].rec;
    let start: i64 = votes[lo].exact;
    let ghost p = in_cell(rec, start, tol as int);
    let mut hi: usize = from;
    let mut w: u128 = known;
    while hi < votes.len() && votes[hi].rec == rec && in_window(votes[hi].exact, start, tol)
        invariant
            lo <= from <= hi <= votes.len(),
            lo < votes.len(),
            tol >= 0,
            rec == votes[lo as int].rec,
            start == votes[lo as int].exact,
            w == range_mass(votes@, lo as int, hi as int),
            forall|k: int|
                lo <= k < hi ==> (#[trigger] votes[k]).rec == rec && votes[k].exact <= start + 2
                    * tol,
        decreases votes.len() - hi,
    {
        proof {
            lemma_range_bound(votes@, lo as int, hi as int);
        }
        w = w + votes[hi].weight as u128;
        hi = hi + 1;
    }
    proof {
        assert(hi > lo);
        assert forall|k: int| 0 <= k < votes.len() implies (p(#[trigger] votes[k]) <==> lo <= k
            < hi) by {
            if lo < k < hi {
                assert(Vote::leq(votes[lo as int], votes[k]));
            }
            if k > hi {
                assert(Vote::leq(votes[hi as int], votes[k]));
                assert(Vote::leq(votes[lo as int], votes[hi as int]));
            }
            if k == hi {
                assert(Vote::leq(votes[lo as int], votes[hi as int]));
            }
        }
        lemma_run_mass(votes@, lo as int, hi as int, p);
    }
    (hi, w)
}

/// The first vote from `lo` on, below `hi`, with another offset, and the mass
/// of the votes from there to `hi`.
fn skip_offset(votes: &Vec<Vote>, lo: usize, hi: usize, known: u128) -> (r: (usize, u128))
    requires
        lo < hi <= votes.len(),
        known == range_mass(votes@, lo as int, hi as int),
    ensures
        lo < r.0 <= hi,
        forall|k: int| lo <= k < r.0 ==> (#[trigger] votes[k]).exact == votes[lo as int].exact,
        r.0 < hi ==> votes[r.0 as int].exact != votes[lo as int].exact,
        r.1 == range_mass(votes@, r.0 as int, hi as int),
{
    let start: i64 = votes[lo].exact;
    let mut at: usize = lo;
    let mut w: u128 = known;
    while at < hi && votes[at].exact == start
        invariant
            lo <= at <= hi <= votes.len(),
            lo < hi,
            start == votes[lo as int].exact,
            w == range_mass(votes@, at as int, hi as int),
            forall|k: int| lo <= k < at ==> (#[trigger] votes[k]).exact == start,
        decreases hi - at,
    {
        proof {
            lemma_range_splits(votes@, at as int, at + 1, hi as int);
            assert(range_mass(votes@, at as int, at + 1) == votes[at as int].weight) by {
                assert(range_mass(votes@, at as int, at as int) == 0);
            }
        }
        w = w - votes[at].weight as u128;
        at = at + 1;
    }
    (at, w)
}

/// The winning cell of the recording whose votes start at `i`, and where
/// they end. The cells slide over the offsets: each starts at the next one.
fn best_cell(votes: &Vec<Vote>, i: usize, tol: i64) -> (r: (Row, usize))
    requires
        ordered(votes@),
        tol >= 0,
        i < votes.len(),
        recording_boundary(votes@, i as int),
    ensures
        row_ok(votes@, tol as int, r.0),
        r.0.rec == votes[i as int].rec,
        r.0.lo < r.1,
        i < r.1 <= votes.len(),
        recording_boundary(votes@, r.1 as int),
        forall|k: int| i <= k < r.1 ==> (#[trigger] votes[k]).rec == r.0.rec,
{
    let n: usize = votes.len();
    let rec: u32 = votes[i].rec;
    let mut best_lo: usize = i;
    let mut best_hi: usize = i;
    let mut best_w: u128 = 0;
    let mut lo: usize = i;
    let mut hi: usize = i;
    let mut w: u128 = 0;
    while lo < n && votes[lo].rec == rec
        invariant
            n == votes.len(),
            i <= lo <= hi <= n,
            i < n,
            tol >= 0,
            ordered(votes@),
            rec == votes[i as int].rec,
            recording_boundary(votes@, i as int),
            w == range_mass(votes@, lo as int, hi as int),
            forall|k: int| i <= k < hi ==> (#[trigger] votes[k]).rec == rec,
            lo < n ==> forall|k: int|
                lo <= k < hi ==> (#[trigger] votes[k]).exact <= votes[lo as int].exact + 2 * tol,
            before_offset(votes@, i as int, lo as int),
            lo > i ==> {
                &&& i <= best_lo < best_hi <= n
                &&& best_lo < lo
                &&& is_run(
                    votes@,
                    best_lo as int,
                    best_hi as int,
                    in_cell(rec, votes[best_lo as int].exact, tol as int),
                )
                &&& best_w == mass(
                    votes@,
                    in_cell(rec, votes[best_lo as int].exact, tol as int),
                )
                &&& forall|k: int|
                    i <= k < lo ==> #[trigger] not_better(
                        votes@,
                        tol as int,
                        k,
                        votes[best_lo as int].exact,
                        best_w as nat,
                    )
            },
        decreases n - lo,
    {
        proof {
            assert forall|k: int| 0 <= k < lo implies (#[trigger] votes[k]).rec
                != votes[lo as int].rec || votes[k].exact < votes[lo as int].exact by {
                if k < i {
                    assert(votes[k].rec < votes[lo as int].rec);
                }
            }
        }
        let (end, mass_here) = extend_cell(votes, lo, hi, w, tol);
        let ghost cell = in_cell(rec, votes[lo as int].exact, tol as int);
        let (next, rest) = skip_offset(votes, lo, end, mass_here);
        let ghost was = (best_lo, best_w);
        if lo == i || mass_here > best_w {
            best_lo = lo;
            best_hi = end;
            best_w = mass_here;
        }
        proof {
            lemma_slide(votes@, tol as int, i as int, lo as int, end as int, next as int);
            assert forall|k: int| i <= k < next implies #[trigger] not_better(
                votes@,
                tol as int,
                k,
                votes[best_lo as int].exact,
                best_w as nat,
            ) by {
                if k < lo {
                    assert(not_better(
                        votes@,
                        tol as int,
                        k,
                        votes[was.0 as int].exact,
                        was.1 as nat,
                    ));
                } else {
                    assert(votes[k].exact == votes[lo as int].exact);
                    assert(cell(votes[k]));
                    if lo > i {
                        assert(votes[was.0 as int].exact < votes[lo as int].exact);
                    }
                }
            }
        }
        lo = next;
        hi = end;
        w = rest;
    }
    proof {
        let start = votes[best_lo as int].exact;
        assert(votes@.contains(votes[best_lo as int]));
        assert forall|k: int, l: int|
            #![trigger votes[k], votes[l]]
            0 <= k < lo <= l < n implies votes[k].rec < votes[l].rec by {
            if k >= i {
                assert(votes[k].rec == rec);
                assert(votes[lo as int].rec != rec);
                if l > lo {
                    assert(Vote::leq(votes[lo as int], votes[l]));
                }
                assert(Vote::leq(votes[i as int], votes[lo as int]));
            }
        }
        assert forall|v: Vote| #[trigger] votes@.contains(v) && v.rec == rec implies {
            let other = mass(votes@, in_cell(rec, v.exact, tol as int));
            other < best_w || (other == best_w && start <= v.exact)
        } by {
            let k = votes@.index_of(v);
            assert(votes[k] == v);
            if k < i {
                assert(votes[k].rec < votes[i as int].rec);
            }
            if k >= lo {
                assert(votes[i as int].rec < votes[k].rec);
            }
            assert(not_better(votes@, tol as int, k, start, best_w as nat));
        }
    }
    (Row { rec, weight: best_w, lo: best_lo, hi: best_hi }, lo)
}

/// Moving on from the offset at `lo` to the one at `next`: what stays in view
/// fits the next window, and all offsets before are smaller.
proof fn lemma_slide(votes: Seq<Vote>, tolerance: int, i: int, lo: int, end: int, next: int)
    requires
        ordered(votes),
        0 <= i <= lo < next <= end <= votes.len(),
        tolerance >= 0,
        before_offset(votes, i, lo),
        votes[lo].rec == votes[i].rec,
        is_run(votes, lo, end, in_cell(votes[lo].rec, votes[lo].exact, tolerance)),
        forall|k: int| lo <= k < next ==> (#[trigger] votes[k]).exact == votes[lo].exact,
        next < end ==> votes[next].exact != votes[lo].exact,
    ensures
        before_offset(votes, i, next),
        forall|k: int| lo <= k < end ==> (#[trigger] votes[k]).rec == votes[i].rec,
        next < votes.len() ==> forall|k: int|
            next <= k < end ==> (#[trigger] votes[k]).exact <= votes[next].exact + 2 * tolerance,
{
    let cell = in_cell(votes[lo].rec, votes[lo].exact, tolerance);
    assert forall|k: int| lo <= k < end implies (#[trigger] votes[k]).rec == votes[i].rec
        && votes[k].exact <= votes[lo].exact + 2 * tolerance by {
        assert(cell(votes[k]));
    }
    if next < end {
        assert(Vote::leq(votes[lo], votes[next]));
    }
    assert forall|k: int, l: int|
        #![trigger votes[k], votes[l]]
        i <= k < next <= l < votes.len() && votes[l].rec == votes[i].rec implies votes[k].exact
        < votes[l].exact by {
        if l >= end {
            assert(!cell(votes[l]));
            assert(Vote::leq(votes[lo], votes[l]));
        } else if l > next {
            assert(Vote::leq(votes[next], votes[l]));
        }
        assert(votes[lo].exact < votes[l].exact);
        if k < lo {
            assert(votes[k].exact < votes[lo].exact);
        }
    }
}

spec fn has_row(rows: Seq<Row>, rec: u32) -> bool {
    exists|i: int| 0 <= i < rows.len() && (#[trigger] rows[i]).rec == rec
}

/// The winning cell of every recording that received a vote, by recording.
fn best_cells(votes: &Vec<Vote>, tol: i64) -> (rows: Vec<Row>)
    requires
        ordered(votes@),
        tol >= 0,
    ensures
        forall|i: int| 0 <= i < rows.len() ==> row_ok(votes@, tol as int, #[trigger] rows[i]),
        forall|i: int, j: int|
            #![trigger rows[i], rows[j]]
            0 <= i < j < rows.len() ==> rows[i].rec < rows[j].rec,
        forall|k: int| 0 <= k < votes.len() ==> has_row(rows@, (#[trigger] votes[k]).rec),
{
    let n: usize = votes.len();
    let mut rows: Vec<Row> = Vec::new();
    let mut i: usize = 0;
    while i < n
        invariant
            n == votes.len(),
            i <= n,
            ordered(votes@),
            tol >= 0,
            recording_boundary(votes@, i as int),
            forall|a: int| 0 <= a < rows.len() ==> row_ok(votes@, tol as int, #[trigger] rows[a]),
            forall|a: int| 0 <= a < rows.len() ==> (#[trigger] rows[a]).lo < i,
            forall|a: int, b: int|
                #![trigger rows[a], rows[b]]
                0 <= a < b < rows.len() ==> rows[a].rec < rows[b].rec,
            forall|k: int| 0 <= k < i ==> has_row(rows@, (#[trigger] votes[k]).rec),
        decreases n - i,
    {
        let (row, end) = best_cell(votes, i, tol);
        let ghost before = rows@;
        proof {
            assert forall|a: int| 0 <= a < rows.len() implies (#[trigger] rows[a]).rec < row.rec by {
                assert(row_ok(votes@, tol as int, rows[a]));
                assert(votes[rows[a].lo as int].rec < votes[i as int].rec);
            }
        }
        rows.push(row);
        proof {
            assert forall|k: int| 0 <= k < end implies has_row(
                rows@,
                (#[trigger] votes[k]).rec,
            ) by {
                if k < i {
                    assert(has_row(before, votes[k].rec));
                    let a = choose|a: int|
                        0 <= a < before.len() && (#[trigger] before[a]).rec == votes[k].rec;
                    assert(rows[a].rec == votes[k].rec);
                } else {
                    assert(rows[rows.len() - 1].rec == votes[k].rec);
                }
            }
        }
        i = end;
    }
    rows
}

/// End and mass of the offset group that starts at `at`, inside the cell
/// `lo..hi`.
fn offset_end(votes: &Vec<Vote>, lo: usize, hi: usize, at: usize, tol: i64) -> (r: (usize, u128))
    requires
        ordered(votes@),
        lo <= at < hi <= votes.len(),
        is_run(
            votes@,
            lo as int,
            hi as int,
            in_cell(votes[lo as int].rec, votes[lo as int].exact, tol as int),
        ),
        forall|k: int| lo <= k < at ==> (#[trigger] votes[k]).exact < votes[at as int].exact,
    ensures
        at < r.0 <= hi,
        forall|k: int| at <= k < r.0 ==> (#[trigger] votes[k]).exact == votes[at as int].exact,
        forall|k: int, l: int|
            #![trigger votes[k], votes[l]]
            lo <= k < r.0 <= l < hi ==> votes[k].exact < votes[l].exact,
        r.1 == mass(votes@, at_offset(votes[lo as int].rec, votes[at as int].exact)),
{
    let ghost rec = votes[lo as int].rec;
    let ghost cell = in_cell(rec, votes[lo as int].exact, tol as int);
    let offset: i64 = votes[at].exact;
    let ghost p = at_offset(rec, offset);
    let mut end: usize = at;
    let mut w: u128 = 0;
    while end < hi && votes[end].exact == offset
        invariant
            lo <= at <= end <= hi <= votes.len(),
            at < hi,
            offset == votes[at as int].exact,
            forall|k: int| at <= k < end ==> (#[trigger] votes[k]).exact == offset,
            w == range_mass(votes@, at as int, end as int),
        decreases hi - end,
    {
        proof {
            lemma_range_bound(votes@, at as int, end as int);
        }
        w = w + votes[end].weight as u128;
        end = end + 1;
    }
    proof {
        assert forall|k: int, l: int|
            #![trigger votes[k], votes[l]]
            lo <= k < end <= l < hi implies votes[k].exact < votes[l].exact by {
            assert(cell(votes[k]) && cell(votes[l]) && cell(votes[at as int]) && cell(
                votes[end as int],
            ));
            assert(Vote::leq(votes[at as int], votes[end as int]));
            if l > end {
                assert(Vote::leq(votes[end as int], votes[l]));
            }
        }
        assert forall|k: int| 0 <= k < votes.len() implies (p(#[trigger] votes[k]) <==> at <= k
            < end) by {
            if lo <= k < hi {
                assert(cell(votes[k]));
            }
            assert(cell(votes[at as int]));
            if p(votes[k]) {
                assert(cell(votes[k]));
                if k < at {
                    assert(votes[k].exact < votes[at as int].exact);
                }
                if k >= end {
                    assert(votes[at as int].exact < votes[k].exact);
                }
            }
        }
        lemma_run_mass(votes@, at as int, end as int, p);
    }
    (end, w)
}

/// The place of the dominant exact offset of the cell `lo..hi`.
fn dominant_offset(votes: &Vec<Vote>, lo: usize, hi: usize, tol: i64) -> (place: usize)
    requires
        ordered(votes@),
        lo < hi <= votes.len(),
        is_run(
            votes@,
            lo as int,
            hi as int,
            in_cell(votes[lo as int].rec, votes[lo as int].exact, tol as int),
        ),
    ensures
        lo <= place < hi,
        is_dominant(
            votes@,
            votes[lo as int].rec,
            tol as int,
            votes[lo as int].exact,
            votes[place as int].exact,
        ),
{
    let ghost rec = votes[lo as int].rec;
    let ghost cell = in_cell(rec, votes[lo as int].exact, tol as int);
    let mut place: usize = lo;
    let mut best_w: u128 = 0;
    let mut j: usize = lo;
    while j < hi
        invariant
            ordered(votes@),
            lo <= j <= hi <= votes.len(),
            lo < hi,
            rec == votes[lo as int].rec,
            cell == in_cell(rec, votes[lo as int].exact, tol as int),
            is_run(votes@, lo as int, hi as int, cell),
            forall|k: int, l: int|
                #![trigger votes[k], votes[l]]
                lo <= k < j <= l < hi ==> votes[k].exact < votes[l].exact,
            lo <= place < hi,
            j > lo ==> {
                &&& place < j
                &&& best_w == mass(votes@, at_offset(rec, votes[place as int].exact))
                &&& forall|k: int|
                    lo <= k < j ==> {
                        let other = mass(votes@, at_offset(rec, (#[trigger] votes[k]).exact));
                        other < best_w || (other == best_w && votes[place as int].exact
                            <= votes[k].exact)
                    }
            },
        decreases hi - j,
    {
        let (end, w) = offset_end(votes, lo, hi, j, tol);
        if j == lo || w > best_w {
            place = j;
            best_w = w;
        }
        j = end;
    }
    proof {
        assert(cell(votes[place as int]));
        assert(votes@.contains(votes[place as int]));
        assert forall|v: Vote| #[trigger] votes@.contains(v) && cell(v) implies {
            let other = mass(votes@, at_offset(rec, v.exact));
            other < best_w || (other == best_w && votes[place as int].exact <= v.exact)
        } by {
            let l = votes@.index_of(v);
            assert(votes[l] == v);
            assert(cell(votes[l]));
        }
    }
    place
}

/// The exact offsets lie within the tolerance of each other.
fn within(a: i64, b: i64, tol: i64) -> (r: bool)
    ensures
        r == (-tol <= a - b <= tol),
{
    let d: i128 = a as i128 - b as i128;
    -(tol as i128) <= d && d <= tol as i128
}

/// The votes that agree with the offset at `place`.
fn near_votes(votes: &Vec<Vote>, place: usize, tol: i64) -> (r: (usize, usize))
    requires
        ordered(votes@),
        place < votes.len(),
        tol >= 0,
    ensures
        r.0 <= place < r.1,
        is_run(
            votes@,
            r.0 as int,
            r.1 as int,
            near_offset(votes[place as int].rec, votes[place as int].exact, tol as int),
        ),
{
    let rec: u32 = votes[place].rec;
    let offset: i64 = votes[place].exact;
    let ghost near = near_offset(rec, offset, tol as int);
    let mut lo: usize = place;
    while lo > 0 && votes[lo - 1].rec == rec && within(votes[lo - 1].exact, offset, tol)
        invariant
            lo <= place < votes.len(),
            rec == votes[place as int].rec,
            offset == votes[place as int].exact,
            near == near_offset(rec, offset, tol as int),
            tol >= 0,
            forall|k: int| lo <= k <= place ==> near(#[trigger] votes[k]),
        decreases lo,
    {
        lo = lo - 1;
    }
    let mut hi: usize = place + 1;
    while hi < votes.len() && votes[hi].rec == rec && within(votes[hi].exact, offset, tol)
        invariant
            lo <= place < hi <= votes.len(),
            rec == votes[place as int].rec,
            offset == votes[place as int].exact,
            near == near_offset(rec, offset, tol as int),
            forall|k: int| lo <= k < hi ==> near(#[trigger] votes[k]),
        decreases votes.len() - hi,
    {
        hi = hi + 1;
    }
    proof {
        assert forall|k: int| 0 <= k < votes.len() implies (near(#[trigger] votes[k]) <==> lo <= k
            < hi) by {
            if k < lo {
                assert(!near(votes[lo - 1]));
                assert(Vote::leq(votes[lo - 1], votes[place as int]));
                if k < lo - 1 {
                    assert(Vote::leq(votes[k], votes[lo - 1]));
                }
            }
            if k >= hi {
                assert(!near(votes[hi as int]));
                assert(Vote::leq(votes[place as int], votes[hi as int]));
                if k > hi {
                    assert(Vote::leq(votes[hi as int], votes[k]));
                }
            }
        }
    }
    (lo, hi)
}

/// Distinct hashes of the votes `lo..hi`.
fn count_hashes(votes: &Vec<Vote>, lo: usize, hi: usize, near: Ghost<spec_fn(Vote) -> bool>) -> (n:
    usize)
    requires
        is_run(votes@, lo as int, hi as int, near@),
    ensures
        n == hashes_where(votes@, near@).len(),
{
    broadcast use vstd::std_specs::hash::group_hash_axioms;

    let mut hashes: HashSet<u32> = HashSet::new();
    let mut k: usize = lo;
    while k < hi
        invariant
            lo <= k <= hi <= votes.len(),
            forall|h: u32| #[trigger]
                hashes@.contains(h) <==> exists|m: int|
                    lo <= m < k && (#[trigger] votes[m]).hash == h,
        decreases hi - k,
    {
        broadcast use vstd::std_specs::hash::group_hash_axioms;

        let ghost had = hashes@;
        hashes.insert(votes[k].hash);
        proof {
            assert forall|h: u32| #[trigger] hashes@.contains(h) <==> exists|m: int|
                lo <= m < k + 1 && (#[trigger] votes[m]).hash == h by {
                if had.contains(h) {
                    let m = choose|m: int| lo <= m < k && (#[trigger] votes[m]).hash == h;
                    assert(votes[m].hash == h);
                }
                if votes[k as int].hash == h {
                    assert(votes[k as int].hash == h);
                }
            }
        }
        k = k + 1;
    }
    proof {
        let p = near@;
        assert forall|h: u32| hashes@.contains(h) <==> hashes_where(votes@, p).contains(h) by {
            if hashes@.contains(h) {
                let m = choose|m: int| lo <= m < hi && (#[trigger] votes[m]).hash == h;
                assert(p(votes[m]));
                assert(votes@.contains(votes[m]));
            }
            if hashes_where(votes@, p).contains(h) {
                let v = choose|v: Vote| #[trigger] votes@.contains(v) && p(v) && v.hash == h;
                let m = votes@.index_of(v);
                assert(p(votes[m]));
                assert(votes[m].hash == h);
            }
        }
        assert(hashes@ =~= hashes_where(votes@, p));
    }
    hashes.len()
}

/// Distance between the earliest and the latest query anchor of the votes
/// `lo..hi`.
fn anchor_span(votes: &Vec<Vote>, lo: usize, hi: usize, near: Ghost<spec_fn(Vote) -> bool>) -> (span:
    u32)
    requires
        is_run(votes@, lo as int, hi as int, near@),
    ensures
        is_span(votes@, near@, span as int),
{
    let mut first: usize = lo;
    let mut last: usize = lo;
    let mut k: usize = lo;
    while k < hi
        invariant
            lo <= k <= hi <= votes.len(),
            lo <= first < hi,
            lo <= last < hi,
            votes[first as int].q_anchor <= votes[last as int].q_anchor,
            forall|m: int|
                lo <= m < k ==> votes[first as int].q_anchor <= (#[trigger] votes[m]).q_anchor
                    <= votes[last as int].q_anchor,
        decreases hi - k,
    {
        if votes[k].q_anchor < votes[first].q_anchor {
            first = k;
        }
        if votes[k].q_anchor > votes[last].q_anchor {
            last = k;
        }
        k = k + 1;
    }
    let span: u32 = votes[last].q_anchor - votes[first].q_anchor;
    proof {
        let p = near@;
        let (a, b) = (votes[first as int], votes[last as int]);
        assert(p(a) && p(b));
        assert(votes@.contains(a) && votes@.contains(b));
        assert forall|x: Vote, y: Vote| #[trigger]
            votes@.contains(x) && #[trigger] votes@.contains(y) && p(x) && p(y) implies y.q_anchor
            - x.q_anchor <= span by {
            let i = votes@.index_of(x);
            let j = votes@.index_of(y);
            assert(p(votes[i]) && p(votes[j]));
        }
    }
    span
}

/// Mass of the votes `lo..hi`.
fn weigh(votes: &Vec<Vote>, lo: usize, hi: usize, near: Ghost<spec_fn(Vote) -> bool>) -> (w: u128)
    requires
        is_run(votes@, lo as int, hi as int, near@),
    ensures
        w == mass(votes@, near@),
{
    let mut w: u128 = 0;
    let mut k: usize = lo;
    while k < hi
        invariant
            lo <= k <= hi <= votes.len(),
            w == range_mass(votes@, lo as int, k as int),
        decreases hi - k,
    {
        proof {
            lemma_range_bound(votes@, lo as int, k as int);
        }
        w = w + votes[k].weight as u128;
        k = k + 1;
    }
    proof {
        lemma_run_mass(votes@, lo as int, hi as int, near@);
    }
    w
}

/// The number of votes in a run.
proof fn lemma_run_count(votes: Seq<Vote>, lo: int, mid: int, hi: int, p: spec_fn(Vote) -> bool)
    requires
        is_run(votes, lo, hi, p),
        lo <= mid <= hi,
    ensures
        count_where(votes.subrange(lo, mid), p) == mid - lo,
    decreases mid - lo,
{
    if lo < mid {
        lemma_run_count(votes, lo, mid - 1, hi, p);
        assert(votes.subrange(lo, mid) =~= votes.subrange(lo, mid - 1).push(votes[mid - 1]));
        lemma_sum_push(votes.subrange(lo, mid - 1), votes[mid - 1], p, |v: Vote| 1nat);
        assert(p(votes[mid - 1]));
    } else {
        assert(votes.subrange(lo, mid) =~= Seq::<Vote>::empty());
    }
}

/// Verification of one winning cell: the dominant offset and what the votes
/// near it say.
fn verify_cell(votes: &Vec<Vote>, row: &Row, tol: i64, catalog: u64) -> (o: MatchOutcome)
    requires
        ordered(votes@),
        tol >= 0,
        row_ok(votes@, tol as int, *row),
    ensures
        describes(votes@, tol as int, catalog as nat, o, votes[row.lo as int].exact),
        o.recording.0 == row.rec,
        o.weighted_score == row.weight,
{
    let place: usize = dominant_offset(votes, row.lo, row.hi, tol);
    let offset: i64 = votes[place].exact;
    let ghost cell = in_cell(row.rec, votes[row.lo as int].exact, tol as int);
    let ghost near = near_offset(row.rec, offset, tol as int);
    assert(cell(votes[place as int]));
    let (lo, hi) = near_votes(votes, place, tol);
    let inlier_score: u128 = weigh(votes, lo, hi, Ghost(near));
    let query_span_frames: u32 = anchor_span(votes, lo, hi, Ghost(near));
    let unique_aligned: usize = count_hashes(votes, lo, hi, Ghost(near));
    proof {
        lemma_run_count(votes@, lo as int, hi as int, hi as int, near);
        lemma_sum_range(votes@, lo as int, hi as int, near, |v: Vote| 1nat);
    }
    MatchOutcome {
        recording: RecordingId::new(row.rec),
        weighted_score: row.weight,
        inliers: hi - lo,
        inlier_score,
        offset_frames: offset,
        next_score: 0,
        query_span_frames,
        unique_aligned,
        catalog_recordings: catalog,
    }
}

/// What the votes say does not depend on their order.
proof fn lemma_describes_permuted(
    a: Seq<Vote>,
    b: Seq<Vote>,
    tolerance: int,
    catalog: nat,
    o: MatchOutcome,
    start: i64,
)
    requires
        permuted(a, b),
        describes(a, tolerance, catalog, o, start),
    ensures
        describes(b, tolerance, catalog, o, start),
{
    lemma_permuted_contains(a, b);
    let rec = o.recording.0;
    let near = near_offset(rec, o.offset_frames, tolerance);
    let cell = in_cell(rec, start, tolerance);
    lemma_best_cell_permuted(a, b, rec, tolerance, start);
    lemma_sum_permuted(a, b, cell, vote_weight());
    lemma_sum_permuted(a, b, near, vote_weight());
    lemma_sum_permuted(a, b, near, |v: Vote| 1nat);
    lemma_hashes_permuted(a, b, near);
    assert(is_dominant(b, rec, tolerance, start, o.offset_frames)) by {
        let w = choose|v: Vote| #[trigger]
            a.contains(v) && cell(v) && v.exact == o.offset_frames;
        assert(b.contains(w));
        assert forall|v: Vote| #[trigger] b.contains(v) && cell(v) implies {
            let other = mass(b, at_offset(rec, v.exact));
            let best = mass(b, at_offset(rec, o.offset_frames));
            other < best || (other == best && o.offset_frames <= v.exact)
        } by {
            assert(a.contains(v));
            lemma_sum_permuted(a, b, at_offset(rec, v.exact), vote_weight());
            lemma_sum_permuted(a, b, at_offset(rec, o.offset_frames), vote_weight());
        }
    }
    assert(is_span(b, near, o.query_span_frames as int)) by {
        let (x, y) = choose|x: Vote, y: Vote| #[trigger]
            a.contains(x) && #[trigger] a.contains(y) && near(x) && near(y) && y.q_anchor
                - x.q_anchor == o.query_span_frames as int;
        assert(b.contains(x) && b.contains(y));
        assert forall|x: Vote, y: Vote| #[trigger]
            b.contains(x) && #[trigger] b.contains(y) && near(x) && near(y) implies y.q_anchor
            - x.q_anchor <= o.query_span_frames by {
            assert(a.contains(x) && a.contains(y));
        }
    }
}

proof fn lemma_hashes_permuted(a: Seq<Vote>, b: Seq<Vote>, p: spec_fn(Vote) -> bool)
    requires
        permuted(a, b),
    ensures
        hashes_where(a, p) == hashes_where(b, p),
{
    lemma_permuted_contains(a, b);
    assert forall|h: u32| hashes_where(a, p).contains(h) <==> hashes_where(b, p).contains(h) by {
        if hashes_where(a, p).contains(h) {
            let v = choose|v: Vote| #[trigger] a.contains(v) && p(v) && v.hash == h;
            assert(b.contains(v));
        }
        if hashes_where(b, p).contains(h) {
            let v = choose|v: Vote| #[trigger] b.contains(v) && p(v) && v.hash == h;
            assert(a.contains(v));
        }
    }
    assert(hashes_where(a, p) =~= hashes_where(b, p));
}

proof fn lemma_best_cell_permuted(
    a: Seq<Vote>,
    b: Seq<Vote>,
    rec: u32,
    tolerance: int,
    start: i64,
)
    requires
        permuted(a, b),
        is_best_cell(a, rec, tolerance, start),
    ensures
        is_best_cell(b, rec, tolerance, start),
{
    lemma_permuted_contains(a, b);
    let w = choose|v: Vote| #[trigger] a.contains(v) && v.rec == rec && v.exact == start;
    assert(b.contains(w));
    assert forall|v: Vote| #[trigger] b.contains(v) && v.rec == rec implies {
        let other = mass(b, in_cell(rec, v.exact, tolerance));
        let best = mass(b, in_cell(rec, start, tolerance));
        other < best || (other == best && start <= v.exact)
    } by {
        assert(a.contains(v));
        lemma_sum_permuted(a, b, in_cell(rec, v.exact, tolerance), vote_weight());
        lemma_sum_permuted(a, b, in_cell(rec, start, tolerance), vote_weight());
    }
}

/// A recording has one winning cell.
proof fn lemma_best_cell_unique(votes: Seq<Vote>, rec: u32, tolerance: int, a: i64, b: i64)
    requires
        is_best_cell(votes, rec, tolerance, a),
        is_best_cell(votes, rec, tolerance, b),
    ensures
        a == b,
{
    let va = choose|v: Vote| #[trigger] votes.contains(v) && v.rec == rec && v.exact == a;
    let vb = choose|v: Vote| #[trigger] votes.contains(v) && v.rec == rec && v.exact == b;
    assert(votes.contains(va) && votes.contains(vb));
}

impl InMemoryIndex {
    /// Match a query fingerprint batch; returns up to `shortlist_len`
    /// candidates sorted by score (best first, ties broken by ascending
    /// recording id). Empty when the catalog has never heard any of the
    /// query's hashes.
    pub fn query(&self, query: &[QueryFp], params: &MatchParams, rarity: &RarityTable) -> (out: Vec<
        MatchOutcome,
    >)
        requires
            self.wf(),
            self.is_finalized(),
        ensures
            is_shortlist(
                query_votes(self@, query@, *params, *rarity),
                params.tolerance(),
                self.recording_count(),
                params.shortlist_len as nat,
                out@,
            ),
    {
        let tol: i64 = if params.offset_tolerance_frames < 0 {
            0
        } else {
            params.offset_tolerance_frames
        };
        let cast: Vec<Vote> = self.collect_votes(query, params, rarity);
        let votes: Vec<Vote> = sorted(cast.as_slice());
        let cells: Vec<Row> = best_cells(&votes, tol);
        let rows: Vec<Row> = sorted(cells.as_slice());
        let keep: usize = if rows.len() <= params.shortlist_len {
            rows.len()
        } else {
            params.shortlist_len
        };
        proof {
            lemma_permuted_contains(rows@, cells@);
            lemma_permuted_contains(votes@, cast@);
            assert forall|i: int| 0 <= i < rows.len() implies row_ok(
                votes@,
                tol as int,
                #[trigger] rows[i],
            ) by {
                assert(rows@.contains(rows[i]));
                let j = cells@.index_of(rows[i]);
                assert(row_ok(votes@, tol as int, cells[j]));
            }
            lemma_rows_distinct(cells@, rows@);
        }
        let mut out: Vec<MatchOutcome> = Vec::new();
        let mut i: usize = 0;
        while i < keep
            invariant
                i <= keep <= rows.len(),
                tol == params.tolerance(),
                ordered(votes@),
                permuted(votes@, cast@),
                forall|k: int| 0 <= k < rows.len() ==> row_ok(votes@, tol as int, #[trigger] rows[k]),
                out.len() == i,
                forall|k: int|
                    #![trigger out[k]]
                    0 <= k < i ==> {
                        &&& is_described(cast@, tol as int, self.recording_count(), out[k])
                        &&& out[k].recording.0 == rows[k].rec
                        &&& out[k].weighted_score == rows[k].weight
                        &&& out[k].next_score == if k + 1 < keep {
                            rows[k + 1].weight as int
                        } else {
                            0
                        }
                    },
            decreases keep - i,
        {
            let mut o: MatchOutcome = verify_cell(&votes, &rows[i], tol, self.n_recordings);
            o.next_score =
            if i + 1 < keep {
                rows[i + 1].weight
            } else {
                0
            };
            proof {
                let b = votes[rows[i as int].lo as int].exact;
                assert(describes(votes@, tol as int, self.recording_count(), o, b));
                lemma_describes_permuted(votes@, cast@, tol as int, self.recording_count(), o, b);
            }
            out.push(o);
            i = i + 1;
        }
        proof {
            reveal(is_shortlist);
            assert forall|a: int, b: int|
                #![trigger out[a], out[b]]
                0 <= a < b < out.len() implies outranks(
                out[a].weighted_score as nat,
                out[a].recording.0,
                out[b].weighted_score as nat,
                out[b].recording.0,
            ) by {
                assert(Row::leq(rows[a], rows[b]));
                assert(rows[a].rec != rows[b].rec);
            }
            assert forall|v: Vote| #[trigger] cast@.contains(v) && !listed(
                out@,
                v.rec,
            ) implies out.len() == params.shortlist_len && forall|i: int, b: i64|
                #![trigger out[i], is_best_cell(cast@, v.rec, params.tolerance(), b)]
                0 <= i < out.len() && is_best_cell(cast@, v.rec, params.tolerance(), b) ==> outranks(
                    out[i].weighted_score as nat,
                    out[i].recording.0,
                    mass(cast@, in_cell(v.rec, b, params.tolerance())),
                    v.rec,
                ) by {
                assert(votes@.contains(v));
                let vi = votes@.index_of(v);
                assert(has_row(cells@, votes[vi].rec));
                let ci = choose|ci: int|
                    0 <= ci < cells.len() && (#[trigger] cells[ci]).rec == v.rec;
                assert(cells@.contains(cells[ci]));
                let ri = rows@.index_of(cells[ci]);
                assert(rows[ri].rec == v.rec);
                assert(ri >= keep) by {
                    if ri < keep {
                        assert(out[ri].recording.0 == v.rec);
                    }
                }
                assert forall|i: int, b: i64|
                    #![trigger out[i], is_best_cell(cast@, v.rec, params.tolerance(), b)]
                    0 <= i < out.len() && is_best_cell(cast@, v.rec, params.tolerance(), b) implies outranks(
                    out[i].weighted_score as nat,
                    out[i].recording.0,
                    mass(cast@, in_cell(v.rec, b, params.tolerance())),
                    v.rec,
                ) by {
                    let rb = votes[rows[ri].lo as int].exact;
                    lemma_best_cell_permuted(votes@, cast@, v.rec, tol as int, rb);
                    lemma_best_cell_unique(cast@, v.rec, tol as int, b, rb);
                    lemma_sum_permuted(
                        votes@,
                        cast@,
                        in_cell(v.rec, rb, tol as int),
                        vote_weight(),
                    );
                    assert(Row::leq(rows[i], rows[ri]));
                    assert(rows[i].rec != rows[ri].rec);
                }
            }
        }
        out
    }
}

/// Sorting rows of distinct recordings keeps the recordings distinct.
proof fn lemma_rows_distinct(cells: Seq<Row>, rows: Seq<Row>)
    requires
        permuted(rows, cells),
        forall|i: int, j: int|
            #![trigger cells[i], cells[j]]
            0 <= i < j < cells.len() ==> cells[i].rec < cells[j].rec,
    ensures
        forall|i: int, j: int|
            #![trigger rows[i], rows[j]]
            0 <= i < j < rows.len() ==> rows[i].rec != rows[j].rec,
{
    assert(cells.no_duplicates());
    cells.lemma_multiset_has_no_duplicates();
    rows.lemma_multiset_has_no_duplicates_conv();
    lemma_permuted_contains(rows, cells);
    assert forall|i: int, j: int|
        #![trigger rows[i], rows[j]]
        0 <= i < j < rows.len() implies rows[i].rec != rows[j].rec by {
        assert(rows.contains(rows[i]) && rows.contains(rows[j]));
        let a = cells.index_of(rows[i]);
        let b = cells.index_of(rows[j]);
        assert(cells[a] == rows[i] && cells[b] == rows[j]);
        assert(rows[i] != rows[j]);
    }
}

/// A cell has one dominant offset.
proof fn lemma_dominant_unique(
    votes: Seq<Vote>,
    rec: u32,
    tolerance: int,
    start: i64,
    a: i64,
    b: i64,
)
    requires
        is_dominant(votes, rec, tolerance, start, a),
        is_dominant(votes, rec, tolerance, start, b),
    ensures
        a == b,
{
    let cell = in_cell(rec, start, tolerance);
    let va = choose|v: Vote| #[trigger] votes.contains(v) && cell(v) && v.exact == a;
    let vb = choose|v: Vote| #[trigger] votes.contains(v) && cell(v) && v.exact == b;
    assert(votes.contains(va) && votes.contains(vb));
}

/// Two descriptions of one recording agree in everything but the competitor.
proof fn lemma_described_unique(
    votes: Seq<Vote>,
    tolerance: int,
    catalog: nat,
    a: MatchOutcome,
    b: MatchOutcome,
)
    requires
        is_described(votes, tolerance, catalog, a),
        is_described(votes, tolerance, catalog, b),
        a.recording == b.recording,
    ensures
        a == (MatchOutcome { next_score: a.next_score, ..b }),
{
    let rec = a.recording.0;
    let ba = choose|start: i64| #[trigger] describes(votes, tolerance, catalog, a, start);
    let bb = choose|start: i64| #[trigger] describes(votes, tolerance, catalog, b, start);
    lemma_best_cell_unique(votes, rec, tolerance, ba, bb);
    lemma_dominant_unique(votes, rec, tolerance, ba, a.offset_frames, b.offset_frames);
    let near = near_offset(rec, a.offset_frames, tolerance);
    let (a1, a2) = choose|x: Vote, y: Vote| #[trigger]
        votes.contains(x) && #[trigger] votes.contains(y) && near(x) && near(y) && y.q_anchor
            - x.q_anchor == a.query_span_frames as int;
    let (b1, b2) = choose|x: Vote, y: Vote| #[trigger]
        votes.contains(x) && #[trigger] votes.contains(y) && near(x) && near(y) && y.q_anchor
            - x.q_anchor == b.query_span_frames as int;
    assert(votes.contains(a1) && votes.contains(a2) && votes.contains(b1) && votes.contains(b2));
    assert(a.query_span_frames == b.query_span_frames);
}

/// A described recording received a vote.
proof fn lemma_described_has_vote(
    votes: Seq<Vote>,
    tolerance: int,
    catalog: nat,
    o: MatchOutcome,
) -> (v: Vote)
    requires
        is_described(votes, tolerance, catalog, o),
    ensures
        votes.contains(v),
        v.rec == o.recording.0,
        is_best_cell(votes, v.rec, tolerance, v.exact),
        o.weighted_score == mass(votes, in_cell(v.rec, v.exact, tolerance)),
{
    let b = choose|start: i64| #[trigger] describes(votes, tolerance, catalog, o, start);
    choose|v: Vote| #[trigger] votes.contains(v) && v.rec == o.recording.0 && v.exact == b
}

/// One step of [`law_query_is_deterministic`]: where two shortlists agree on
/// the first `i` recordings and the first is longer, they agree on the next
/// one.
proof fn lemma_next_rank_agrees(
    votes: Seq<Vote>,
    tolerance: int,
    catalog: nat,
    limit: nat,
    a: Seq<MatchOutcome>,
    b: Seq<MatchOutcome>,
    i: int,
)
    requires
        is_shortlist(votes, tolerance, catalog, limit, a),
        is_shortlist(votes, tolerance, catalog, limit, b),
        0 <= i < a.len(),
        i <= b.len(),
        a.len() <= limit,
        forall|k: int|
            #![trigger a[k]]
            #![trigger b[k]]
            0 <= k < i ==> a[k].recording == b[k].recording,
    ensures
        i < b.len(),
        !outranks(
            a[i].weighted_score as nat,
            a[i].recording.0,
            b[i].weighted_score as nat,
            b[i].recording.0,
        ) || a[i].recording == b[i].recording,
{
    assert(is_described(votes, tolerance, catalog, a[i])) by {
        reveal(is_shortlist);
    }
    let v = lemma_described_has_vote(votes, tolerance, catalog, a[i]);
    if listed(b, v.rec) {
        let j = choose|j: int| 0 <= j < b.len() && (#[trigger] b[j]).recording.0 == v.rec;
        lemma_listed_place(votes, tolerance, catalog, limit, a, b, i, j);
    } else {
        lemma_unlisted_loses(votes, tolerance, catalog, limit, b, v, i);
    }
}

/// Where `b` lists the recording that `a` ranks at `i`, it does so from place
/// `i` on.
proof fn lemma_listed_place(
    votes: Seq<Vote>,
    tolerance: int,
    catalog: nat,
    limit: nat,
    a: Seq<MatchOutcome>,
    b: Seq<MatchOutcome>,
    i: int,
    j: int,
)
    requires
        is_shortlist(votes, tolerance, catalog, limit, a),
        is_shortlist(votes, tolerance, catalog, limit, b),
        0 <= i < a.len(),
        0 <= j < b.len(),
        b[j].recording == a[i].recording,
        forall|k: int|
            #![trigger a[k]]
            #![trigger b[k]]
            0 <= k < i ==> a[k].recording == b[k].recording,
    ensures
        i <= j,
        i < j ==> !outranks(
            a[i].weighted_score as nat,
            a[i].recording.0,
            b[i].weighted_score as nat,
            b[i].recording.0,
        ),
{
    reveal(is_shortlist);
    assert(is_described(votes, tolerance, catalog, a[i]));
    if j < i {
        assert(a[j].recording == b[j].recording);
        assert(is_described(votes, tolerance, catalog, a[j]));
        lemma_described_unique(votes, tolerance, catalog, a[j], a[i]);
        assert(outranks(
            a[j].weighted_score as nat,
            a[j].recording.0,
            a[i].weighted_score as nat,
            a[i].recording.0,
        ));
    } else if i < j {
        assert(is_described(votes, tolerance, catalog, b[j]));
        lemma_described_unique(votes, tolerance, catalog, b[j], a[i]);
        assert(outranks(
            b[i].weighted_score as nat,
            b[i].recording.0,
            b[j].weighted_score as nat,
            b[j].recording.0,
        ));
    }
}

/// A recording that a shortlist leaves out is outranked by all that it lists,
/// and the shortlist is full.
proof fn lemma_unlisted_loses(
    votes: Seq<Vote>,
    tolerance: int,
    catalog: nat,
    limit: nat,
    b: Seq<MatchOutcome>,
    v: Vote,
    i: int,
)
    requires
        is_shortlist(votes, tolerance, catalog, limit, b),
        votes.contains(v),
        is_best_cell(votes, v.rec, tolerance, v.exact),
        !listed(b, v.rec),
    ensures
        b.len() == limit,
        0 <= i < b.len() ==> outranks(
            b[i].weighted_score as nat,
            b[i].recording.0,
            mass(votes, in_cell(v.rec, v.exact, tolerance)),
            v.rec,
        ),
{
    reveal(is_shortlist);
    if 0 <= i < b.len() {
        let o = b[i];
        assert(outranks(
            b[i].weighted_score as nat,
            b[i].recording.0,
            mass(votes, in_cell(v.rec, v.exact, tolerance)),
            v.rec,
        ));
    }
}

/// The result of a query is determined by the contents of the index, the
/// query and its parameters: the same index answers the same query the same
/// way, however it was built.
pub proof fn law_query_is_deterministic(
    votes: Seq<Vote>,
    tolerance: int,
    catalog: nat,
    limit: nat,
    a: Seq<MatchOutcome>,
    b: Seq<MatchOutcome>,
)
    requires
        is_shortlist(votes, tolerance, catalog, limit, a),
        is_shortlist(votes, tolerance, catalog, limit, b),
    ensures
        a == b,
{
    lemma_ranks_agree(votes, tolerance, catalog, limit, a, b, a.len() as int);
    lemma_ranks_agree(votes, tolerance, catalog, limit, b, a, b.len() as int);
    assert(a.len() == b.len());
    reveal(is_shortlist);
    assert forall|i: int| 0 <= i < a.len() implies a[i] == b[i] by {
        assert(a[i].recording == b[i].recording);
        assert(is_described(votes, tolerance, catalog, a[i]));
        assert(is_described(votes, tolerance, catalog, b[i]));
        lemma_described_unique(votes, tolerance, catalog, a[i], b[i]);
        assert(names_competitor(a, i) && names_competitor(b, i));
        if i + 1 < a.len() {
            assert(a[i + 1].recording == b[i + 1].recording);
            assert(is_described(votes, tolerance, catalog, a[i + 1]));
            assert(is_described(votes, tolerance, catalog, b[i + 1]));
            lemma_described_unique(votes, tolerance, catalog, a[i + 1], b[i + 1]);
        }
    }
    assert(a =~= b);
}

proof fn lemma_ranks_agree(
    votes: Seq<Vote>,
    tolerance: int,
    catalog: nat,
    limit: nat,
    a: Seq<MatchOutcome>,
    b: Seq<MatchOutcome>,
    n: int,
)
    requires
        is_shortlist(votes, tolerance, catalog, limit, a),
        is_shortlist(votes, tolerance, catalog, limit, b),
        0 <= n <= a.len(),
    ensures
        n <= b.len(),
        forall|k: int|
            #![trigger a[k]]
            #![trigger b[k]]
            0 <= k < n ==> a[k].recording == b[k].recording,
    decreases n,
{
    if n > 0 {
        let i = n - 1;
        lemma_ranks_agree(votes, tolerance, catalog, limit, a, b, i);
        lemma_rank_agrees(votes, tolerance, catalog, limit, a, b, i);
    }
}

/// Where two shortlists agree on the first `i` recordings, they agree on the
/// next one.
proof fn lemma_rank_agrees(
    votes: Seq<Vote>,
    tolerance: int,
    catalog: nat,
    limit: nat,
    a: Seq<MatchOutcome>,
    b: Seq<MatchOutcome>,
    i: int,
)
    requires
        is_shortlist(votes, tolerance, catalog, limit, a),
        is_shortlist(votes, tolerance, catalog, limit, b),
        0 <= i < a.len(),
        i <= b.len(),
        forall|k: int|
            #![trigger a[k]]
            #![trigger b[k]]
            0 <= k < i ==> a[k].recording == b[k].recording,
    ensures
        i < b.len(),
        a[i].recording == b[i].recording,
{
    assert(a.len() <= limit && b.len() <= limit) by {
        reveal(is_shortlist);
    }
    lemma_next_rank_agrees(votes, tolerance, catalog, limit, a, b, i);
    lemma_next_rank_agrees(votes, tolerance, catalog, limit, b, a, i);
}

/// The query with every later repeat of a hash dropped.
pub open spec fn firsts(query: Seq<QueryFp>) -> Seq<QueryFp>
    decreases query.len(),
{
    if query.len() == 0 {
        Seq::empty()
    } else {
        let rest = firsts(query.drop_last());
        if repeats(query, query.len() - 1) {
            rest
        } else {
            rest.push(query.last())
        }
    }
}

/// Repeated query hashes add nothing: a query votes as it does with every
/// later repeat of a hash dropped.
pub proof fn law_repeated_hashes_vote_once(
    index: Map<u32, Seq<Posting>>,
    query: Seq<QueryFp>,
    params: MatchParams,
    rarity: RarityTable,
)
    ensures
        query_votes(index, firsts(query), params, rarity) == query_votes(
            index,
            query,
            params,
            rarity,
        ),
    decreases query.len(),
{
    if query.len() > 0 {
        let rest = query.drop_last();
        let q = query.last();
        law_repeated_hashes_vote_once(index, rest, params, rarity);
        if !repeats(query, query.len() - 1) {
            let kept = firsts(rest);
            let all = firsts(query);
            assert(all.drop_last() =~= kept);
            if repeats(all, all.len() - 1) {
                let j = choose|j: int|
                    0 <= j < all.len() - 1 && (#[trigger] all[j]).hash == all[all.len() - 1].hash;
                assert(kept[j] == all[j]);
                let i = lemma_firsts_occur(rest, j);
                assert(query[i].hash == query[query.len() - 1].hash);
            }
        }
    }
}

/// What is kept of a query occurs in it.
proof fn lemma_firsts_occur(query: Seq<QueryFp>, j: int) -> (i: int)
    requires
        0 <= j < firsts(query).len(),
    ensures
        0 <= i < query.len(),
        query[i] == firsts(query)[j],
    decreases query.len(),
{
    let rest = query.drop_last();
    if j < firsts(rest).len() {
        lemma_firsts_occur(rest, j)
    } else {
        query.len() - 1
    }
}

/// A query none of whose hashes the index knows gets no votes and no
/// candidates.
pub proof fn law_unknown_query_is_empty(
    index: Map<u32, Seq<Posting>>,
    query: Seq<QueryFp>,
    params: MatchParams,
    rarity: RarityTable,
    catalog: nat,
    out: Seq<MatchOutcome>,
)
    requires
        forall|i: int| 0 <= i < query.len() ==> !index.contains_key((#[trigger] query[i]).hash),
        is_shortlist(
            query_votes(index, query, params, rarity),
            params.tolerance(),
            catalog,
            params.shortlist_len as nat,
            out,
        ),
    ensures
        out.len() == 0,
{
    reveal(is_shortlist);
    lemma_unknown_no_votes(index, query, params, rarity);
    if out.len() > 0 {
        let votes = query_votes(index, query, params, rarity);
        assert(is_described(votes, params.tolerance(), catalog, out[0]));
        let v = lemma_described_has_vote(votes, params.tolerance(), catalog, out[0]);
    }
}

proof fn lemma_unknown_no_votes(
    index: Map<u32, Seq<Posting>>,
    query: Seq<QueryFp>,
    params: MatchParams,
    rarity: RarityTable,
)
    requires
        forall|i: int| 0 <= i < query.len() ==> !index.contains_key((#[trigger] query[i]).hash),
    ensures
        query_votes(index, query, params, rarity).len() == 0,
    decreases query.len(),
{
    if query.len() > 0 {
        assert(!index.contains_key(query[query.len() - 1].hash));
        assert forall|i: int| 0 <= i < query.drop_last().len() implies !index.contains_key(
            (#[trigger] query.drop_last()[i]).hash,
        ) by {
            assert(query.drop_last()[i] == query[i]);
        }
        lemma_unknown_no_votes(index, query.drop_last(), params, rarity);
    }
}

/// The inlier mass of a candidate never exceeds its score, so the offset
/// concentration is at most one; and a candidate has at least one inlier.
pub proof fn law_concentration_is_a_share(
    votes: Seq<Vote>,
    tolerance: int,
    catalog: nat,
    o: MatchOutcome,
)
    requires
        tolerance >= 0,
        is_described(votes, tolerance, catalog, o),
    ensures
        o.inlier_score <= o.weighted_score,
        o.inliers >= 1,
{
    let start = choose|start: i64| #[trigger] describes(votes, tolerance, catalog, o, start);
    let rec = o.recording.0;
    let near = near_offset(rec, o.offset_frames, tolerance);
    let cell = in_cell(rec, start, tolerance);
    let d = choose|v: Vote| #[trigger]
        votes.contains(v) && cell(v) && v.exact == o.offset_frames;
    let f = lemma_earliest(votes, near, d);
    let window = in_cell(rec, f.exact, tolerance);
    assert forall|i: int| 0 <= i < votes.len() && near(#[trigger] votes[i]) implies window(
        votes[i],
    ) by {
        assert(votes.contains(votes[i]));
    }
    crate::sort::lemma_sum_monotone(votes, near, window, vote_weight());
    let i = votes.index_of(d);
    let one = |v: Vote| 1nat;
    let (l, r) = (votes.subrange(0, i + 1), votes.subrange(i + 1, votes.len() as int));
    assert(votes =~= l + r);
    crate::sort::lemma_sum_concat(l, r, near, one);
    assert(l.last() == d);
}

/// The mean rarity of a candidate lies between the weights of the votes
/// behind it: where all of them are ubiquitous it is at the floor, whatever
/// their number.
pub proof fn law_mean_rarity_is_a_mean(
    votes: Seq<Vote>,
    tolerance: int,
    catalog: nat,
    o: MatchOutcome,
    least: nat,
    most: nat,
)
    requires
        tolerance >= 0,
        catalog > 1,
        is_described(votes, tolerance, catalog, o),
        forall|v: Vote| #[trigger]
            votes.contains(v) && near_offset(o.recording.0, o.offset_frames, tolerance)(v)
                ==> least <= v.weight <= most,
    ensures
        least <= o.mean_rarity() <= most,
{
    law_concentration_is_a_share(votes, tolerance, catalog, o);
    let near = near_offset(o.recording.0, o.offset_frames, tolerance);
    lemma_mass_between(votes, near, least, most);
    let (n, w) = (o.inliers as int, o.inlier_score as int);
    assert(least <= w / n <= most) by (nonlinear_arith)
        requires
            n > 0,
            least * n <= w <= most * n,
            least >= 0,
    ;
}

/// Bounds on the weights bound the mass.
proof fn lemma_mass_between(votes: Seq<Vote>, p: spec_fn(Vote) -> bool, least: nat, most: nat)
    requires
        forall|v: Vote| #[trigger] votes.contains(v) && p(v) ==> least <= v.weight <= most,
    ensures
        least * count_where(votes, p) <= mass(votes, p) <= most * count_where(votes, p),
    decreases votes.len(),
{
    if votes.len() > 0 {
        let rest = votes.drop_last();
        assert forall|v: Vote| #[trigger] rest.contains(v) && p(v) implies least <= v.weight
            <= most by {
            let i = rest.index_of(v);
            assert(votes[i] == v);
            assert(votes.contains(v));
        }
        lemma_mass_between(rest, p, least, most);
        assert(votes.contains(votes.last()));
        let n = count_where(rest, p);
        assert(least * (n + 1) == least * n + least && most * (n + 1) == most * n + most)
            by (nonlinear_arith);
        assert(count_where(votes, p) == if p(votes.last()) {
            n + 1
        } else {
            n
        });
    } else {
        assert(least * 0 == 0 && most * 0 == 0) by (nonlinear_arith);
        assert(count_where(votes, p) == 0);
    }
}

/// Of the votes that satisfy `p`, one with the smallest offset.
proof fn lemma_earliest(votes: Seq<Vote>, p: spec_fn(Vote) -> bool, d: Vote) -> (f: Vote)
    requires
        votes.contains(d),
        p(d),
    ensures
        votes.contains(f),
        p(f),
        forall|v: Vote| #[trigger] votes.contains(v) && p(v) ==> f.exact <= v.exact,
    decreases d.exact - i64::MIN,
{
    if exists|v: Vote| #[trigger] votes.contains(v) && p(v) && v.exact < d.exact {
        let v = choose|v: Vote| #[trigger] votes.contains(v) && p(v) && v.exact < d.exact;
        lemma_earliest(votes, p, v)
    } else {
        d
    }
}

/// Votes for a recording that lie within the tolerance of each other share a
/// cell, whatever their offsets: the one that starts at the earlier.
pub proof fn law_close_votes_share_a_cell(a: Vote, b: Vote, tolerance: int)
    requires
        a.rec == b.rec,
        a.exact <= b.exact <= a.exact + tolerance,
    ensures
        in_cell(a.rec, a.exact, tolerance)(a),
        in_cell(a.rec, a.exact, tolerance)(b),
{
}

// ---- what a query finds, in terms of postings ----

/// Fingerprint `j` of the query takes part: it is the first with its hash, the
/// index knows the hash, and not too many recordings have it.
pub open spec fn takes_part(
    index: Map<u32, Seq<Posting>>,
    query: Seq<QueryFp>,
    params: MatchParams,
    j: int,
) -> bool {
    &&& 0 <= j < query.len()
    &&& forall|e: int| 0 <= e < j ==> (#[trigger] query[e]).hash != query[j].hash
    &&& index.contains_key(query[j].hash)
    &&& index[query[j].hash].map_values(|p: Posting| p.recording.0).to_set().len()
        <= params.stop_hash_df_threshold
}

/// Fingerprint `j` takes part and meets posting `k` of its hash.
pub open spec fn meets(
    index: Map<u32, Seq<Posting>>,
    query: Seq<QueryFp>,
    params: MatchParams,
    j: int,
    k: int,
) -> bool {
    takes_part(index, query, params, j) && 0 <= k < index[query[j].hash].len()
}

/// How far posting `k` of the hash of fingerprint `j` lies behind it.
pub open spec fn lag(
    index: Map<u32, Seq<Posting>>,
    query: Seq<QueryFp>,
    j: int,
    k: int,
) -> int {
    index[query[j].hash][k].anchor_time - query[j].anchor_time
}

/// Fingerprint `j` meets posting `k`, which belongs to the recording and lies
/// `lo..=hi` frames behind it.
pub open spec fn meets_within(
    index: Map<u32, Seq<Posting>>,
    query: Seq<QueryFp>,
    params: MatchParams,
    rec: u32,
    lo: int,
    hi: int,
    j: int,
    k: int,
) -> bool {
    &&& meets(index, query, params, j, k)
    &&& index[query[j].hash][k].recording.0 == rec
    &&& lo <= lag(index, query, j, k) <= hi
}

/// The postings of a recording that the first `n` fingerprints meet at lags
/// `lo..=hi`.
pub open spec fn meetings(
    index: Map<u32, Seq<Posting>>,
    query: Seq<QueryFp>,
    params: MatchParams,
    rec: u32,
    lo: int,
    hi: int,
    n: int,
) -> nat
    decreases n,
{
    if n <= 0 {
        0
    } else {
        meetings(index, query, params, rec, lo, hi, n - 1) + if takes_part(
            index,
            query,
            params,
            n - 1,
        ) {
            index[query[n - 1].hash].filter(
                |p: Posting|
                    p.recording.0 == rec && lo <= p.anchor_time - query[n - 1].anchor_time <= hi,
            ).len()
        } else {
            0
        }
    }
}

/// The same, each meeting counted with the weight of its hash: the table's
/// entry for the number of recordings that have the hash, and at least a
/// thousandth.
pub open spec fn meeting_mass(
    index: Map<u32, Seq<Posting>>,
    query: Seq<QueryFp>,
    params: MatchParams,
    rarity: RarityTable,
    rec: u32,
    lo: int,
    hi: int,
    n: int,
) -> nat
    decreases n,
{
    if n <= 0 {
        0
    } else {
        let list = index[query[n - 1].hash];
        let df = list.map_values(|p: Posting| p.recording.0).to_set().len() as int;
        let weight = if df < rarity.weights@.len() && rarity.weights@[df] > 1000 {
            rarity.weights@[df] as nat
        } else {
            1000
        };
        meeting_mass(index, query, params, rarity, rec, lo, hi, n - 1) + if takes_part(
            index,
            query,
            params,
            n - 1,
        ) {
            weight * list.filter(
                |p: Posting|
                    p.recording.0 == rec && lo <= p.anchor_time - query[n - 1].anchor_time <= hi,
            ).len()
        } else {
            0
        }
    }
}

/// Of the votes of one fingerprint, those that a test on postings picks.
proof fn lemma_list_sum(
    list: Seq<Posting>,
    g: spec_fn(Posting) -> Vote,
    p: spec_fn(Vote) -> bool,
    f: spec_fn(Vote) -> nat,
    test: spec_fn(Posting) -> bool,
    c: nat,
)
    requires
        forall|x: Posting| #[trigger] p(g(x)) == test(x),
        forall|x: Posting| #[trigger] f(g(x)) == c,
    ensures
        sum_where(list.map_values(g), p, f) == c * list.filter(test).len(),
    decreases list.len(),
{
    reveal(Seq::filter);
    if list.len() > 0 {
        let rest = list.drop_last();
        lemma_list_sum(rest, g, p, f, test, c);
        assert(list.map_values(g).drop_last() =~= rest.map_values(g));
        assert(list.map_values(g).last() == g(list.last()));
        let m = rest.filter(test).len();
        assert(c * (m + 1) == c * m + c) by (nonlinear_arith);
    } else {
        assert(c * 0 == 0) by (nonlinear_arith);
    }
}

/// A fingerprint votes where it takes part.
proof fn lemma_takes_part(
    index: Map<u32, Seq<Posting>>,
    query: Seq<QueryFp>,
    params: MatchParams,
    rarity: RarityTable,
    n: int,
)
    requires
        0 < n <= query.len(),
    ensures
        query_votes(index, query.take(n), params, rarity) == if takes_part(
            index,
            query,
            params,
            n - 1,
        ) {
            query_votes(index, query.take(n - 1), params, rarity) + fingerprint_votes(
                index[query[n - 1].hash],
                query[n - 1],
                rarity,
            )
        } else {
            query_votes(index, query.take(n - 1), params, rarity)
        },
{
    let q = query.take(n);
    assert(q.drop_last() =~= query.take(n - 1));
    assert(q.last() == query[n - 1]);
    if repeats(q, n - 1) {
        let e = choose|e: int| 0 <= e < n - 1 && (#[trigger] q[e]).hash == q[n - 1].hash;
        assert(query[e].hash == query[n - 1].hash);
    } else {
        assert forall|e: int| 0 <= e < n - 1 implies (#[trigger] query[e]).hash != query[n
            - 1].hash by {
            assert(q[e] == query[e]);
        }
    }
}

/// Votes in a window of offsets are meetings at those lags.
proof fn lemma_votes_are_meetings(
    index: Map<u32, Seq<Posting>>,
    query: Seq<QueryFp>,
    params: MatchParams,
    rarity: RarityTable,
    p: spec_fn(Vote) -> bool,
    rec: u32,
    lo: int,
    hi: int,
    n: int,
)
    requires
        0 <= n <= query.len(),
        forall|v: Vote| #[trigger] p(v) == (v.rec == rec && lo <= v.exact <= hi),
    ensures
        count_where(query_votes(index, query.take(n), params, rarity), p) == meetings(
            index,
            query,
            params,
            rec,
            lo,
            hi,
            n,
        ),
        mass(query_votes(index, query.take(n), params, rarity), p) == meeting_mass(
            index,
            query,
            params,
            rarity,
            rec,
            lo,
            hi,
            n,
        ),
    decreases n,
{
    if n > 0 {
        lemma_votes_are_meetings(index, query, params, rarity, p, rec, lo, hi, n - 1);
        lemma_takes_part(index, query, params, rarity, n);
        if takes_part(index, query, params, n - 1) {
            let q = query[n - 1];
            let list = index[q.hash];
            let before = query_votes(index, query.take(n - 1), params, rarity);
            let w = rarity.weight_of(document_frequency(list));
            let g = |x: Posting| vote_of(q, x, w);
            let own = fingerprint_votes(list, q, rarity);
            let test = |x: Posting| x.recording.0 == rec && lo <= x.anchor_time - q.anchor_time
                <= hi;
            assert(own =~= list.map_values(g));
            let one = |v: Vote| 1nat;
            lemma_list_sum(list, g, p, one, test, 1);
            lemma_list_sum(list, g, p, vote_weight(), test, w as nat);
            crate::sort::lemma_sum_concat(before, own, p, one);
            crate::sort::lemma_sum_concat(before, own, p, vote_weight());
            let picked = list.filter(
                |x: Posting|
                    x.recording.0 == rec && lo <= x.anchor_time - query[n - 1].anchor_time <= hi,
            );
            assert(list.filter(test) == picked);
        }
    } else {
        assert(query.take(0) =~= Seq::<QueryFp>::empty());
    }
}

/// The vote of fingerprint `j` for posting `k`.
spec fn meeting_vote(
    index: Map<u32, Seq<Posting>>,
    query: Seq<QueryFp>,
    rarity: RarityTable,
    j: int,
    k: int,
) -> Vote {
    let list = index[query[j].hash];
    vote_of(query[j], list[k], rarity.weight_of(document_frequency(list)))
}

/// Every meeting casts a vote.
proof fn lemma_meeting_votes(
    index: Map<u32, Seq<Posting>>,
    query: Seq<QueryFp>,
    params: MatchParams,
    rarity: RarityTable,
    n: int,
    j: int,
    k: int,
)
    requires
        0 <= n <= query.len(),
        j < n,
        meets(index, query, params, j, k),
    ensures
        query_votes(index, query.take(n), params, rarity).contains(
            meeting_vote(index, query, rarity, j, k),
        ),
    decreases n,
{
    lemma_takes_part(index, query, params, rarity, n);
    let before = query_votes(index, query.take(n - 1), params, rarity);
    let all = query_votes(index, query.take(n), params, rarity);
    let v = meeting_vote(index, query, rarity, j, k);
    if j < n - 1 {
        lemma_meeting_votes(index, query, params, rarity, n - 1, j, k);
        let i = before.index_of(v);
        assert(all[i] == v);
    } else {
        assert(all[before.len() + k] == v);
    }
}

/// Every vote stems from a meeting.
proof fn lemma_vote_meets(
    index: Map<u32, Seq<Posting>>,
    query: Seq<QueryFp>,
    params: MatchParams,
    rarity: RarityTable,
    n: int,
    v: Vote,
) -> (jk: (int, int))
    requires
        0 <= n <= query.len(),
        query_votes(index, query.take(n), params, rarity).contains(v),
    ensures
        jk.0 < n,
        meets(index, query, params, jk.0, jk.1),
        v == meeting_vote(index, query, rarity, jk.0, jk.1),
    decreases n,
{
    let all = query_votes(index, query.take(n), params, rarity);
    let i = all.index_of(v);
    if n == 0 {
        assert(query.take(0) =~= Seq::<QueryFp>::empty());
        (0, 0)
    } else {
        lemma_takes_part(index, query, params, rarity, n);
        let before = query_votes(index, query.take(n - 1), params, rarity);
        if i < before.len() {
            assert(before[i] == v);
            assert(before.contains(v));
            lemma_vote_meets(index, query, params, rarity, n - 1, v)
        } else {
            (n - 1, i - before.len())
        }
    }
}

/// A posting that the query meets belongs to the candidate's recording and
/// lies at its offset.
pub open spec fn is_backed(
    index: Map<u32, Seq<Posting>>,
    query: Seq<QueryFp>,
    params: MatchParams,
    o: MatchOutcome,
) -> bool {
    exists|j: int, k: int| #[trigger]
        meets(index, query, params, j, k) && index[query[j].hash][k].recording == o.recording
            && lag(index, query, j, k) == o.offset_frames
}

/// Whoever is named shares hashes with the query: every candidate has a
/// posting in the index under a hash of the query, and the reported offset is
/// the lag of such a posting of that very recording. Candidates stand by
/// descending score, ties by ascending recording, and each carries the score
/// of the next.
pub proof fn law_candidates_share_hashes_with_the_query(
    index: Map<u32, Seq<Posting>>,
    query: Seq<QueryFp>,
    params: MatchParams,
    rarity: RarityTable,
    catalog: nat,
    out: Seq<MatchOutcome>,
)
    requires
        is_shortlist(
            query_votes(index, query, params, rarity),
            params.tolerance(),
            catalog,
            params.shortlist_len as nat,
            out,
        ),
    ensures
        out.len() <= params.shortlist_len,
        forall|i: int| 0 <= i < out.len() ==> is_backed(index, query, params, #[trigger] out[i]),
        forall|i: int, j: int|
            #![trigger out[i], out[j]]
            0 <= i < j < out.len() ==> out[i].weighted_score > out[j].weighted_score || (
            out[i].weighted_score == out[j].weighted_score && out[i].recording.0
                < out[j].recording.0),
        forall|i: int|
            #![trigger out[i]]
            0 <= i < out.len() ==> out[i].catalog_recordings == catalog && out[i].next_score == (
            if i + 1 < out.len() {
                out[i + 1].weighted_score as int
            } else {
                0int
            }),
{
    reveal(is_shortlist);
    let votes = query_votes(index, query, params, rarity);
    let n = query.len() as int;
    assert(query.take(n) =~= query);
    assert forall|i: int| 0 <= i < out.len() implies is_backed(
        index,
        query,
        params,
        #[trigger] out[i],
    ) by {
        let o = out[i];
        assert(is_described(votes, params.tolerance(), catalog, o));
        let start = choose|start: i64| #[trigger]
            describes(votes, params.tolerance(), catalog, o, start);
        let cell = in_cell(o.recording.0, start, params.tolerance());
        let v = choose|v: Vote| #[trigger]
            votes.contains(v) && cell(v) && v.exact == o.offset_frames;
        let (j, k) = lemma_vote_meets(index, query, params, rarity, n, v);
        assert(meets(index, query, params, j, k));
    }
    assert forall|i: int|
        #![trigger out[i]]
        0 <= i < out.len() implies out[i].catalog_recordings == catalog && out[i].next_score == (
    if i + 1 < out.len() {
        out[i + 1].weighted_score as int
    } else {
        0int
    }) by {
        assert(is_described(votes, params.tolerance(), catalog, out[i]));
        assert(names_competitor(out, i));
    }
}

/// The numbers of a candidate count postings: the inliers are the postings of
/// its recording that the query meets within the tolerance of the reported
/// offset, with their weights they make up the inlier score, and no window of
/// `2 * tolerance + 1` frames anywhere weighs more than the candidate's score,
/// which is that of a window around the offset. Within that window no lag
/// weighs more than the reported offset.
pub proof fn law_candidates_count_postings(
    index: Map<u32, Seq<Posting>>,
    query: Seq<QueryFp>,
    params: MatchParams,
    rarity: RarityTable,
    catalog: nat,
    o: MatchOutcome,
    tol: int,
)
    requires
        tol == if params.offset_tolerance_frames < 0 {
            0
        } else {
            params.offset_tolerance_frames as int
        },
        is_described(query_votes(index, query, params, rarity), params.tolerance(), catalog, o),
    ensures
        ({
            let (rec, off, n) = (o.recording.0, o.offset_frames, query.len() as int);
            &&& o.inliers == meetings(index, query, params, rec, off - tol, off + tol, n)
            &&& o.inlier_score == meeting_mass(
                index,
                query,
                params,
                rarity,
                rec,
                off - tol,
                off + tol,
                n,
            )
            &&& forall|s: int| #[trigger]
                meeting_mass(index, query, params, rarity, rec, s, s + 2 * tol, n)
                    <= o.weighted_score
            &&& exists|s: int|
                {
                    &&& s <= off <= s + 2 * tol
                    &&& o.weighted_score == #[trigger] meeting_mass(
                        index,
                        query,
                        params,
                        rarity,
                        rec,
                        s,
                        s + 2 * tol,
                        n,
                    )
                    &&& forall|l: int|
                        s <= l <= s + 2 * tol ==> #[trigger] meeting_mass(
                            index,
                            query,
                            params,
                            rarity,
                            rec,
                            l,
                            l,
                            n,
                        ) < meeting_mass(
                            index,
                            query,
                            params,
                            rarity,
                            rec,
                            off as int,
                            off as int,
                            n,
                        ) + if l < off {
                            0nat
                        } else {
                            1
                        }
                }
        }),
{
    let votes = query_votes(index, query, params, rarity);
    let (rec, off, n) = (o.recording.0, o.offset_frames, query.len() as int);
    assert(query.take(n) =~= query);
    let start = choose|start: i64| #[trigger]
        describes(votes, params.tolerance(), catalog, o, start);
    lemma_votes_are_meetings(
        index,
        query,
        params,
        rarity,
        near_offset(rec, off, tol),
        rec,
        off - tol,
        off + tol,
        n,
    );
    let cell = in_cell(rec, start, tol);
    lemma_votes_are_meetings(
        index,
        query,
        params,
        rarity,
        cell,
        rec,
        start as int,
        start + 2 * tol,
        n,
    );
    assert forall|s: int| #[trigger]
        meeting_mass(index, query, params, rarity, rec, s, s + 2 * tol, n)
        <= o.weighted_score by {
        let p = |v: Vote| v.rec == rec && s <= v.exact <= s + 2 * tol;
        lemma_votes_are_meetings(index, query, params, rarity, p, rec, s, s + 2 * tol, n);
        if exists|v: Vote| #[trigger] votes.contains(v) && p(v) {
            let d = choose|v: Vote| #[trigger] votes.contains(v) && p(v);
            let f = lemma_earliest(votes, p, d);
            let window = in_cell(rec, f.exact, tol);
            assert forall|i: int| 0 <= i < votes.len() && p(#[trigger] votes[i]) implies window(
                votes[i],
            ) by {
                assert(votes.contains(votes[i]));
            }
            crate::sort::lemma_sum_monotone(votes, p, window, vote_weight());
        } else {
            assert forall|i: int| 0 <= i < votes.len() implies !p(#[trigger] votes[i]) by {
                assert(votes.contains(votes[i]));
            }
            crate::sort::lemma_sum_none(votes, p, vote_weight());
        }
    }
    let here = at_offset(rec, off);
    lemma_votes_are_meetings(
        index,
        query,
        params,
        rarity,
        here,
        rec,
        off as int,
        off as int,
        n,
    );
    let best = meeting_mass(index, query, params, rarity, rec, off as int, off as int, n);
    assert forall|l: int| start <= l <= start + 2 * tol implies #[trigger] meeting_mass(
        index,
        query,
        params,
        rarity,
        rec,
        l,
        l,
        n,
    ) < best + if l < off {
        0nat
    } else {
        1
    } by {
        let p = |v: Vote| v.rec == rec && l <= v.exact <= l;
        lemma_votes_are_meetings(index, query, params, rarity, p, rec, l, l, n);
        if exists|v: Vote| #[trigger] votes.contains(v) && p(v) {
            let d = choose|v: Vote| #[trigger] votes.contains(v) && p(v);
            assert(cell(d));
            let q = at_offset(rec, d.exact);
            crate::sort::lemma_sum_agree(votes, p, q, vote_weight());
        } else {
            assert forall|i: int| 0 <= i < votes.len() implies !p(#[trigger] votes[i]) by {
                assert(votes.contains(votes[i]));
            }
            crate::sort::lemma_sum_none(votes, p, vote_weight());
            if l < off {
                let v = choose|v: Vote| #[trigger]
                    votes.contains(v) && cell(v) && v.exact == off;
                lemma_vote_weighs(index, query, params, rarity, votes, here, v);
            }
        }
    }
}

/// A vote adds to the mass.
proof fn lemma_vote_weighs(
    index: Map<u32, Seq<Posting>>,
    query: Seq<QueryFp>,
    params: MatchParams,
    rarity: RarityTable,
    votes: Seq<Vote>,
    p: spec_fn(Vote) -> bool,
    v: Vote,
)
    requires
        votes == query_votes(index, query, params, rarity),
        votes.contains(v),
        p(v),
    ensures
        mass(votes, p) > 0,
{
    let n = query.len() as int;
    assert(query.take(n) =~= query);
    let (j, k) = lemma_vote_meets(index, query, params, rarity, n, v);
    let i = votes.index_of(v);
    let (l, r) = (votes.subrange(0, i + 1), votes.subrange(i + 1, votes.len() as int));
    assert(votes =~= l + r);
    crate::sort::lemma_sum_concat(l, r, p, vote_weight());
    assert(l.last() == v);
}

/// The other numbers of a candidate: distinct query hashes among the inliers,
/// and the longest distance between two of their query times.
pub proof fn law_candidates_measure_their_spread(
    index: Map<u32, Seq<Posting>>,
    query: Seq<QueryFp>,
    params: MatchParams,
    rarity: RarityTable,
    catalog: nat,
    o: MatchOutcome,
    tol: int,
)
    requires
        tol == if params.offset_tolerance_frames < 0 {
            0
        } else {
            params.offset_tolerance_frames as int
        },
        is_described(query_votes(index, query, params, rarity), params.tolerance(), catalog, o),
    ensures
        ({
            let (rec, lo, hi) = (
                o.recording.0,
                o.offset_frames - tol,
                o.offset_frames + tol,
            );
            &&& o.unique_aligned == Set::new(
                |h: u32|
                    exists|j: int, k: int| #[trigger]
                        meets_within(index, query, params, rec, lo, hi, j, k) && query[j].hash == h,
            ).len()
            &&& exists|a: int, b: int, k: int, l: int| #[trigger]
                meets_within(index, query, params, rec, lo, hi, a, k) && #[trigger] meets_within(
                    index,
                    query,
                    params,
                    rec,
                    lo,
                    hi,
                    b,
                    l,
                ) && query[b].anchor_time - query[a].anchor_time == o.query_span_frames
            &&& forall|a: int, b: int, k: int, l: int| #[trigger]
                meets_within(index, query, params, rec, lo, hi, a, k) && #[trigger] meets_within(
                    index,
                    query,
                    params,
                    rec,
                    lo,
                    hi,
                    b,
                    l,
                ) ==> query[b].anchor_time - query[a].anchor_time <= o.query_span_frames
        }),
{
    let votes = query_votes(index, query, params, rarity);
    let n = query.len() as int;
    assert(query.take(n) =~= query);
    let (rec, lo, hi) = (o.recording.0, o.offset_frames - tol, o.offset_frames + tol);
    let start = choose|start: i64| #[trigger]
        describes(votes, params.tolerance(), catalog, o, start);
    let near = near_offset(rec, o.offset_frames, tol);
    let hs = Set::new(
        |h: u32|
            exists|j: int, k: int| #[trigger]
                meets_within(index, query, params, rec, lo, hi, j, k) && query[j].hash == h,
    );
    assert forall|h: u32| hs.contains(h) <==> hashes_where(votes, near).contains(h) by {
        if hs.contains(h) {
            let (j, k) = choose|j: int, k: int| #[trigger]
                meets_within(index, query, params, rec, lo, hi, j, k) && query[j].hash == h;
            lemma_meeting_votes(index, query, params, rarity, n, j, k);
            let v = meeting_vote(index, query, rarity, j, k);
            assert(votes.contains(v) && near(v));
        }
        if hashes_where(votes, near).contains(h) {
            let v = choose|v: Vote| #[trigger] votes.contains(v) && near(v) && v.hash == h;
            let (j, k) = lemma_vote_meets(index, query, params, rarity, n, v);
            assert(meets_within(index, query, params, rec, lo, hi, j, k));
        }
    }
    assert(hs =~= hashes_where(votes, near));
    let (x, y) = choose|x: Vote, y: Vote| #[trigger]
        votes.contains(x) && #[trigger] votes.contains(y) && near(x) && near(y) && y.q_anchor
            - x.q_anchor == o.query_span_frames as int;
    let (a, k) = lemma_vote_meets(index, query, params, rarity, n, x);
    let (b, l) = lemma_vote_meets(index, query, params, rarity, n, y);
    assert(meets_within(index, query, params, rec, lo, hi, a, k));
    assert(meets_within(index, query, params, rec, lo, hi, b, l));
    assert forall|a: int, b: int, k: int, l: int| #[trigger]
        meets_within(index, query, params, rec, lo, hi, a, k) && #[trigger] meets_within(
            index,
            query,
            params,
            rec,
            lo,
            hi,
            b,
            l,
        ) implies query[b].anchor_time - query[a].anchor_time <= o.query_span_frames by {
        lemma_meeting_votes(index, query, params, rarity, n, a, k);
        lemma_meeting_votes(index, query, params, rarity, n, b, l);
        let (x, y) = (
            meeting_vote(index, query, rarity, a, k),
            meeting_vote(index, query, rarity, b, l),
        );
        assert(votes.contains(x) && votes.contains(y) && near(x) && near(y));
    }
}

/// Nobody is passed over: a recording with a posting that the query meets is
/// a candidate, unless the shortlist is full of recordings that each outweigh
/// every window of it, or weigh as much and have a smaller id.
pub proof fn law_no_recording_is_passed_over(
    index: Map<u32, Seq<Posting>>,
    query: Seq<QueryFp>,
    params: MatchParams,
    rarity: RarityTable,
    catalog: nat,
    out: Seq<MatchOutcome>,
    tol: int,
    j: int,
    k: int,
    s: int,
)
    requires
        tol == if params.offset_tolerance_frames < 0 {
            0
        } else {
            params.offset_tolerance_frames as int
        },
        is_shortlist(
            query_votes(index, query, params, rarity),
            params.tolerance(),
            catalog,
            params.shortlist_len as nat,
            out,
        ),
        meets(index, query, params, j, k),
    ensures
        ({
            let r = index[query[j].hash][k].recording;
            let n = query.len() as int;
            ||| exists|i: int| 0 <= i < out.len() && (#[trigger] out[i]).recording == r
            ||| out.len() == params.shortlist_len && forall|i: int|
                0 <= i < out.len() ==> {
                    let m = meeting_mass(index, query, params, rarity, r.0, s, s + 2 * tol, n);
                    (#[trigger] out[i]).weighted_score > m || (out[i].weighted_score == m
                        && out[i].recording.0 < r.0)
                }
        }),
{
    reveal(is_shortlist);
    let votes = query_votes(index, query, params, rarity);
    let n = query.len() as int;
    assert(query.take(n) =~= query);
    let r = index[query[j].hash][k].recording;
    lemma_meeting_votes(index, query, params, rarity, n, j, k);
    let v = meeting_vote(index, query, rarity, j, k);
    if listed(out, v.rec) {
        let i = choose|i: int| 0 <= i < out.len() && (#[trigger] out[i]).recording.0 == v.rec;
        assert(out[i].recording == r);
    } else {
        let b = lemma_best_cell_exists(votes, r.0, tol, v);
        let p = |x: Vote| x.rec == r.0 && s <= x.exact <= s + 2 * tol;
        lemma_votes_are_meetings(index, query, params, rarity, p, r.0, s, s + 2 * tol, n);
        let m = meeting_mass(index, query, params, rarity, r.0, s, s + 2 * tol, n);
        let top = mass(votes, in_cell(r.0, b, tol));
        assert(m <= top) by {
            if exists|x: Vote| #[trigger] votes.contains(x) && p(x) {
                let d = choose|x: Vote| #[trigger] votes.contains(x) && p(x);
                let f = lemma_earliest(votes, p, d);
                let window = in_cell(r.0, f.exact, tol);
                assert forall|i: int| 0 <= i < votes.len() && p(
                    #[trigger] votes[i],
                ) implies window(votes[i]) by {
                    assert(votes.contains(votes[i]));
                }
                crate::sort::lemma_sum_monotone(votes, p, window, vote_weight());
            } else {
                assert forall|i: int| 0 <= i < votes.len() implies !p(#[trigger] votes[i]) by {
                    assert(votes.contains(votes[i]));
                }
                crate::sort::lemma_sum_none(votes, p, vote_weight());
            }
        }
        assert forall|i: int| 0 <= i < out.len() implies (#[trigger] out[i]).weighted_score > m || (
        out[i].weighted_score == m && out[i].recording.0 < r.0) by {
            assert(is_best_cell(votes, v.rec, params.tolerance(), b));
            assert(outranks(
                out[i].weighted_score as nat,
                out[i].recording.0,
                mass(votes, in_cell(v.rec, b, params.tolerance())),
                v.rec,
            ));
        }
    }
}

/// A recording with a vote has a winning cell.
proof fn lemma_best_cell_exists(votes: Seq<Vote>, rec: u32, tolerance: int, v: Vote) -> (b: i64)
    requires
        votes.contains(v),
        v.rec == rec,
    ensures
        is_best_cell(votes, rec, tolerance, b),
{
    lemma_best_among(votes, rec, tolerance, v, votes.len() as int)
}

/// The best of the cells that start at one of the first `n` votes, or at `v`.
proof fn lemma_best_among(votes: Seq<Vote>, rec: u32, tolerance: int, v: Vote, n: int) -> (b: i64)
    requires
        votes.contains(v),
        v.rec == rec,
        0 <= n <= votes.len(),
    ensures
        exists|w: Vote| #[trigger] votes.contains(w) && w.rec == rec && w.exact == b,
        forall|i: int|
            0 <= i < n && (#[trigger] votes[i]).rec == rec ==> {
                let other = mass(votes, in_cell(rec, votes[i].exact, tolerance));
                let best = mass(votes, in_cell(rec, b, tolerance));
                other < best || (other == best && b <= votes[i].exact)
            },
        n == votes.len() ==> is_best_cell(votes, rec, tolerance, b),
    decreases n,
{
    let b = if n == 0 {
        v.exact
    } else {
        let c = lemma_best_among(votes, rec, tolerance, v, n - 1);
        let w = votes[n - 1];
        let other = mass(votes, in_cell(rec, w.exact, tolerance));
        let best = mass(votes, in_cell(rec, c, tolerance));
        assert(votes.contains(w));
        if w.rec == rec && (other > best || (other == best && w.exact < c)) {
            w.exact
        } else {
            c
        }
    };
    if n == 0 {
        assert(votes.contains(v));
    }
    if n == votes.len() {
        assert forall|w: Vote| #[trigger] votes.contains(w) && w.rec == rec implies {
            let other = mass(votes, in_cell(rec, w.exact, tolerance));
            let best = mass(votes, in_cell(rec, b, tolerance));
            other < best || (other == best && b <= w.exact)
        } by {
            let i = votes.index_of(w);
            assert(votes[i].rec == rec);
        }
    }
    b
}

/// An exact excerpt is recognised: where every hash of the query occurs once
/// in the whole index, in one recording and at one lag, that recording is the
/// only candidate, at that offset, with every fingerprint an inlier.
pub proof fn law_exact_excerpts_are_recognised(
    index: Map<u32, Seq<Posting>>,
    query: Seq<QueryFp>,
    params: MatchParams,
    rarity: RarityTable,
    catalog: nat,
    out: Seq<MatchOutcome>,
    rec: RecordingId,
    off: int,
)
    requires
        query.len() > 0,
        params.shortlist_len > 0,
        params.stop_hash_df_threshold > 0,
        forall|i: int, j: int|
            #![trigger query[i], query[j]]
            0 <= i < j < query.len() ==> query[i].hash != query[j].hash,
        forall|j: int|
            #![trigger query[j]]
            0 <= j < query.len() ==> {
                &&& index.contains_key(query[j].hash)
                &&& index[query[j].hash].len() == 1
                &&& index[query[j].hash][0].recording == rec
                &&& index[query[j].hash][0].anchor_time - query[j].anchor_time == off
            },
        is_shortlist(
            query_votes(index, query, params, rarity),
            params.tolerance(),
            catalog,
            params.shortlist_len as nat,
            out,
        ),
    ensures
        out.len() == 1,
        out[0].recording == rec,
        out[0].offset_frames == off,
        out[0].inliers == query.len(),
        out[0].inlier_score == out[0].weighted_score,
        out[0].next_score == 0,
{
    let n = query.len() as int;
    let tol = params.tolerance();
    assert forall|j: int| 0 <= j < n implies #[trigger] takes_part(index, query, params, j) by {
        let list = index[query[j].hash];
        let ids = list.map_values(|p: Posting| p.recording.0);
        assert(ids =~= seq![list[0].recording.0]);
        assert(ids.to_set() =~= Set::<u32>::empty().insert(list[0].recording.0)) by {
            assert(ids[0] == list[0].recording.0);
        }
    }
    law_candidates_share_hashes_with_the_query(index, query, params, rarity, catalog, out);
    assert(takes_part(index, query, params, 0));
    assert(meets(index, query, params, 0, 0));
    law_no_recording_is_passed_over(index, query, params, rarity, catalog, out, tol, 0, 0, 0);
    assert(out.len() > 0);
    assert forall|i: int| 0 <= i < out.len() implies (#[trigger] out[i]).recording == rec
        && out[i].offset_frames == off by {
        assert(is_backed(index, query, params, out[i]));
        let (j, k) = choose|j: int, k: int| #[trigger]
            meets(index, query, params, j, k) && index[query[j].hash][k].recording
                == out[i].recording && lag(index, query, j, k) == out[i].offset_frames;
        assert(query[j].hash == query[j].hash);
    }
    assert(out[0].recording == rec);
    if out.len() > 1 {
        assert(out[1].recording == rec);
        assert(out[0].weighted_score > out[1].weighted_score);
        lemma_same_recording_once(index, query, params, rarity, catalog, out);
    }
    let votes = query_votes(index, query, params, rarity);
    assert(is_described(votes, tol, catalog, out[0])) by {
        reveal(is_shortlist);
    }
    law_candidates_count_postings(index, query, params, rarity, catalog, out[0], tol);
    lemma_all_meet(index, query, params, rarity, rec, off, off - tol, off + tol, n);
    assert(meeting_mass(index, query, params, rarity, rec.0, off - tol, off - tol + 2 * tol, n)
        <= out[0].weighted_score);
    law_concentration_is_a_share(votes, tol, catalog, out[0]);
    let s = choose|s: int|
        s <= off <= s + 2 * tol && out[0].weighted_score == #[trigger] meeting_mass(
            index,
            query,
            params,
            rarity,
            rec.0,
            s,
            s + 2 * tol,
            n,
        );
    lemma_all_meet(index, query, params, rarity, rec, off, s, s + 2 * tol, n);
    lemma_windows_agree(
        index,
        query,
        params,
        rarity,
        rec,
        off,
        off - tol,
        off + tol,
        s,
        s + 2 * tol,
        n,
    );
}

/// A shortlist names nobody twice.
proof fn lemma_same_recording_once(
    index: Map<u32, Seq<Posting>>,
    query: Seq<QueryFp>,
    params: MatchParams,
    rarity: RarityTable,
    catalog: nat,
    out: Seq<MatchOutcome>,
)
    requires
        is_shortlist(
            query_votes(index, query, params, rarity),
            params.tolerance(),
            catalog,
            params.shortlist_len as nat,
            out,
        ),
        out.len() > 1,
    ensures
        out[0].recording != out[1].recording,
{
    reveal(is_shortlist);
    let votes = query_votes(index, query, params, rarity);
    assert(is_described(votes, params.tolerance(), catalog, out[0]));
    assert(is_described(votes, params.tolerance(), catalog, out[1]));
    if out[0].recording == out[1].recording {
        lemma_described_unique(votes, params.tolerance(), catalog, out[0], out[1]);
        assert(outranks(
            out[0].weighted_score as nat,
            out[0].recording.0,
            out[1].weighted_score as nat,
            out[1].recording.0,
        ));
    }
}

/// Each fingerprint of an excerpt is met once.
proof fn lemma_all_meet(
    index: Map<u32, Seq<Posting>>,
    query: Seq<QueryFp>,
    params: MatchParams,
    rarity: RarityTable,
    rec: RecordingId,
    off: int,
    lo: int,
    hi: int,
    n: int,
)
    requires
        0 <= n <= query.len(),
        lo <= off <= hi,
        forall|j: int| 0 <= j < n ==> #[trigger] takes_part(index, query, params, j),
        forall|j: int|
            #![trigger query[j]]
            0 <= j < query.len() ==> {
                &&& index[query[j].hash].len() == 1
                &&& index[query[j].hash][0].recording == rec
                &&& index[query[j].hash][0].anchor_time - query[j].anchor_time == off
            },
    ensures
        meetings(index, query, params, rec.0, lo, hi, n) == n,
    decreases n,
{
    if n > 0 {
        lemma_all_meet(index, query, params, rarity, rec, off, lo, hi, n - 1);
        assert(takes_part(index, query, params, n - 1));
        let q = query[n - 1];
        let list = index[q.hash];
        reveal_with_fuel(Seq::filter, 2);
        assert(list.drop_last() =~= Seq::<Posting>::empty());
    }
}

/// Windows that hold the one lag of an excerpt weigh the same.
proof fn lemma_windows_agree(
    index: Map<u32, Seq<Posting>>,
    query: Seq<QueryFp>,
    params: MatchParams,
    rarity: RarityTable,
    rec: RecordingId,
    off: int,
    lo: int,
    hi: int,
    lo2: int,
    hi2: int,
    n: int,
)
    requires
        0 <= n <= query.len(),
        lo <= off <= hi,
        lo2 <= off <= hi2,
        forall|j: int|
            #![trigger query[j]]
            0 <= j < query.len() ==> {
                &&& index[query[j].hash].len() == 1
                &&& index[query[j].hash][0].recording == rec
                &&& index[query[j].hash][0].anchor_time - query[j].anchor_time == off
            },
    ensures
        meeting_mass(index, query, params, rarity, rec.0, lo, hi, n) == meeting_mass(
            index,
            query,
            params,
            rarity,
            rec.0,
            lo2,
            hi2,
            n,
        ),
    decreases n,
{
    if n > 0 {
        lemma_windows_agree(index, query, params, rarity, rec, off, lo, hi, lo2, hi2, n - 1);
        let q = query[n - 1];
        let list = index[q.hash];
        reveal_with_fuel(Seq::filter, 2);
        assert(list.drop_last() =~= Seq::<Posting>::empty());
    }
}

/// Fingerprint `j` meets posting `k` of the recording.
pub open spec fn meets_recording(
    index: Map<u32, Seq<Posting>>,
    query: Seq<QueryFp>,
    params: MatchParams,
    rec: u32,
    j: int,
    k: int,
) -> bool {
    meets(index, query, params, j, k) && index[query[j].hash][k].recording.0 == rec
}

/// The first of equally heavy windows wins: the candidate's window begins at
/// a lag of a posting that the query meets, holds its offset, and every
/// window that begins at an earlier such lag weighs less.
pub proof fn law_first_of_equal_windows_wins(
    index: Map<u32, Seq<Posting>>,
    query: Seq<QueryFp>,
    params: MatchParams,
    rarity: RarityTable,
    catalog: nat,
    o: MatchOutcome,
    tol: int,
)
    requires
        tol == if params.offset_tolerance_frames < 0 {
            0
        } else {
            params.offset_tolerance_frames as int
        },
        is_described(query_votes(index, query, params, rarity), params.tolerance(), catalog, o),
    ensures
        exists|a: int, b: int|
            {
                let (rec, n) = (o.recording.0, query.len() as int);
                let s = lag(index, query, a, b);
                &&& #[trigger] meets_recording(index, query, params, o.recording.0, a, b)
                &&& s <= o.offset_frames <= s + 2 * tol
                &&& o.weighted_score == meeting_mass(
                    index,
                    query,
                    params,
                    rarity,
                    rec,
                    s,
                    s + 2 * tol,
                    n,
                )
                &&& forall|j: int, k: int| #[trigger]
                    meets_recording(index, query, params, o.recording.0, j, k) && lag(index, query, j, k) < s
                        ==> meeting_mass(
                        index,
                        query,
                        params,
                        rarity,
                        rec,
                        lag(index, query, j, k),
                        lag(index, query, j, k) + 2 * tol,
                        n,
                    ) < o.weighted_score
            },
{
    let votes = query_votes(index, query, params, rarity);
    let (rec, n) = (o.recording.0, query.len() as int);
    assert(query.take(n) =~= query);
    let start = choose|start: i64| #[trigger]
        describes(votes, params.tolerance(), catalog, o, start);
    let v = choose|v: Vote| #[trigger] votes.contains(v) && v.rec == rec && v.exact == start;
    let (a, b) = lemma_vote_meets(index, query, params, rarity, n, v);
    let s = lag(index, query, a, b);
    assert(s == start);
    assert(meets_recording(index, query, params, rec, a, b));
    lemma_votes_are_meetings(
        index,
        query,
        params,
        rarity,
        in_cell(rec, start, tol),
        rec,
        s,
        s + 2 * tol,
        n,
    );
    assert forall|j: int, k: int| #[trigger]
        meets_recording(index, query, params, rec, j, k) && lag(index, query, j, k)
            < s implies meeting_mass(
        index,
        query,
        params,
        rarity,
        rec,
        lag(index, query, j, k),
        lag(index, query, j, k) + 2 * tol,
        n,
    ) < o.weighted_score by {
        lemma_meeting_votes(index, query, params, rarity, n, j, k);
        let w = meeting_vote(index, query, rarity, j, k);
        let l = lag(index, query, j, k);
        assert(votes.contains(w) && w.rec == rec && w.exact == l);
        lemma_votes_are_meetings(
            index,
            query,
            params,
            rarity,
            in_cell(rec, w.exact, tol),
            rec,
            l,
            l + 2 * tol,
            n,
        );
    }
}

/// Weights and measures: a hash weighs what the table says for its number of
/// recordings, and at least a thousandth; a tolerance below zero counts as
/// zero; a share compares inlier mass and score, a margin the scores of two
/// candidates, where one without a rival leads by one; the mean rarity is the
/// mass per inlier, rounded down, and one in a catalog of one recording.
pub proof fn law_weights_and_measures(
    table: RarityTable,
    df: nat,
    params: MatchParams,
    o: MatchOutcome,
    num: int,
    den: int,
)
    requires
        den > 0,
        num >= 0,
    ensures
        df < table.weights@.len() && table.weights@[df as int] >= 1000 ==> table.weight_of(df)
            == table.weights@[df as int],
        df < table.weights@.len() && table.weights@[df as int] < 1000 ==> table.weight_of(df)
            == 1000,
        df >= table.weights@.len() ==> table.weight_of(df) == 1000,
        params.offset_tolerance_frames >= 0 ==> params.tolerance()
            == params.offset_tolerance_frames,
        params.offset_tolerance_frames < 0 ==> params.tolerance() == 0,
        o.weighted_score > 0 ==> (o.concentrated(num, den) <==> den * o.inlier_score >= num
            * o.weighted_score),
        o.weighted_score == 0 ==> (o.concentrated(num, den) <==> num == 0),
        o.next_score > 0 ==> (o.leads_by(num, den) <==> den * o.weighted_score >= num
            * o.next_score),
        o.next_score == 0 ==> (o.leads_by(num, den) <==> num <= den),
        o.inliers == 0 ==> o.mean_rarity() == 0,
        o.inliers > 0 && o.catalog_recordings <= 1 ==> o.mean_rarity() == 1_000_000,
        o.inliers > 0 && o.catalog_recordings >= 2 ==> o.mean_rarity() * o.inliers
            <= o.inlier_score < (o.mean_rarity() + 1) * o.inliers,
{
    assert(den * o.inlier_score == o.inlier_score * den) by (nonlinear_arith);
    assert(num * o.weighted_score == o.weighted_score * num) by (nonlinear_arith);
    assert(den * o.weighted_score == o.weighted_score * den) by (nonlinear_arith);
    assert(num * o.next_score == o.next_score * num) by (nonlinear_arith);
    if o.inliers > 0 && o.catalog_recordings >= 2 {
        let (s, n) = (o.inlier_score as int, o.inliers as int);
        vstd::arithmetic::div_mod::lemma_fundamental_div_mod(s, n);
        vstd::arithmetic::div_mod::lemma_mod_bound(s, n);
        let q = s / n;
        assert(n * q == q * n) by (nonlinear_arith);
        assert((q + 1) * n == q * n + n) by (nonlinear_arith);
    }
}

} // verus!
