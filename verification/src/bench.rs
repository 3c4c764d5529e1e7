//! Benchmark bookkeeping: the case matrix, the verdict on each case, and what
//! a run adds up to.
//!
//! Audio, clocks and engines stay outside: they hand over what an engine
//! found for a case, and how long it took.
use vstd::prelude::*;

use crate::ids::{decimal, decimal_digits, RecordingId};
use crate::legacy::MatchResult;
use crate::matcher::{InMemoryIndex, MatchOutcome};
use crate::postings::{
    all_tidy, law_added_fingerprints_are_listed, law_tidy_lists_keep_their_postings, lists, tidied,
    with_recording, Posting,
};
use crate::rng::{derived_state, XorShift64Star};
use crate::sort::{count_where, law_counting_is_filtering};
use crate::stats::{
    largest, largest_of, median, median_of, percentile, percentile_of, sum, sum_of,
};
use crate::text::{
    chars_of, is_text_less, lemma_text_order, lemma_text_transitive, string_of, text_less,
};

verus! {

// ---- corpus ----

/// A track of the corpus.
#[derive(Debug)]
pub struct CorpusTrack {
    pub recording: RecordingId,
    pub name: String,
}

/// Seed of track `i`.
pub open spec fn track_seed_spec(seed: u64, i: u64) -> u64 {
    seed ^ ((i * 0x9E37_79B9_7F4A_7C15) % 0x1_0000_0000_0000_0000) as u64
}

/// Seed of track `i`: different tracks draw from different streams.
pub fn track_seed(seed: u64, i: u64) -> (s: u64)
    ensures
        s == track_seed_spec(seed, i),
{
    let product: u128 = i as u128 * 0x9E37_79B9_7F4A_7C15;
    let low: u64 = (product % 0x1_0000_0000_0000_0000) as u64;
    seed ^ low
}

/// Seed of the song that no catalog holds.
pub fn held_out_seed(seed: u64) -> (s: u64)
    ensures
        s == seed ^ 0xDEAD_BEEF,
{
    seed ^ 0xDEAD_BEEF
}

/// Name of track `i`.
pub fn track_name(seed: u64, i: u64) -> (name: String)
    ensures
        name@ == "synthetic-"@ + decimal(seed as nat) + "-"@ + decimal(i as nat),
{
    let mut cs: Vec<char> = chars_of("synthetic-");
    let mut a: Vec<char> = decimal_digits(seed);
    let mut dash: Vec<char> = chars_of("-");
    let mut b: Vec<char> = decimal_digits(i);
    cs.append(&mut a);
    cs.append(&mut dash);
    cs.append(&mut b);
    string_of(&cs)
}

// ---- case matrix ----

/// One case of the matrix.
#[derive(Debug, Clone, Copy, PartialEq, Eq, Structural)]
pub struct PlannedCase {
    pub case_id: usize,
    pub track: usize,
    pub position: usize,
    pub degradation: usize,
}

/// Case `id`: all degradations of a position, all positions of a track, all
/// tracks.
pub open spec fn case_of(id: int, positions: int, degradations: int) -> PlannedCase {
    PlannedCase {
        case_id: id as usize,
        track: (id / (positions * degradations)) as usize,
        position: (id / degradations % positions) as usize,
        degradation: (id % degradations) as usize,
    }
}

/// All cases, in order.
pub fn plan_cases(tracks: usize, positions: usize, degradations: usize) -> (cases: Vec<PlannedCase>)
    requires
        tracks * positions * degradations <= usize::MAX,
    ensures
        cases.len() == tracks * positions * degradations,
        forall|id: int|
            0 <= id < cases.len() ==> #[trigger] cases[id] == case_of(
                id,
                positions as int,
                degradations as int,
            ),
{
    let mut cases: Vec<PlannedCase> = Vec::new();
    let ghost (t, p, d) = (tracks as int, positions as int, degradations as int);
    let mut track: usize = 0;
    assert(0 * p * d == 0) by (nonlinear_arith);
    while track < tracks
        invariant
            track <= tracks,
            t == tracks,
            p == positions,
            d == degradations,
            t * p * d <= usize::MAX,
            cases.len() == track * p * d,
            forall|id: int| 0 <= id < cases.len() ==> #[trigger] cases[id] == case_of(id, p, d),
        decreases tracks - track,
    {
        let mut position: usize = 0;
        let ghost base = track * p * d;
        assert(base + 0 * d == base) by (nonlinear_arith);
        while position < positions
            invariant
                track < tracks,
                position <= positions,
                t == tracks,
                p == positions,
                d == degradations,
                t * p * d <= usize::MAX,
                base == track * p * d,
                cases.len() == base + position * d,
                forall|id: int| 0 <= id < cases.len() ==> #[trigger] cases[id] == case_of(id, p, d),
            decreases positions - position,
        {
            let mut degradation: usize = 0;
            let ghost row = base + position * d;
            while degradation < degradations
                invariant
                    track < tracks,
                    position < positions,
                    degradation <= degradations,
                    t == tracks,
                    p == positions,
                    d == degradations,
                    t * p * d <= usize::MAX,
                    base == track * p * d,
                    row == base + position * d,
                    cases.len() == row + degradation,
                    forall|id: int|
                        0 <= id < cases.len() ==> #[trigger] cases[id] == case_of(id, p, d),
                decreases degradations - degradation,
            {
                let case_id: usize = cases.len();
                proof {
                    lemma_case_place(
                        track as int,
                        position as int,
                        degradation as int,
                        p,
                        d,
                        case_id as int,
                    );
                }
                cases.push(PlannedCase { case_id, track, position, degradation });
                degradation = degradation + 1;
            }
            assert(base + (position + 1) * d == row + d) by (nonlinear_arith)
                requires
                    row == base + position * d,
            ;
            position = position + 1;
        }
        assert((track + 1) * p * d == base + p * d) by (nonlinear_arith)
            requires
                base == track * p * d,
        ;
        track = track + 1;
    }
    cases
}

/// A case number splits into its three places.
proof fn lemma_case_place(t: int, q: int, k: int, p: int, d: int, id: int)
    requires
        0 <= t,
        0 <= q < p,
        0 <= k < d,
        id == t * p * d + q * d + k,
    ensures
        id / (p * d) == t,
        id / d % p == q,
        id % d == k,
{
    assert(id == (t * p + q) * d + k) by (nonlinear_arith)
        requires
            id == t * p * d + q * d + k,
    ;
    vstd::arithmetic::div_mod::lemma_fundamental_div_mod_converse(id, d, t * p + q, k);
    vstd::arithmetic::div_mod::lemma_fundamental_div_mod_converse(t * p + q, p, t, q);
    assert(id == t * (p * d) + (q * d + k)) by (nonlinear_arith)
        requires
            id == t * p * d + q * d + k,
    ;
    assert(0 <= q * d + k < p * d) by (nonlinear_arith)
        requires
            0 <= q < p,
            0 <= k < d,
    ;
    vstd::arithmetic::div_mod::lemma_fundamental_div_mod_converse(id, p * d, t, q * d + k);
}

/// The generator that draws the excerpt position of a case: one stream per
/// track and position.
pub fn excerpt_rng(seed: u64, track: u32, position: u32) -> (rng: XorShift64Star)
    requires
        seed ^ 0x51E5 != 0,
    ensures
        rng.wf(),
        rng@ == derived_state(seed ^ 0x51E5, (track * 977 + position) as u64),
{
    XorShift64Star::new(seed ^ 0x51E5).derive(track as u64 * 977 + position as u64)
}

// ---- reference index ----

/// The fingerprints of one track, as pairs of hash and anchor.
#[derive(Debug)]
pub struct TrackPrints {
    pub recording: RecordingId,
    pub prints: Vec<(u32, u32)>,
}

/// The postings of all tracks, in order.
pub open spec fn track_postings(tracks: Seq<TrackPrints>) -> Map<u32, Seq<Posting>>
    decreases tracks.len(),
{
    if tracks.len() == 0 {
        Map::empty()
    } else {
        with_recording(
            track_postings(tracks.drop_last()),
            tracks.last().recording,
            tracks.last().prints@,
        )
    }
}

/// The index that queries are matched against.
pub fn reference_index(tracks: &Vec<TrackPrints>) -> (index: InMemoryIndex)
    ensures
        index.wf(),
        index.is_finalized(),
        tidied(index@, track_postings(tracks@)),
        all_tidy(index@),
        index.recording_count() == tracks.len(),
{
    let mut index = InMemoryIndex::new();
    let mut i: usize = 0;
    assert(tracks@.take(0) =~= Seq::<TrackPrints>::empty());
    while i < tracks.len()
        invariant
            i <= tracks.len(),
            index.wf(),
            !index.is_finalized(),
            index@ == track_postings(tracks@.take(i as int)),
            index.recording_count() == i,
        decreases tracks.len() - i,
    {
        assert(tracks@.take(i + 1).drop_last() =~= tracks@.take(i as int));
        index.add_recording(tracks[i].recording, tracks[i].prints.as_slice());
        i = i + 1;
    }
    assert(tracks@.take(i as int) =~= tracks@);
    index.finalize();
    index
}

// ---- verdicts ----

/// Frames by which a matched offset may differ.
pub const OFFSET_TOLERANCE: u64 = 2;

/// The same for triplets: time stretching jitters the fitted offset.
pub const AFFINE_OFFSET_TOLERANCE: u64 = 8;

/// Calibrated gate of the landmark engine.
pub const CALIB_MIN_INLIERS: usize = 7;

pub const CALIB_MIN_CONCENTRATION_PERCENT: u32 = 50;

/// Calibrated gate of the triplet engine.
pub const GATE_MIN_INLIERS_B1: usize = 210;

/// What an engine ranks first for a query.
#[derive(Debug, Clone, Copy, PartialEq, Eq, Structural)]
pub struct Finding {
    pub recording: RecordingId,
    pub offset_frames: i64,
    /// The evidence passes the engine's gate.
    pub passes_gate: bool,
}

/// The verdict on a case.
#[derive(Debug)]
pub struct Verdict {
    pub matched_track: Option<String>,
    /// The track is the right one.
    pub track_hit: bool,
    /// And the offset is within tolerance.
    pub offset_hit: bool,
    /// And the evidence clears the bar.
    pub gated_hit: bool,
}

/// The name of a recording in the corpus: that of the first track with it.
pub open spec fn name_of(tracks: Seq<CorpusTrack>, recording: RecordingId) -> Option<Seq<char>>
    decreases tracks.len(),
{
    if tracks.len() == 0 {
        None
    } else if name_of(tracks.drop_last(), recording) is Some {
        name_of(tracks.drop_last(), recording)
    } else if tracks.last().recording == recording {
        Some(tracks.last().name@)
    } else {
        None
    }
}

pub open spec fn text_of(s: Option<String>) -> Option<Seq<char>> {
    match s {
        Some(t) => Some(t@),
        None => None,
    }
}

fn find_name(tracks: &Vec<CorpusTrack>, recording: RecordingId) -> (name: Option<String>)
    ensures
        text_of(name) == name_of(tracks@, recording),
{
    let mut i: usize = 0;
    assert(tracks@.take(0) =~= Seq::<CorpusTrack>::empty());
    while i < tracks.len()
        invariant
            i <= tracks.len(),
            name_of(tracks@.take(i as int), recording) is None,
        decreases tracks.len() - i,
    {
        assert(tracks@.take(i + 1).drop_last() =~= tracks@.take(i as int));
        if tracks[i].recording.0 == recording.0 {
            proof {
                lemma_first_name(tracks@, i + 1, recording);
            }
            return Some(tracks[i].name.clone());
        }
        i = i + 1;
    }
    assert(tracks@.take(i as int) =~= tracks@);
    None
}

proof fn lemma_first_name(tracks: Seq<CorpusTrack>, n: int, recording: RecordingId)
    requires
        0 <= n <= tracks.len(),
        name_of(tracks.take(n), recording) is Some,
    ensures
        name_of(tracks, recording) == name_of(tracks.take(n), recording),
    decreases tracks.len(),
{
    if n < tracks.len() {
        assert(tracks.drop_last().take(n) =~= tracks.take(n));
        lemma_first_name(tracks.drop_last(), n, recording);
    } else {
        assert(tracks.take(n) =~= tracks);
    }
}

/// Distance of two offsets.
pub open spec fn offset_distance(a: i64, b: i64) -> int {
    if a >= b {
        a - b
    } else {
        b - a
    }
}

/// The verdict on a finding.
pub open spec fn is_verdict(
    v: Verdict,
    tracks: Seq<CorpusTrack>,
    expected: Seq<char>,
    expected_offset: i64,
    tolerance: int,
    found: Option<Finding>,
) -> bool {
    match found {
        None => v.matched_track is None && !v.track_hit && !v.offset_hit && !v.gated_hit,
        Some(f) => {
            let name = name_of(tracks, f.recording);
            &&& text_of(v.matched_track) == name
            &&& v.track_hit == (name == Some(expected))
            &&& v.offset_hit == (v.track_hit && offset_distance(f.offset_frames, expected_offset)
                <= tolerance)
            &&& v.gated_hit == (v.track_hit && f.passes_gate)
        },
    }
}

/// Judges a finding against the track and the offset that were expected.
pub fn judge(
    tracks: &Vec<CorpusTrack>,
    expected: &String,
    expected_offset: i64,
    tolerance: u64,
    found: Option<Finding>,
) -> (v: Verdict)
    ensures
        is_verdict(v, tracks@, expected@, expected_offset, tolerance as int, found),
{
    match found {
        None => Verdict {
            matched_track: None,
            track_hit: false,
            offset_hit: false,
            gated_hit: false,
        },
        Some(f) => {
            let matched_track: Option<String> = find_name(tracks, f.recording);
            let track_hit: bool = match &matched_track {
                Some(name) => *name == *expected,
                None => false,
            };
            let distance: i128 = f.offset_frames as i128 - expected_offset as i128;
            let near: bool = -(tolerance as i128) <= distance && distance <= tolerance as i128;
            Verdict {
                matched_track,
                track_hit,
                offset_hit: track_hit && near,
                gated_hit: track_hit && f.passes_gate,
            }
        },
    }
}

/// A song of the database and the recording that it stands for.
#[derive(Debug, Clone, Copy, PartialEq, Eq, Structural)]
pub struct Enrolled {
    pub song_id: u32,
    pub recording: RecordingId,
}

/// The recording of a song: that of the first entry with its id.
pub open spec fn enrolled_recording(enrolled: Seq<Enrolled>, song_id: u32) -> Option<RecordingId>
    decreases enrolled.len(),
{
    if enrolled.len() == 0 {
        None
    } else if enrolled_recording(enrolled.drop_last(), song_id) is Some {
        enrolled_recording(enrolled.drop_last(), song_id)
    } else if enrolled.last().song_id == song_id {
        Some(enrolled.last().recording)
    } else {
        None
    }
}

proof fn lemma_first_enrolled(enrolled: Seq<Enrolled>, n: int, song_id: u32)
    requires
        0 <= n <= enrolled.len(),
        enrolled_recording(enrolled.take(n), song_id) is Some,
    ensures
        enrolled_recording(enrolled, song_id) == enrolled_recording(enrolled.take(n), song_id),
    decreases enrolled.len(),
{
    if n < enrolled.len() {
        assert(enrolled.drop_last().take(n) =~= enrolled.take(n));
        lemma_first_enrolled(enrolled.drop_last(), n, song_id);
    } else {
        assert(enrolled.take(n) =~= enrolled);
    }
}

/// What the first-generation engine found: a song, as far as it is enrolled.
pub open spec fn legacy_finding(enrolled: Seq<Enrolled>, m: Option<MatchResult>, min_score: usize)
    -> Option<Finding> {
    match m {
        None => None,
        Some(m) => match enrolled_recording(enrolled, m.song_id) {
            None => None,
            Some(recording) => Some(
                Finding {
                    recording,
                    offset_frames: m.time_offset_in_song_frames,
                    passes_gate: m.score >= min_score,
                },
            ),
        },
    }
}

/// What the first-generation engine found; it accepts by its score.
pub fn find_legacy(enrolled: &Vec<Enrolled>, m: Option<MatchResult>, min_score: usize) -> (f: Option<
    Finding,
>)
    ensures
        f == legacy_finding(enrolled@, m, min_score),
{
    let best: MatchResult = match m {
        Some(best) => best,
        None => {
            return None;
        },
    };
    let mut i: usize = 0;
    assert(enrolled@.take(0) =~= Seq::<Enrolled>::empty());
    while i < enrolled.len()
        invariant
            i <= enrolled.len(),
            m == Some(best),
            enrolled_recording(enrolled@.take(i as int), best.song_id) is None,
        decreases enrolled.len() - i,
    {
        assert(enrolled@.take(i + 1).drop_last() =~= enrolled@.take(i as int));
        if enrolled[i].song_id == best.song_id {
            proof {
                lemma_first_enrolled(enrolled@, i + 1, best.song_id);
            }
            return Some(
                Finding {
                    recording: enrolled[i].recording,
                    offset_frames: best.time_offset_in_song_frames,
                    passes_gate: best.score >= min_score,
                },
            );
        }
        i = i + 1;
    }
    assert(enrolled@.take(i as int) =~= enrolled@);
    None
}

/// The evidence clears the landmark engine's calibrated gate.
pub open spec fn clears_calibrated_gate(o: MatchOutcome) -> bool {
    o.inliers >= CALIB_MIN_INLIERS && o.concentrated(CALIB_MIN_CONCENTRATION_PERCENT as int, 100)
}

/// Whether evidence clears the landmark engine's calibrated gate.
pub fn accepts_landmark(best: Option<&MatchOutcome>) -> (r: bool)
    ensures
        r == (best matches Some(o) && clears_calibrated_gate(*o)),
{
    match best {
        Some(o) => o.inliers >= CALIB_MIN_INLIERS && o.concentration_at_least(
            CALIB_MIN_CONCENTRATION_PERCENT,
            100,
        ),
        None => false,
    }
}

/// What the landmark engine found: the first of its outcomes.
pub fn find_landmark(outcomes: &Vec<MatchOutcome>) -> (f: Option<Finding>)
    ensures
        f == if outcomes.len() == 0 {
            None
        } else {
            Some(
                Finding {
                    recording: outcomes[0].recording,
                    offset_frames: outcomes[0].offset_frames,
                    passes_gate: clears_calibrated_gate(outcomes[0]),
                },
            )
        },
{
    if outcomes.len() == 0 {
        return None;
    }
    let best: MatchOutcome = outcomes[0];
    Some(
        Finding {
            recording: best.recording,
            offset_frames: best.offset_frames,
            passes_gate: accepts_landmark(Some(&best)),
        },
    )
}

/// Whether the inliers of its best fit clear the triplet engine's gate.
pub fn accepts_triplets(inliers: Option<usize>) -> (r: bool)
    ensures
        r == (inliers matches Some(n) && n >= GATE_MIN_INLIERS_B1),
{
    match inliers {
        Some(n) => n >= GATE_MIN_INLIERS_B1,
        None => false,
    }
}

/// What the triplet engine found; it accepts by the inliers of its fit.
pub fn find_triplets(recording: RecordingId, inliers: usize, offset_frames: i64) -> (f: Finding)
    ensures
        f == (Finding { recording, offset_frames, passes_gate: inliers >= GATE_MIN_INLIERS_B1 }),
{
    Finding { recording, offset_frames, passes_gate: accepts_triplets(Some(inliers)) }
}

// ---- results ----

/// The result of one case.
#[derive(Debug)]
pub struct CaseResult {
    pub case_id: usize,
    pub degradation: String,
    pub expected_track: String,
    pub verdict: Verdict,
    pub score: Option<usize>,
    pub offset_frames_expected: i64,
    pub offset_frames_matched: Option<i64>,
    pub fingerprint_us: u64,
    pub match_us: u64,
    /// The matcher's evidence, for engines that expose it.
    pub evidence: Option<MatchOutcome>,
    /// The line fit behind the match, for the triplet engine.
    pub fit: Option<FitEvidence>,
}

/// What a line fit through time pairs came to.
#[derive(Debug, Clone, Copy, PartialEq, Eq, Structural)]
pub struct FitEvidence {
    /// Pairs considered.
    pub pairs: usize,
    /// Time scale, in millionths.
    pub time_scale: i64,
    /// Mean residual of the inliers, in millionths of a frame.
    pub residual: i64,
}

/// The result of a query that no track answers.
#[derive(Debug)]
pub struct RejectionCase {
    pub degradation: String,
    pub accepted_by_gate: bool,
    pub best_score: Option<usize>,
    pub evidence: Option<MatchOutcome>,
    /// The line fit of the strongest candidate, for the triplet engine.
    pub fit: Option<FitEvidence>,
}

/// What a run adds up to.
#[derive(Debug, Clone, Copy, PartialEq, Eq, Structural)]
pub struct Aggregates {
    pub total_cases: usize,
    pub track_hits: usize,
    pub offset_hits: usize,
    pub gated_hits: usize,
    /// Sums: with the number of cases they give the means.
    pub fingerprint_us: u128,
    pub match_us: u128,
    pub p95_total_us: u64,
    pub false_accepts: usize,
    pub rejection_cases: usize,
}

pub open spec fn hits_track() -> spec_fn(CaseResult) -> bool {
    |c: CaseResult| c.verdict.track_hit
}

pub open spec fn hits_offset() -> spec_fn(CaseResult) -> bool {
    |c: CaseResult| c.verdict.offset_hit
}

pub open spec fn hits_gated() -> spec_fn(CaseResult) -> bool {
    |c: CaseResult| c.verdict.gated_hit
}

pub open spec fn is_accepted() -> spec_fn(RejectionCase) -> bool {
    |r: RejectionCase| r.accepted_by_gate
}

pub open spec fn fingerprint_times(cases: Seq<CaseResult>) -> Seq<u64> {
    cases.map_values(|c: CaseResult| c.fingerprint_us)
}

pub open spec fn match_times(cases: Seq<CaseResult>) -> Seq<u64> {
    cases.map_values(|c: CaseResult| c.match_us)
}

pub open spec fn total_times(cases: Seq<CaseResult>) -> Seq<u64> {
    cases.map_values(|c: CaseResult| (c.fingerprint_us + c.match_us) as u64)
}

/// What the cases and rejections of a run add up to.
pub open spec fn aggregates_of(cases: Seq<CaseResult>, rejections: Seq<RejectionCase>) -> Aggregates {
    Aggregates {
        total_cases: cases.len() as usize,
        track_hits: count_where(cases, hits_track()) as usize,
        offset_hits: count_where(cases, hits_offset()) as usize,
        gated_hits: count_where(cases, hits_gated()) as usize,
        fingerprint_us: sum_of(fingerprint_times(cases)) as u128,
        match_us: sum_of(match_times(cases)) as u128,
        p95_total_us: percentile_of(total_times(cases), 95),
        false_accepts: count_where(rejections, is_accepted()) as usize,
        rejection_cases: rejections.len() as usize,
    }
}

/// Adds up a run.
pub fn aggregate(cases: &Vec<CaseResult>, rejections: &Vec<RejectionCase>) -> (a: Aggregates)
    requires
        forall|i: int|
            0 <= i < cases.len() ==> (#[trigger] cases[i]).fingerprint_us + cases[i].match_us
                <= u64::MAX,
    ensures
        a == aggregates_of(cases@, rejections@),
{
    let mut track_hits: usize = 0;
    let mut offset_hits: usize = 0;
    let mut gated_hits: usize = 0;
    let mut fp: Vec<u64> = Vec::new();
    let mut ma: Vec<u64> = Vec::new();
    let mut total: Vec<u64> = Vec::new();
    let mut i: usize = 0;
    assert(cases@.take(0) =~= Seq::<CaseResult>::empty());
    while i < cases.len()
        invariant
            i <= cases.len(),
            forall|i: int|
                0 <= i < cases.len() ==> (#[trigger] cases[i]).fingerprint_us + cases[i].match_us
                    <= u64::MAX,
            track_hits <= i,
            offset_hits <= i,
            gated_hits <= i,
            track_hits == count_where(cases@.take(i as int), hits_track()),
            offset_hits == count_where(cases@.take(i as int), hits_offset()),
            gated_hits == count_where(cases@.take(i as int), hits_gated()),
            fp@ == fingerprint_times(cases@).take(i as int),
            ma@ == match_times(cases@).take(i as int),
            total@ == total_times(cases@).take(i as int),
        decreases cases.len() - i,
    {
        assert(cases@.take(i + 1).drop_last() =~= cases@.take(i as int));
        let c = &cases[i];
        if c.verdict.track_hit {
            track_hits = track_hits + 1;
        }
        if c.verdict.offset_hit {
            offset_hits = offset_hits + 1;
        }
        if c.verdict.gated_hit {
            gated_hits = gated_hits + 1;
        }
        fp.push(c.fingerprint_us);
        ma.push(c.match_us);
        total.push(c.fingerprint_us + c.match_us);
        i = i + 1;
        assert(fp@ =~= fingerprint_times(cases@).take(i as int));
        assert(ma@ =~= match_times(cases@).take(i as int));
        assert(total@ =~= total_times(cases@).take(i as int));
    }
    proof {
        assert(cases@.take(i as int) =~= cases@);
        assert(fp@ =~= fingerprint_times(cases@));
        assert(ma@ =~= match_times(cases@));
        assert(total@ =~= total_times(cases@));
    }
    let mut false_accepts: usize = 0;
    let mut k: usize = 0;
    assert(rejections@.take(0) =~= Seq::<RejectionCase>::empty());
    while k < rejections.len()
        invariant
            k <= rejections.len(),
            false_accepts <= k,
            false_accepts == count_where(rejections@.take(k as int), is_accepted()),
        decreases rejections.len() - k,
    {
        assert(rejections@.take(k + 1).drop_last() =~= rejections@.take(k as int));
        if rejections[k].accepted_by_gate {
            false_accepts = false_accepts + 1;
        }
        k = k + 1;
    }
    assert(rejections@.take(k as int) =~= rejections@);
    Aggregates {
        total_cases: cases.len(),
        track_hits,
        offset_hits,
        gated_hits,
        fingerprint_us: sum(&fp),
        match_us: sum(&ma),
        p95_total_us: percentile(&total, 95),
        false_accepts,
        rejection_cases: rejections.len(),
    }
}

// ---- table ----

/// One row of the table by degradation.
#[derive(Debug)]
pub struct Cell {
    pub degradation: String,
    pub n: usize,
    pub track_hits: usize,
    pub offset_hits: usize,
    pub gated_hits: usize,
    pub fingerprint_us: u128,
    pub match_us: u128,
}

pub open spec fn of_degradation(d: Seq<char>) -> spec_fn(CaseResult) -> bool {
    |c: CaseResult| c.degradation@ == d
}

/// The cases of one degradation, in order.
pub open spec fn cases_of(cases: Seq<CaseResult>, d: Seq<char>) -> Seq<CaseResult> {
    cases.filter(of_degradation(d))
}

/// The row holds what the cases of its degradation add up to.
pub open spec fn is_cell(cell: Cell, cases: Seq<CaseResult>) -> bool {
    let own = cases_of(cases, cell.degradation@);
    &&& cell.n == own.len()
    &&& cell.track_hits == count_where(own, hits_track())
    &&& cell.offset_hits == count_where(own, hits_offset())
    &&& cell.gated_hits == count_where(own, hits_gated())
    &&& cell.fingerprint_us == sum_of(fingerprint_times(own))
    &&& cell.match_us == sum_of(match_times(own))
}

proof fn lemma_count_bound<T>(s: Seq<T>, p: spec_fn(T) -> bool)
    ensures
        count_where(s, p) <= s.len(),
    decreases s.len(),
{
    if s.len() > 0 {
        lemma_count_bound(s.drop_last(), p);
    }
}

pub proof fn lemma_time_sum_bound(s: Seq<u64>)
    ensures
        0 <= sum_of(s) <= s.len() * 0xffff_ffff_ffff_ffff,
    decreases s.len(),
{
    if s.len() > 0 {
        lemma_time_sum_bound(s.drop_last());
        assert(s.len() * 0xffff_ffff_ffff_ffff == (s.len() - 1) * 0xffff_ffff_ffff_ffff
            + 0xffff_ffff_ffff_ffff) by (nonlinear_arith);
    }
}

/// Adds up the cases of one degradation.
pub fn cell_of(cases: &Vec<CaseResult>, degradation: &String) -> (cell: Cell)
    ensures
        cell.degradation@ == degradation@,
        is_cell(cell, cases@),
{
    let ghost d = degradation@;
    let ghost test = of_degradation(d);
    let mut n: usize = 0;
    let mut track_hits: usize = 0;
    let mut offset_hits: usize = 0;
    let mut gated_hits: usize = 0;
    let mut fp: u128 = 0;
    let mut ma: u128 = 0;
    let mut i: usize = 0;
    proof {
        reveal(Seq::filter);
        assert(cases@.take(0) =~= Seq::<CaseResult>::empty());
        let none = cases_of(cases@.take(0), d);
        assert(fingerprint_times(none) =~= Seq::<u64>::empty());
        assert(match_times(none) =~= Seq::<u64>::empty());
    }
    while i < cases.len()
        invariant
            i <= cases.len(),
            d == degradation@,
            n <= i,
            n == cases_of(cases@.take(i as int), d).len(),
            track_hits == count_where(cases_of(cases@.take(i as int), d), hits_track()),
            offset_hits == count_where(cases_of(cases@.take(i as int), d), hits_offset()),
            gated_hits == count_where(cases_of(cases@.take(i as int), d), hits_gated()),
            fp == sum_of(fingerprint_times(cases_of(cases@.take(i as int), d))),
            ma == sum_of(match_times(cases_of(cases@.take(i as int), d))),
        decreases cases.len() - i,
    {
        let ghost own = cases_of(cases@.take(i as int), d);
        let ghost next = cases_of(cases@.take(i + 1), d);
        let c = &cases[i];
        proof {
            reveal(Seq::filter);
            assert(cases@.take(i + 1).drop_last() =~= cases@.take(i as int));
            assert(cases@.take(i + 1).last() == cases[i as int]);
            lemma_count_bound(own, hits_track());
            lemma_count_bound(own, hits_offset());
            lemma_count_bound(own, hits_gated());
            lemma_time_sum_bound(fingerprint_times(own));
            lemma_time_sum_bound(match_times(own));
            assert(own.len() * 0xffff_ffff_ffff_ffff <= (0xffff_ffff_ffff_ffff - 1)
                * 0xffff_ffff_ffff_ffff) by (nonlinear_arith)
                requires
                    own.len() <= 0xffff_ffff_ffff_ffff - 1,
            ;
            if c.degradation@ == d {
                assert(next == own.push(*c));
                assert(own.push(*c).drop_last() =~= own);
                assert(fingerprint_times(next) =~= fingerprint_times(own).push(c.fingerprint_us));
                assert(match_times(next) =~= match_times(own).push(c.match_us));
                assert(fingerprint_times(next).drop_last() =~= fingerprint_times(own));
                assert(match_times(next).drop_last() =~= match_times(own));
            } else {
                assert(next == own);
            }
        }
        if c.degradation == *degradation {
            n = n + 1;
            if c.verdict.track_hit {
                track_hits = track_hits + 1;
            }
            if c.verdict.offset_hit {
                offset_hits = offset_hits + 1;
            }
            if c.verdict.gated_hit {
                gated_hits = gated_hits + 1;
            }
            fp = fp + c.fingerprint_us as u128;
            ma = ma + c.match_us as u128;
        }
        i = i + 1;
    }
    assert(cases@.take(i as int) =~= cases@);
    Cell {
        degradation: degradation.clone(),
        n,
        track_hits,
        offset_hits,
        gated_hits,
        fingerprint_us: fp,
        match_us: ma,
    }
}

/// The names ascend.
pub open spec fn names_ascend(names: Seq<String>) -> bool {
    forall|i: int, j: int|
        #![trigger names[i], names[j]]
        0 <= i < j < names.len() ==> text_less(names[i]@, names[j]@)
}

/// One of the names is `d`.
pub open spec fn has_name(names: Seq<String>, d: Seq<char>) -> bool {
    exists|i: int| 0 <= i < names.len() && (#[trigger] names[i])@ == d
}

/// Puts a name in its place, unless it is there.
fn add_name(names: &mut Vec<String>, name: &String)
    requires
        names_ascend(old(names)@),
    ensures
        names_ascend(final(names)@),
        forall|d: Seq<char>| #[trigger]
            has_name(final(names)@, d) <==> has_name(old(names)@, d) || d == name@,
{
    let cs: Vec<char> = chars_of(name.as_str());
    let ghost start = names@;
    let mut k: usize = 0;
    while k < names.len()
        invariant_except_break
            k <= names.len(),
        invariant
            names_ascend(start),
            names@ == start,
            names@ == old(names)@,
            cs@ == name@,
            k <= names.len(),
            forall|i: int| 0 <= i < k ==> text_less((#[trigger] names[i])@, name@),
        ensures
            k < names.len() ==> !text_less(names[k as int]@, name@) && names[k as int]@ != name@,
        decreases names.len() - k,
    {
        if names[k] == *name {
            proof {
                assert forall|d: Seq<char>| #[trigger] has_name(names@, d) <==> has_name(
                    old(names)@,
                    d,
                ) || d == name@ by {
                    assert(names[k as int]@ == name@);
                }
            }
            return;
        }
        if !is_text_less(&chars_of(names[k].as_str()), &cs) {
            break;
        }
        k = k + 1;
    }
    names.insert(k, name.clone());
    proof {
        let new = names@;
        assert(new == start.insert(k as int, new[k as int]));
        if k < start.len() {
            lemma_text_order(name@, start[k as int]@);
        }
        assert forall|i: int, j: int|
            #![trigger new[i], new[j]]
            0 <= i < j < new.len() implies text_less(new[i]@, new[j]@) by {
            if i < k && j > k {
                assert(new[i] == start[i] && new[j] == start[j - 1]);
            } else if i < k && j < k {
                assert(new[i] == start[i] && new[j] == start[j]);
            } else if i < k {
                assert(new[i] == start[i]);
            } else if i == k {
                assert(new[j] == start[j - 1]);
                if j - 1 > k {
                    lemma_text_transitive(name@, start[k as int]@, start[j - 1]@);
                }
            } else {
                assert(new[i] == start[i - 1] && new[j] == start[j - 1]);
            }
        }
        assert forall|d: Seq<char>| #[trigger] has_name(new, d) <==> has_name(start, d) || d
            == name@ by {
            if has_name(new, d) {
                let i = choose|i: int| 0 <= i < new.len() && (#[trigger] new[i])@ == d;
                if i < k {
                    assert(start[i]@ == d);
                } else if i > k {
                    assert(start[i - 1]@ == d);
                }
            }
            if has_name(start, d) {
                let i = choose|i: int| 0 <= i < start.len() && (#[trigger] start[i])@ == d;
                if i < k {
                    assert(new[i]@ == d);
                } else {
                    assert(new[i + 1]@ == d);
                }
            }
            if d == name@ {
                assert(new[k as int]@ == d);
            }
        }
    }
}

/// Some case has the degradation.
pub open spec fn occurs(cases: Seq<CaseResult>, d: Seq<char>) -> bool {
    exists|i: int| 0 <= i < cases.len() && (#[trigger] cases[i]).degradation@ == d
}

/// The degradations of the cases, each once, in the order of texts.
pub fn degradations_of(cases: &Vec<CaseResult>) -> (names: Vec<String>)
    ensures
        names_ascend(names@),
        forall|d: Seq<char>| #[trigger] has_name(names@, d) <==> occurs(cases@, d),
{
    let mut names: Vec<String> = Vec::new();
    let mut i: usize = 0;
    while i < cases.len()
        invariant
            i <= cases.len(),
            names_ascend(names@),
            forall|d: Seq<char>| #[trigger]
                has_name(names@, d) <==> occurs(cases@.take(i as int), d),
        decreases cases.len() - i,
    {
        let ghost before = names@;
        add_name(&mut names, &cases[i].degradation);
        proof {
            let (a, b) = (cases@.take(i as int), cases@.take(i + 1));
            assert forall|d: Seq<char>| #[trigger] has_name(names@, d) <==> occurs(b, d) by {
                if occurs(a, d) {
                    let k = choose|k: int| 0 <= k < a.len() && (#[trigger] a[k]).degradation@ == d;
                    assert(b[k].degradation@ == d);
                }
                if d == cases[i as int].degradation@ {
                    assert(b[i as int].degradation@ == d);
                }
                if occurs(b, d) {
                    let k = choose|k: int| 0 <= k < b.len() && (#[trigger] b[k]).degradation@ == d;
                    if k < i {
                        assert(a[k].degradation@ == d);
                    }
                }
                assert(has_name(names@, d) <==> has_name(before, d) || d
                    == cases[i as int].degradation@);
            }
        }
        i = i + 1;
    }
    assert(cases@.take(i as int) =~= cases@);
    names
}

/// One of the rows is that of `d`.
pub open spec fn has_cell(cells: Seq<Cell>, d: Seq<char>) -> bool {
    exists|i: int| 0 <= i < cells.len() && (#[trigger] cells[i]).degradation@ == d
}

/// The table by degradation, in the order of texts.
pub fn table_of(cases: &Vec<CaseResult>) -> (cells: Vec<Cell>)
    ensures
        forall|i: int| 0 <= i < cells.len() ==> is_cell(#[trigger] cells[i], cases@),
        forall|i: int, j: int|
            #![trigger cells[i], cells[j]]
            0 <= i < j < cells.len() ==> text_less(cells[i].degradation@, cells[j].degradation@),
        forall|i: int| 0 <= i < cells.len() ==> occurs(cases@, (#[trigger] cells[i]).degradation@),
        forall|k: int|
            0 <= k < cases.len() ==> has_cell(cells@, (#[trigger] cases[k]).degradation@),
{
    let names: Vec<String> = degradations_of(cases);
    let mut cells: Vec<Cell> = Vec::new();
    let mut i: usize = 0;
    while i < names.len()
        invariant
            i <= names.len(),
            cells.len() == i,
            forall|k: int|
                0 <= k < i ==> is_cell(#[trigger] cells[k], cases@) && cells[k].degradation@
                    == names[k]@,
        decreases names.len() - i,
    {
        cells.push(cell_of(cases, &names[i]));
        i = i + 1;
    }
    proof {
        assert forall|i: int| 0 <= i < cells.len() implies occurs(
            cases@,
            (#[trigger] cells[i]).degradation@,
        ) by {
            assert(names[i]@ == cells[i].degradation@);
            assert(has_name(names@, names[i]@));
        }
        assert forall|k: int| 0 <= k < cases.len() implies has_cell(
            cells@,
            (#[trigger] cases[k]).degradation@,
        ) by {
            let d = cases[k].degradation@;
            assert(occurs(cases@, d));
            assert(has_name(names@, d));
            let i = choose|i: int| 0 <= i < names.len() && (#[trigger] names[i])@ == d;
            assert(cells[i].degradation@ == d);
        }
        assert forall|i: int, j: int|
            #![trigger cells[i], cells[j]]
            0 <= i < j < cells.len() implies text_less(
            cells[i].degradation@,
            cells[j].degradation@,
        ) by {
            assert(text_less(names[i]@, names[j]@));
        }
    }
    cells
}

/// Whole percents of `hits` in `n`, rounded down; none of nothing.
pub fn percent(hits: usize, n: usize) -> (p: Option<u128>)
    ensures
        p == if n == 0 {
            None
        } else {
            Some((hits * 100 / n as int) as u128)
        },
{
    if n == 0 {
        None
    } else {
        let p: u128 = hits as u128 * 100 / n as u128;
        assert(p == hits * 100 / n as int);
        Some(p)
    }
}

// ---- levers ----

/// Counts of one configuration of the triplet engine.
#[derive(Debug)]
pub struct LeverTally {
    pub hits: usize,
    pub total: usize,
    pub match_inliers: Vec<u64>,
    pub false_accepts: usize,
    pub rejection_inliers: Vec<u64>,
}

/// What the counts come to.
#[derive(Debug, Clone, Copy, PartialEq, Eq, Structural)]
pub struct LeverResult {
    /// Recall: hits of all cases.
    pub hits: usize,
    pub total: usize,
    /// Held-out queries accepted at the bar.
    pub false_accepts_210: usize,
    pub rejection_cases: usize,
    /// How far wrong audio climbs toward the bar.
    pub max_rejection_inliers: u64,
    /// Evidence of genuine alignment.
    pub median_match_inliers: u64,
}

impl LeverTally {
    pub fn new() -> (t: Self)
        ensures
            t.hits == 0,
            t.total == 0,
            t.match_inliers@.len() == 0,
            t.false_accepts == 0,
            t.rejection_inliers@.len() == 0,
    {
        LeverTally {
            hits: 0,
            total: 0,
            match_inliers: Vec::new(),
            false_accepts: 0,
            rejection_inliers: Vec::new(),
        }
    }

    /// Counts a case: the recording ranked first and its inliers, if any.
    pub fn count_case(&mut self, expected: RecordingId, best: Option<(RecordingId, u64)>)
        requires
            old(self).hits <= old(self).total < usize::MAX,
        ensures
            final(self).total == old(self).total + 1,
            final(self).false_accepts == old(self).false_accepts,
            final(self).rejection_inliers == old(self).rejection_inliers,
            match best {
                Some((recording, inliers)) if recording == expected => {
                    &&& final(self).hits == old(self).hits + 1
                    &&& final(self).match_inliers@ == old(self).match_inliers@.push(inliers)
                },
                _ => {
                    &&& final(self).hits == old(self).hits
                    &&& final(self).match_inliers == old(self).match_inliers
                },
            },
    {
        self.total = self.total + 1;
        if let Some((recording, inliers)) = best {
            if recording.0 == expected.0 {
                self.hits = self.hits + 1;
                self.match_inliers.push(inliers);
            }
        }
    }

    /// Counts a held-out query: the inliers of what is ranked first, if
    /// anything.
    pub fn count_rejection(&mut self, best: Option<u64>)
        requires
            old(self).false_accepts <= old(self).rejection_inliers@.len() < usize::MAX,
        ensures
            final(self).hits == old(self).hits,
            final(self).total == old(self).total,
            final(self).match_inliers == old(self).match_inliers,
            match best {
                Some(inliers) => {
                    &&& final(self).rejection_inliers@ == old(self).rejection_inliers@.push(inliers)
                    &&& final(self).false_accepts == old(self).false_accepts + if inliers
                        >= GATE_MIN_INLIERS_B1 {
                        1int
                    } else {
                        0
                    }
                },
                None => *final(self) == *old(self),
            },
    {
        if let Some(inliers) = best {
            self.rejection_inliers.push(inliers);
            if inliers >= GATE_MIN_INLIERS_B1 as u64 {
                self.false_accepts = self.false_accepts + 1;
            }
        }
    }

    /// What the counts come to.
    pub fn result(&self) -> (r: LeverResult)
        ensures
            r == (LeverResult {
                hits: self.hits,
                total: self.total,
                false_accepts_210: self.false_accepts,
                rejection_cases: self.rejection_inliers.len(),
                max_rejection_inliers: largest_of(self.rejection_inliers@),
                median_match_inliers: median_of(self.match_inliers@),
            }),
    {
        LeverResult {
            hits: self.hits,
            total: self.total,
            false_accepts_210: self.false_accepts,
            rejection_cases: self.rejection_inliers.len(),
            max_rejection_inliers: largest(&self.rejection_inliers),
            median_match_inliers: median(&self.match_inliers),
        }
    }
}

/// Seed of held-out song `k` of the lever runs.
pub open spec fn lever_held_seed_spec(seed: u64, k: u64) -> u64 {
    seed ^ 0xDEAD_BEEF ^ ((k * 0xA5A5_5A5A) % 0x1_0000_0000_0000_0000) as u64
}

/// Seed of held-out song `k` of the lever runs.
pub fn lever_held_seed(seed: u64, k: u64) -> (s: u64)
    ensures
        s == lever_held_seed_spec(seed, k),
{
    let product: u128 = k as u128 * 0xA5A5_5A5A;
    let low: u64 = (product % 0x1_0000_0000_0000_0000) as u64;
    seed ^ 0xDEAD_BEEF ^ low
}

// ---- laws ----

/// The seeds of the streams: those of a track, and of a held-out song of the
/// lever runs.
pub proof fn law_streams_have_their_seeds(seed: u64, i: u64)
    ensures
        track_seed_spec(seed, i) == seed ^ ((i * 11_400_714_819_323_198_485)
            % 18_446_744_073_709_551_616) as u64,
        lever_held_seed_spec(seed, i) == seed ^ 3_735_928_559u64 ^ ((i * 2_779_077_210)
            % 18_446_744_073_709_551_616) as u64,
{
}

/// The matrix holds every degradation of every position of every track: the
/// case of track `t`, position `q` and degradation `k` has the number
/// `(t positions + q) degradations + k`.
pub proof fn law_the_matrix_is_complete(t: int, q: int, k: int, positions: int, degradations: int)
    requires
        0 <= t <= usize::MAX,
        0 <= q < positions <= usize::MAX,
        0 <= k < degradations <= usize::MAX,
        (t * positions + q) * degradations + k <= usize::MAX,
    ensures
        case_of((t * positions + q) * degradations + k, positions, degradations) == (PlannedCase {
            case_id: ((t * positions + q) * degradations + k) as usize,
            track: t as usize,
            position: q as usize,
            degradation: k as usize,
        }),
{
    let id = (t * positions + q) * degradations + k;
    assert(id == t * positions * degradations + q * degradations + k) by (nonlinear_arith)
        requires
            id == (t * positions + q) * degradations + k,
    ;
    lemma_case_place(t, q, k, positions, degradations, id);
}

/// Print `k` of the track stands under the hash and names the posting.
pub open spec fn track_names(track: TrackPrints, k: int, hash: u32, p: Posting) -> bool {
    &&& 0 <= k < track.prints@.len()
    &&& track.prints@[k] == (hash, p.anchor_time)
    &&& track.recording == p.recording
}

/// The reference index holds the prints of every track under its own
/// recording, and nothing else.
pub proof fn law_reference_holds_every_track(
    tracks: Seq<TrackPrints>,
    index: Map<u32, Seq<Posting>>,
    hash: u32,
    p: Posting,
)
    requires
        tidied(index, track_postings(tracks)),
    ensures
        lists(index, hash, p) <==> exists|i: int, k: int|
            0 <= i < tracks.len() && #[trigger] track_names(tracks[i], k, hash, p),
{
    law_tidy_lists_keep_their_postings(index, track_postings(tracks), hash, p);
    lemma_tracks_hold(tracks, hash, p);
}

proof fn lemma_tracks_hold(tracks: Seq<TrackPrints>, hash: u32, p: Posting)
    ensures
        lists(track_postings(tracks), hash, p) <==> exists|i: int, k: int|
            0 <= i < tracks.len() && #[trigger] track_names(tracks[i], k, hash, p),
    decreases tracks.len(),
{
    if tracks.len() > 0 {
        let rest = tracks.drop_last();
        let last = tracks.last();
        let n = tracks.len() - 1;
        lemma_tracks_hold(rest, hash, p);
        law_added_fingerprints_are_listed(
            track_postings(rest),
            last.recording,
            last.prints@,
            hash,
            p,
            p,
        );
        if exists|k: int|
            0 <= k < last.prints@.len() && #[trigger] last.prints@[k] == (hash, p.anchor_time) {
            let k = choose|k: int|
                0 <= k < last.prints@.len() && #[trigger] last.prints@[k] == (hash, p.anchor_time);
            if p.recording == last.recording {
                assert(track_names(tracks[n], k, hash, p));
            }
        }
        if exists|i: int, k: int|
            0 <= i < rest.len() && #[trigger] track_names(rest[i], k, hash, p) {
            let (i, k) = choose|i: int, k: int|
                0 <= i < rest.len() && #[trigger] track_names(rest[i], k, hash, p);
            assert(track_names(tracks[i], k, hash, p));
        }
        if exists|i: int, k: int|
            0 <= i < tracks.len() && #[trigger] track_names(tracks[i], k, hash, p) {
            let (i, k) = choose|i: int, k: int|
                0 <= i < tracks.len() && #[trigger] track_names(tracks[i], k, hash, p);
            if i < n {
                assert(track_names(rest[i], k, hash, p));
            } else {
                assert(last.prints@[k] == (hash, p.anchor_time));
            }
        }
    }
}

/// A recording is called what the first track with it is called, a song
/// stands for the recording that was first enrolled under its id, and what
/// has no such track or entry has no name or recording.
pub proof fn law_first_entries_name_recordings(
    tracks: Seq<CorpusTrack>,
    recording: RecordingId,
    enrolled: Seq<Enrolled>,
    song_id: u32,
)
    ensures
        forall|i: int|
            0 <= i < tracks.len() && (#[trigger] tracks[i]).recording == recording && (forall|k: int|
                0 <= k < i ==> (#[trigger] tracks[k]).recording != recording) ==> name_of(
                tracks,
                recording,
            ) == Some(tracks[i].name@),
        (forall|k: int| 0 <= k < tracks.len() ==> (#[trigger] tracks[k]).recording != recording)
            ==> name_of(tracks, recording) is None,
        forall|i: int|
            0 <= i < enrolled.len() && (#[trigger] enrolled[i]).song_id == song_id && (forall|
                k: int,
            |
                0 <= k < i ==> (#[trigger] enrolled[k]).song_id != song_id) ==> enrolled_recording(
                enrolled,
                song_id,
            ) == Some(enrolled[i].recording),
        (forall|k: int| 0 <= k < enrolled.len() ==> (#[trigger] enrolled[k]).song_id != song_id)
            ==> enrolled_recording(enrolled, song_id) is None,
{
    lemma_first_track(tracks, recording);
    lemma_first_song(enrolled, song_id);
}

proof fn lemma_first_track(tracks: Seq<CorpusTrack>, recording: RecordingId)
    ensures
        forall|i: int|
            0 <= i < tracks.len() && (#[trigger] tracks[i]).recording == recording && (forall|k: int|
                0 <= k < i ==> (#[trigger] tracks[k]).recording != recording) ==> name_of(
                tracks,
                recording,
            ) == Some(tracks[i].name@),
        (forall|k: int| 0 <= k < tracks.len() ==> (#[trigger] tracks[k]).recording != recording)
            ==> name_of(tracks, recording) is None,
    decreases tracks.len(),
{
    if tracks.len() > 0 {
        let rest = tracks.drop_last();
        let n = tracks.len() - 1;
        lemma_first_track(rest, recording);
        assert(tracks[n] == tracks.last());
        assert forall|i: int| 0 <= i < n implies #[trigger] rest[i] == tracks[i] by {}
        assert forall|i: int|
            0 <= i < tracks.len() && (#[trigger] tracks[i]).recording == recording && (forall|k: int|
                0 <= k < i ==> (#[trigger] tracks[k]).recording != recording) implies name_of(
            tracks,
            recording,
        ) == Some(tracks[i].name@) by {
            if i < n {
                assert(rest[i].recording == recording);
                assert forall|k: int| 0 <= k < i implies (#[trigger] rest[k]).recording
                    != recording by {
                    assert(tracks[k].recording != recording);
                }
            } else {
                assert forall|k: int| 0 <= k < rest.len() implies (#[trigger] rest[k]).recording
                    != recording by {
                    assert(tracks[k].recording != recording);
                }
            }
        }
        if forall|k: int| 0 <= k < tracks.len() ==> (#[trigger] tracks[k]).recording != recording {
            assert forall|k: int| 0 <= k < rest.len() implies (#[trigger] rest[k]).recording
                != recording by {
                assert(tracks[k].recording != recording);
            }
        }
    }
}

proof fn lemma_first_song(enrolled: Seq<Enrolled>, song_id: u32)
    ensures
        forall|i: int|
            0 <= i < enrolled.len() && (#[trigger] enrolled[i]).song_id == song_id && (forall|
                k: int,
            |
                0 <= k < i ==> (#[trigger] enrolled[k]).song_id != song_id) ==> enrolled_recording(
                enrolled,
                song_id,
            ) == Some(enrolled[i].recording),
        (forall|k: int| 0 <= k < enrolled.len() ==> (#[trigger] enrolled[k]).song_id != song_id)
            ==> enrolled_recording(enrolled, song_id) is None,
    decreases enrolled.len(),
{
    if enrolled.len() > 0 {
        let rest = enrolled.drop_last();
        let n = enrolled.len() - 1;
        lemma_first_song(rest, song_id);
        assert(enrolled[n] == enrolled.last());
        assert forall|i: int| 0 <= i < n implies #[trigger] rest[i] == enrolled[i] by {}
        assert forall|i: int|
            0 <= i < enrolled.len() && (#[trigger] enrolled[i]).song_id == song_id && (forall|
                k: int,
            |
                0 <= k < i ==> (#[trigger] enrolled[k]).song_id != song_id) implies enrolled_recording(
            enrolled,
            song_id,
        ) == Some(enrolled[i].recording) by {
            if i < n {
                assert(rest[i].song_id == song_id);
            }
            assert forall|k: int| 0 <= k < i && k < n implies (#[trigger] rest[k]).song_id
                != song_id by {
                assert(enrolled[k].song_id != song_id);
            }
        }
        if forall|k: int| 0 <= k < enrolled.len() ==> (#[trigger] enrolled[k]).song_id != song_id {
            assert forall|k: int| 0 <= k < rest.len() implies (#[trigger] rest[k]).song_id
                != song_id by {
                assert(enrolled[k].song_id != song_id);
            }
        }
    }
}

/// The verdict on a finding: the track is hit if the recording has the
/// expected name; the offset, if moreover it is off by no more than the
/// tolerance, either way; the bar, if moreover the evidence passes. Without a
/// finding nothing is hit.
pub proof fn law_verdicts(
    v: Verdict,
    tracks: Seq<CorpusTrack>,
    expected: Seq<char>,
    expected_offset: i64,
    tolerance: int,
    found: Option<Finding>,
)
    requires
        is_verdict(v, tracks, expected, expected_offset, tolerance, found),
    ensures
        found is None ==> !v.track_hit && !v.offset_hit && !v.gated_hit && v.matched_track is None,
        found matches Some(f) ==> {
            let named = name_of(tracks, f.recording);
            &&& v.matched_track is Some <==> named is Some
            &&& named is Some ==> v.matched_track->0@ == named->0
            &&& v.track_hit <==> named is Some && named->0 == expected
            &&& v.offset_hit <==> v.track_hit && f.offset_frames <= expected_offset + tolerance
                && expected_offset <= f.offset_frames + tolerance
            &&& v.gated_hit <==> v.track_hit && f.passes_gate
        },
{
}

/// What the engines accept: the first-generation one by its score, of songs
/// that are enrolled; the landmark engine with 7 inliers and half of the mass
/// near the offset; the triplet engine with 210 inliers.
pub proof fn law_engines_accept_by_their_evidence(
    enrolled: Seq<Enrolled>,
    m: Option<MatchResult>,
    min_score: usize,
    o: MatchOutcome,
)
    ensures
        legacy_finding(enrolled, m, min_score) is Some <==> m is Some && enrolled_recording(
            enrolled,
            m->0.song_id,
        ) is Some,
        legacy_finding(enrolled, m, min_score) matches Some(f) ==> {
            &&& Some(f.recording) == enrolled_recording(enrolled, m->0.song_id)
            &&& f.offset_frames == m->0.time_offset_in_song_frames
            &&& f.passes_gate <==> m->0.score >= min_score
        },
        clears_calibrated_gate(o) <==> o.inliers >= 7 && o.weighted_score > 0 && 2 * o.inlier_score
            >= o.weighted_score,
        GATE_MIN_INLIERS_B1 == 210 && OFFSET_TOLERANCE == 2 && AFFINE_OFFSET_TOLERANCE == 8,
{
}

/// What a run adds up to: how many cases hit the track, the offset and the
/// bar, how many held-out queries were accepted, the times of all cases, and
/// the time that 95 of a hundred cases do not exceed.
pub proof fn law_runs_add_up(cases: Seq<CaseResult>, rejections: Seq<RejectionCase>)
    requires
        cases.len() <= usize::MAX <= 0xffff_ffff_ffff_ffff,
        rejections.len() <= usize::MAX,
    ensures
        ({
            let a = aggregates_of(cases, rejections);
            &&& a.total_cases == cases.len()
            &&& a.rejection_cases == rejections.len()
            &&& a.track_hits == cases.filter(|c: CaseResult| c.verdict.track_hit).len()
            &&& a.offset_hits == cases.filter(|c: CaseResult| c.verdict.offset_hit).len()
            &&& a.gated_hits == cases.filter(|c: CaseResult| c.verdict.gated_hit).len()
            &&& a.false_accepts == rejections.filter(|r: RejectionCase| r.accepted_by_gate).len()
            &&& a.fingerprint_us == sum_of(Seq::new(cases.len(), |i: int| cases[i].fingerprint_us))
            &&& a.match_us == sum_of(Seq::new(cases.len(), |i: int| cases[i].match_us))
            &&& a.p95_total_us == percentile_of(
                Seq::new(
                    cases.len(),
                    |i: int| (cases[i].fingerprint_us + cases[i].match_us) as u64,
                ),
                95,
            )
        }),
{
    law_counting_is_filtering(cases, hits_track());
    law_counting_is_filtering(cases, hits_offset());
    law_counting_is_filtering(cases, hits_gated());
    law_counting_is_filtering(rejections, is_accepted());
    lemma_count_bound(cases, hits_track());
    lemma_count_bound(cases, hits_offset());
    lemma_count_bound(cases, hits_gated());
    lemma_count_bound(rejections, is_accepted());
    assert(hits_track() =~= (|c: CaseResult| c.verdict.track_hit));
    assert(hits_offset() =~= (|c: CaseResult| c.verdict.offset_hit));
    assert(hits_gated() =~= (|c: CaseResult| c.verdict.gated_hit));
    assert(is_accepted() =~= (|r: RejectionCase| r.accepted_by_gate));
    let f = Seq::new(cases.len(), |i: int| cases[i].fingerprint_us);
    let m = Seq::new(cases.len(), |i: int| cases[i].match_us);
    let t = Seq::new(
        cases.len(),
        |i: int| (cases[i].fingerprint_us + cases[i].match_us) as u64,
    );
    assert(f =~= fingerprint_times(cases));
    assert(m =~= match_times(cases));
    assert(t =~= total_times(cases));
    lemma_time_sum_bound(f);
    lemma_time_sum_bound(m);
    assert(cases.len() * 0xffff_ffff_ffff_ffff <= 0xffff_ffff_ffff_ffff * 0xffff_ffff_ffff_ffff)
        by (nonlinear_arith)
        requires
            cases.len() <= 0xffff_ffff_ffff_ffff,
    ;
}

/// A row of the table holds what the cases of its degradation add up to, and
/// no others.
pub proof fn law_rows_add_up(cell: Cell, cases: Seq<CaseResult>)
    requires
        is_cell(cell, cases),
    ensures
        ({
            let own = cases.filter(|c: CaseResult| c.degradation@ == cell.degradation@);
            &&& cell.n == own.len()
            &&& cell.track_hits == own.filter(|c: CaseResult| c.verdict.track_hit).len()
            &&& cell.offset_hits == own.filter(|c: CaseResult| c.verdict.offset_hit).len()
            &&& cell.gated_hits == own.filter(|c: CaseResult| c.verdict.gated_hit).len()
            &&& cell.fingerprint_us == sum_of(Seq::new(own.len(), |i: int| own[i].fingerprint_us))
            &&& cell.match_us == sum_of(Seq::new(own.len(), |i: int| own[i].match_us))
        }),
{
    let own = cases_of(cases, cell.degradation@);
    assert(of_degradation(cell.degradation@) =~= (|c: CaseResult|
        c.degradation@ == cell.degradation@));
    law_counting_is_filtering(own, hits_track());
    law_counting_is_filtering(own, hits_offset());
    law_counting_is_filtering(own, hits_gated());
    assert(hits_track() =~= (|c: CaseResult| c.verdict.track_hit));
    assert(hits_offset() =~= (|c: CaseResult| c.verdict.offset_hit));
    assert(hits_gated() =~= (|c: CaseResult| c.verdict.gated_hit));
    assert(Seq::new(own.len(), |i: int| own[i].fingerprint_us) =~= fingerprint_times(own));
    assert(Seq::new(own.len(), |i: int| own[i].match_us) =~= match_times(own));
}

} // verus!
