//! Server-side recognition session.
//!
//! A session accumulates fingerprint batches streamed from a client and
//! re-queries the catalog as audio time advances, emitting state transitions:
//!
//! ```text
//! LISTENING -> CANDIDATE -> CONFIDENT_MATCH
//!        \-> NO_MATCH (timeout without a confident match)
//! ```
//!
//! Acceptance uses a calibrated gate; intermediate states use deliberately
//! looser evidence so a client can show progress without claiming a result.
//! The clock stays outside: every call is told how long the session has been
//! capturing.
use vstd::prelude::*;

use crate::matcher::{
    is_backed, is_shortlist, law_candidates_share_hashes_with_the_query,
    law_no_recording_is_passed_over, meets, query_votes, InMemoryIndex, MatchOutcome, MatchParams, QueryFp, RarityTable,
};
use crate::postings::Posting;
use crate::sort::count_where;

verus! {

/// Calibrated zero-false-accept gate.
pub const GATE_MIN_INLIERS: usize = 7;

/// The winner's margin over the runner-up: cross-track collisions of similar
/// catalogs reach margins just below it.
pub const GATE_MIN_MARGIN: u32 = 3;

/// Acceptance floor for a catalog of one recording, where no runner-up
/// exists.
pub const GATE_SOLO_MIN_INLIERS: usize = 64;

/// A spike only counts once it carries real mass.
pub const GATE_SPIKE_MIN_INLIERS: usize = 20;

/// While the inlier window is still this young, concentration identifies true
/// alignment.
pub const GATE_SPIKE_MAX_SPAN_FRAMES: u32 = 16;

/// Share of the candidate's mass near its offset, in hundredths, that counts
/// as tight.
pub const GATE_SPIKE_MIN_CONCENTRATION_PERCENT: u32 = 95;

/// Share of the candidate's mass near its offset, in hundredths, that the
/// gate asks for.
pub const GATE_MIN_CONCENTRATION_PERCENT: u32 = 50;

/// At least this many distinct query hashes must align with the winner: a
/// single hash repeating at many query times adds no identity.
pub const GATE_MIN_UNIQUE_ALIGNED: usize = 4;

/// Looser bar for surfacing an interim candidate.
pub const CANDIDATE_MIN_INLIERS: usize = 4;

pub const CANDIDATE_MIN_CONCENTRATION_PERCENT: u32 = 30;

/// Give up after this much captured audio without a confident match.
pub const MAX_CAPTURE_MICROS: u64 = 12_000_000;

/// One-time deadline extension for a live candidate: evidence of a capture
/// that starts mid-song accrues slowly but steadily.
pub const CANDIDATE_EXTENSION_MICROS: u64 = 6_000_000;

/// Where a session stands.
#[derive(Debug, Clone, Copy, PartialEq, Eq, Structural)]
pub enum RecognitionState {
    Listening,
    Candidate,
    ConfidentMatch,
    NoMatch,
}

/// The session has ended.
pub open spec fn is_terminal(state: RecognitionState) -> bool {
    state == RecognitionState::ConfidentMatch || state == RecognitionState::NoMatch
}

/// Nearly all of the candidate's mass lies near its offset.
pub open spec fn is_tight(top: MatchOutcome) -> bool {
    top.concentrated(95, 100)
}

/// The acceptance gate.
///
/// With several recordings the margin over the runner-up separates truth from
/// lucky collisions. A catalog of one recording has no runner-up: there the
/// alignment must be tight, and either massive or an early spike.
pub open spec fn accepts(top: MatchOutcome, solo: bool) -> bool {
    if solo {
        is_tight(top) && (top.inliers >= 64 || (top.inliers >= 20 && top.query_span_frames <= 16))
    } else {
        top.inliers >= 7 && top.concentrated(50, 100) && top.unique_aligned >= 4 && top.leads_by(3, 1)
    }
}

/// Enough evidence to show a candidate.
pub open spec fn is_candidate(top: MatchOutcome) -> bool {
    top.inliers >= 4 && top.concentrated(30, 100)
}

/// The acceptance gate, computed.
pub fn passes_gate(top: &MatchOutcome, solo: bool) -> (r: bool)
    ensures
        r == accepts(*top, solo),
{
    if solo {
        let tight: bool = top.concentration_at_least(GATE_SPIKE_MIN_CONCENTRATION_PERCENT, 100);
        tight && (top.inliers >= GATE_SOLO_MIN_INLIERS || (top.inliers >= GATE_SPIKE_MIN_INLIERS
            && top.query_span_frames <= GATE_SPIKE_MAX_SPAN_FRAMES))
    } else {
        top.inliers >= GATE_MIN_INLIERS && top.concentration_at_least(
            GATE_MIN_CONCENTRATION_PERCENT,
            100,
        ) && top.unique_aligned >= GATE_MIN_UNIQUE_ALIGNED && top.margin_at_least(
            GATE_MIN_MARGIN,
            1,
        )
    }
}

/// The candidate bar, computed.
pub fn passes_candidate_bar(top: &MatchOutcome) -> (r: bool)
    ensures
        r == is_candidate(*top),
{
    top.inliers >= CANDIDATE_MIN_INLIERS && top.concentration_at_least(
        CANDIDATE_MIN_CONCENTRATION_PERCENT,
        100,
    )
}

/// The part of a session that the deadline acts on.
#[derive(Debug, Clone, Copy, PartialEq, Eq, Structural)]
pub struct Deadline {
    pub state: RecognitionState,
    /// The one-time extension for a live candidate was granted.
    pub extension_used: bool,
}

/// What the capture deadline does to a session that has captured for
/// `elapsed_us` microseconds; `live` says whether its latest candidate is
/// tight.
///
/// At the base deadline a live candidate earns one extension, everything else
/// that is still open ends without a match; the extended deadline is final.
/// No way leads out of an ended session.
pub open spec fn after_deadline(d: Deadline, live: bool, elapsed_us: nat) -> Deadline {
    if is_terminal(d.state) {
        d
    } else if !d.extension_used && elapsed_us > 12_000_000 {
        if d.state == RecognitionState::Candidate && live {
            Deadline { extension_used: true, ..d }
        } else {
            Deadline { state: RecognitionState::NoMatch, ..d }
        }
    } else if d.extension_used && elapsed_us > 18_000_000 {
        Deadline { state: RecognitionState::NoMatch, ..d }
    } else {
        d
    }
}

/// The state after evaluating the catalog, with the best candidate `top`.
/// Where it does not clear the candidate bar, the session is back to plain
/// listening, and no stray alignment earns it an extension.
pub open spec fn after_evaluation(
    d: Deadline,
    top: Option<MatchOutcome>,
    solo: bool,
    elapsed_us: nat,
) -> Deadline {
    let live = top is Some && is_tight(top->0);
    if is_terminal(d.state) {
        d
    } else if top is Some && accepts(top->0, solo) {
        Deadline { state: RecognitionState::ConfidentMatch, ..d }
    } else if top is Some && is_candidate(top->0) {
        after_deadline(
            Deadline { state: RecognitionState::Candidate, ..d },
            live,
            elapsed_us,
        )
    } else {
        after_deadline(
            Deadline { state: RecognitionState::Listening, ..d },
            live,
            elapsed_us,
        )
    }
}

/// The latest anchor among the fingerprints.
pub open spec fn latest_anchor(fps: Seq<QueryFp>) -> Option<u32>
    decreases fps.len(),
{
    if fps.len() == 0 {
        None
    } else {
        match latest_anchor(fps.drop_last()) {
            Some(t) => if t >= fps.last().anchor_time {
                Some(t)
            } else {
                Some(fps.last().anchor_time)
            },
            None => Some(fps.last().anchor_time),
        }
    }
}

/// `a - b`, at least zero.
pub open spec fn minus(a: u32, b: u32) -> int {
    if a >= b {
        a - b
    } else {
        0
    }
}

/// The fingerprints of the trailing window: those whose anchors lie within
/// `frames` of the latest one, in order.
pub open spec fn trailing(fps: Seq<QueryFp>, frames: u32) -> Seq<QueryFp> {
    match latest_anchor(fps) {
        Some(latest) => fps.filter(|f: QueryFp| f.anchor_time >= minus(latest, frames)),
        None => fps,
    }
}

/// The catalog is to be evaluated again: the audio has advanced by the
/// cadence since the last evaluation.
pub open spec fn is_due(latest: Option<u32>, previous: Option<u32>, stride: u32) -> bool {
    latest is Some && (previous is None || minus(latest->0, previous->0) >= stride)
}

/// One streaming recognition session.
pub struct RecognitionSession {
    /// Fingerprints received so far, bounded to the trailing window.
    pub fps: Vec<QueryFp>,
    pub state: RecognitionState,
    /// Best candidate of the latest evaluation.
    pub outcome: Option<MatchOutcome>,
    pub batches: u64,
    /// Number of catalog evaluations.
    pub evaluations: u64,
    /// Width of the trailing query window in frames. Fingerprint density
    /// depends on content, so the window is not a cap on their number.
    pub max_window_frames: u32,
    /// Latest anchor included in a catalog evaluation.
    pub last_evaluated_anchor: Option<u32>,
    pub min_query_stride_frames: u32,
    /// The one-time live-candidate extension was granted.
    pub extension_used: bool,
}

/// `n`, or the largest `u32` where it does not fit.
pub open spec fn clip_u32(n: int) -> u32 {
    if n <= u32::MAX {
        n as u32
    } else {
        u32::MAX
    }
}

fn clip(n: u64) -> (r: u32)
    ensures
        r == clip_u32(n as int),
{
    if n <= u32::MAX as u64 {
        n as u32
    } else {
        u32::MAX
    }
}

/// `max(n, 1)`.
pub open spec fn at_least_one(n: usize) -> int {
    if n == 0 {
        1
    } else {
        n as int
    }
}

/// The fingerprints whose hash the catalog knows.
pub open spec fn known_in(m: Map<u32, Seq<Posting>>) -> spec_fn(QueryFp) -> bool {
    |f: QueryFp| m.contains_key(f.hash)
}

impl RecognitionSession {
    /// The part that the deadline acts on.
    pub open spec fn deadline(&self) -> Deadline {
        Deadline { state: self.state, extension_used: self.extension_used }
    }

    /// The latest candidate is tight: live music rather than stationary
    /// scatter.
    pub open spec fn is_live(&self) -> bool {
        self.outcome is Some && is_tight(self.outcome->0)
    }

    /// A fresh session for fingerprints of `hop` samples per frame: the
    /// window holds the frames of ten seconds, rounded down, and the cadence
    /// is a quarter of a second, rounded up.
    pub fn new(sample_rate_hz: u32, hop: usize) -> (s: Self)
        ensures
            s.fps@.len() == 0,
            s.state == RecognitionState::Listening,
            s.outcome is None,
            s.batches == 0,
            s.evaluations == 0,
            s.max_window_frames == clip_u32(10 * sample_rate_hz as int / at_least_one(hop)),
            s.last_evaluated_anchor is None,
            s.min_query_stride_frames == (sample_rate_hz as int + 4 * at_least_one(hop) - 1) / (4
                * at_least_one(hop)),
            !s.extension_used,
    {
        let rate: u128 = sample_rate_hz as u128;
        let h: u128 = if hop == 0 {
            1
        } else {
            hop as u128
        };
        let window: u128 = 10 * rate / h;
        let stride: u128 = (rate + 4 * h - 1) / (4 * h);
        proof {
            let (r, k) = (rate as int, h as int);
            vstd::arithmetic::div_mod::lemma_div_nonincreasing(10 * r, k);
            assert(r + 4 * k - 1 <= (4 * k) * r || r == 0) by (nonlinear_arith)
                requires
                    r >= 0,
                    k >= 1,
            ;
            if r == 0 {
                vstd::arithmetic::div_mod::lemma_basic_div(r + 4 * k - 1, 4 * k);
            } else {
                vstd::arithmetic::div_mod::lemma_div_is_ordered(r + 4 * k - 1, (4 * k) * r, 4 * k);
                vstd::arithmetic::div_mod::lemma_div_multiples_vanish(r, 4 * k);
            }
        }
        RecognitionSession {
            fps: Vec::new(),
            state: RecognitionState::Listening,
            outcome: None,
            batches: 0,
            evaluations: 0,
            max_window_frames: clip(window as u64),
            last_evaluated_anchor: None,
            min_query_stride_frames: stride as u32,
            extension_used: false,
        }
    }

    /// Fingerprints of the session, and how many of them carry a hash that
    /// exists anywhere in the catalog. Their ratio tells a healthy capture
    /// from a broken chain.
    pub fn catalog_hit_rate(&self, index: &InMemoryIndex) -> (r: (usize, usize))
        requires
            index.wf(),
        ensures
            r.0 == count_where(self.fps@, known_in(index@)),
            r.1 == self.fps.len(),
    {
        let ghost known = known_in(index@);
        let ghost one = |f: QueryFp| 1nat;
        let mut hits: usize = 0;
        let mut i: usize = 0;
        assert(self.fps@.take(0) =~= Seq::<QueryFp>::empty());
        while i < self.fps.len()
            invariant
                i <= self.fps.len(),
                index.wf(),
                known == known_in(index@),
                one == (|f: QueryFp| 1nat),
                hits <= i,
                hits == crate::sort::sum_where(self.fps@.take(i as int), known, one),
            decreases self.fps.len() - i,
        {
            assert(self.fps@.take(i + 1).drop_last() =~= self.fps@.take(i as int));
            if index.postings_for(self.fps[i].hash).is_some() {
                hits = hits + 1;
            }
            i = i + 1;
        }
        assert(self.fps@.take(i as int) =~= self.fps@);
        (hits, self.fps.len())
    }

    /// Eagerly enforce the capture timeout: a client that stops streaming
    /// still gets a terminal event instead of hanging until its next batch.
    /// Returns the state after any transition.
    pub fn poll_timeout(&mut self, elapsed_us: u64) -> (state: RecognitionState)
        ensures
            final(self).deadline() == after_deadline(
                old(self).deadline(),
                old(self).is_live(),
                elapsed_us as nat,
            ),
            *final(self) == (RecognitionSession {
                state: final(self).state,
                extension_used: final(self).extension_used,
                ..*old(self)
            }),
            state == final(self).state,
    {
        if self.state == RecognitionState::ConfidentMatch || self.state
            == RecognitionState::NoMatch {
            return self.state;
        }
        let live: bool = match &self.outcome {
            Some(o) => o.concentration_at_least(GATE_SPIKE_MIN_CONCENTRATION_PERCENT, 100),
            None => false,
        };
        if !self.extension_used && elapsed_us > MAX_CAPTURE_MICROS {
            if self.state == RecognitionState::Candidate && live {
                self.extension_used = true;
                return self.state;
            }
            self.state = RecognitionState::NoMatch;
        } else if self.extension_used && elapsed_us > MAX_CAPTURE_MICROS
            + CANDIDATE_EXTENSION_MICROS {
            self.state = RecognitionState::NoMatch;
        }
        self.state
    }

    /// Advance the state machine after an evaluation whose best candidate is
    /// `top`. An ended session stays as it is.
    pub fn conclude(&mut self, top: Option<MatchOutcome>, solo: bool, elapsed_us: u64) -> (state:
        RecognitionState)
        ensures
            final(self).deadline() == after_evaluation(
                old(self).deadline(),
                top,
                solo,
                elapsed_us as nat,
            ),
            *final(self) == (RecognitionSession {
                state: final(self).state,
                extension_used: final(self).extension_used,
                outcome: if is_terminal(old(self).state) {
                    old(self).outcome
                } else {
                    top
                },
                ..*old(self)
            }),
            state == final(self).state,
    {
        if self.state == RecognitionState::ConfidentMatch || self.state
            == RecognitionState::NoMatch {
            return self.state;
        }
        self.outcome = top;
        if let Some(top) = top {
            if passes_gate(&top, solo) {
                self.state = RecognitionState::ConfidentMatch;
                return self.state;
            }
            if passes_candidate_bar(&top) {
                self.state = RecognitionState::Candidate;
                // The deadline is enforced on this path too: during streaming
                // this branch returns at every evaluation.
                return self.poll_timeout(elapsed_us);
            }
        }
        self.state = RecognitionState::Listening;
        self.poll_timeout(elapsed_us)
    }

    /// Take in one batch and trim to the trailing window; returns the latest
    /// anchor.
    fn absorb(&mut self, batch: Vec<QueryFp>) -> (latest: Option<u32>)
        ensures
            *final(self) == (RecognitionSession { fps: final(self).fps, ..*old(self) }),
            final(self).fps@ == trailing(old(self).fps@ + batch@, old(self).max_window_frames),
            latest == latest_anchor(old(self).fps@ + batch@),
    {
        let mut i: usize = 0;
        let ghost had = self.fps@;
        while i < batch.len()
            invariant
                i <= batch.len(),
                self.fps@ == had + batch@.take(i as int),
                *self == (RecognitionSession { fps: self.fps, ..*old(self) }),
            decreases batch.len() - i,
        {
            self.fps.push(batch[i]);
            assert(batch@.take(i + 1) =~= batch@.take(i as int).push(batch[i as int]));
            i = i + 1;
        }
        assert(batch@.take(i as int) =~= batch@);
        let latest: Option<u32> = find_latest(&self.fps);
        if let Some(t) = latest {
            let cutoff: u32 = t.saturating_sub(self.max_window_frames);
            self.fps = keep_from(&self.fps, cutoff);
            assert(self.fps@ == trailing(had + batch@, old(self).max_window_frames));
        }
        latest
    }

    /// Ingest one batch and advance the state machine.
    ///
    /// `index` is the active catalog; `params` and `rarity` configure the
    /// matcher. Returns the state to report to the client.
    pub fn ingest(
        &mut self,
        batch: Vec<QueryFp>,
        index: &InMemoryIndex,
        params: &MatchParams,
        rarity: &RarityTable,
        elapsed_us: u64,
    ) -> (state: RecognitionState)
        requires
            index.wf(),
            index.is_finalized(),
        ensures
            state == final(self).state,
            is_terminal(old(self).state) ==> *final(self) == *old(self),
            !is_terminal(old(self).state) ==> ingested(
                *old(self),
                *final(self),
                batch@,
                *index,
                *params,
                *rarity,
                elapsed_us as nat,
            ),
    {
        if self.state == RecognitionState::ConfidentMatch || self.state
            == RecognitionState::NoMatch {
            return self.state;
        }
        self.batches = self.batches.saturating_add(1);
        let latest: Option<u32> = self.absorb(batch);
        let due: bool = match latest {
            Some(t) => match self.last_evaluated_anchor {
                Some(previous) => t.saturating_sub(previous) >= self.min_query_stride_frames,
                None => true,
            },
            None => false,
        };
        if !due {
            return self.poll_timeout(elapsed_us);
        }
        self.last_evaluated_anchor = latest;
        self.evaluations = self.evaluations.saturating_add(1);
        let outcomes: Vec<MatchOutcome> = index.query(self.fps.as_slice(), params, rarity);
        let top: Option<MatchOutcome> = if outcomes.len() > 0 {
            Some(outcomes[0])
        } else {
            None
        };
        let solo: bool = index.n_recordings() < 2;
        proof {
            assert(best_match(
                *index,
                trailing(old(self).fps@ + batch@, old(self).max_window_frames),
                *params,
                *rarity,
                top,
            ));
        }
        self.conclude(top, solo, elapsed_us)
    }
}

/// `top` heads the shortlist of the query.
pub open spec fn best_match(
    index: InMemoryIndex,
    fps: Seq<QueryFp>,
    params: MatchParams,
    rarity: RarityTable,
    top: Option<MatchOutcome>,
) -> bool {
    exists|out: Seq<MatchOutcome>|
        {
            &&& #[trigger] is_shortlist(
                query_votes(index@, fps, params, rarity),
                params.tolerance(),
                index.recording_count(),
                params.shortlist_len as nat,
                out,
            )
            &&& top == if out.len() > 0 {
                Some(out[0])
            } else {
                None
            }
        }
}

/// One more, at most the largest `u64`.
pub open spec fn counted(n: u64) -> u64 {
    if n < u64::MAX {
        (n + 1) as u64
    } else {
        n
    }
}

/// What a batch does to an open session.
pub open spec fn ingested(
    before: RecognitionSession,
    after: RecognitionSession,
    batch: Seq<QueryFp>,
    index: InMemoryIndex,
    params: MatchParams,
    rarity: RarityTable,
    elapsed_us: nat,
) -> bool {
    let latest = latest_anchor(before.fps@ + batch);
    let due = is_due(latest, before.last_evaluated_anchor, before.min_query_stride_frames);
    &&& after.batches == counted(before.batches)
    &&& after.fps@ == trailing(before.fps@ + batch, before.max_window_frames)
    &&& after.max_window_frames == before.max_window_frames
    &&& after.min_query_stride_frames == before.min_query_stride_frames
    &&& !due ==> {
        &&& after.last_evaluated_anchor == before.last_evaluated_anchor
        &&& after.evaluations == before.evaluations
        &&& after.outcome == before.outcome
        &&& after.deadline() == after_deadline(before.deadline(), before.is_live(), elapsed_us)
    }
    &&& due ==> {
        &&& after.last_evaluated_anchor == latest
        &&& after.evaluations == counted(before.evaluations)
        &&& best_match(index, after.fps@, params, rarity, after.outcome)
        &&& after.deadline() == after_evaluation(
            before.deadline(),
            after.outcome,
            index.recording_count() < 2,
            elapsed_us,
        )
    }
}

/// The latest anchor, computed.
fn find_latest(fps: &Vec<QueryFp>) -> (latest: Option<u32>)
    ensures
        latest == latest_anchor(fps@),
{
    let mut latest: Option<u32> = None;
    let mut i: usize = 0;
    while i < fps.len()
        invariant
            i <= fps.len(),
            latest == latest_anchor(fps@.take(i as int)),
        decreases fps.len() - i,
    {
        assert(fps@.take(i + 1).drop_last() =~= fps@.take(i as int));
        let t: u32 = fps[i].anchor_time;
        latest =
        match latest {
            Some(u) => if u >= t {
                Some(u)
            } else {
                Some(t)
            },
            None => Some(t),
        };
        i = i + 1;
    }
    assert(fps@.take(i as int) =~= fps@);
    latest
}

/// The fingerprints from `cutoff` on, in order.
fn keep_from(fps: &Vec<QueryFp>, cutoff: u32) -> (kept: Vec<QueryFp>)
    ensures
        kept@ == fps@.filter(|f: QueryFp| f.anchor_time >= cutoff as int),
{
    let ghost p = |f: QueryFp| f.anchor_time >= cutoff as int;
    let mut kept: Vec<QueryFp> = Vec::new();
    let mut i: usize = 0;
    proof {
        reveal(Seq::filter);
        assert(fps@.take(0) =~= Seq::<QueryFp>::empty());
    }
    while i < fps.len()
        invariant
            i <= fps.len(),
            p == (|f: QueryFp| f.anchor_time >= cutoff as int),
            kept@ == fps@.take(i as int).filter(p),
        decreases fps.len() - i,
    {
        proof {
            reveal(Seq::filter);
            assert(fps@.take(i + 1).drop_last() =~= fps@.take(i as int));
        }
        if fps[i].anchor_time >= cutoff {
            kept.push(fps[i]);
        }
        i = i + 1;
    }
    assert(fps@.take(i as int) =~= fps@);
    kept
}

/// A session that is not live ends at the base deadline, without extension.
pub proof fn law_weak_session_dies_on_schedule(d: Deadline, elapsed_us: nat)
    requires
        !d.extension_used,
        elapsed_us > MAX_CAPTURE_MICROS,
    ensures
        is_terminal(after_deadline(d, false, elapsed_us).state),
        !after_deadline(d, false, elapsed_us).extension_used,
{
}

/// So does one whose evidence has sunk below the candidate bar, however tight
/// what is left of it may be.
pub proof fn law_lost_candidate_dies_on_schedule(
    d: Deadline,
    top: Option<MatchOutcome>,
    solo: bool,
    elapsed_us: nat,
)
    requires
        !is_terminal(d.state),
        !d.extension_used,
        elapsed_us > MAX_CAPTURE_MICROS,
        top matches Some(o) ==> !accepts(o, solo) && !is_candidate(o),
    ensures
        after_evaluation(d, top, solo, elapsed_us) == (Deadline {
            state: RecognitionState::NoMatch,
            extension_used: false,
        }),
{
}

/// A live candidate at the base deadline stays a candidate, and the extension
/// is granted once: a second look does not grant another.
pub proof fn law_live_candidate_earns_one_extension(d: Deadline, elapsed_us: nat, later_us: nat)
    requires
        d.state == RecognitionState::Candidate,
        !d.extension_used,
        MAX_CAPTURE_MICROS < elapsed_us <= later_us,
    ensures
        after_deadline(d, true, elapsed_us) == (Deadline { extension_used: true, ..d }),
        later_us <= 18_000_000 ==> after_deadline(
            after_deadline(d, true, elapsed_us),
            true,
            later_us,
        ).state == RecognitionState::Candidate,
        later_us > 18_000_000 ==> after_deadline(
            after_deadline(d, true, elapsed_us),
            true,
            later_us,
        ).state == RecognitionState::NoMatch,
{
}

/// No session hangs: past the extended deadline, two looks at the clock end
/// every session.
pub proof fn law_every_session_ends(d: Deadline, live: bool, still_live: bool, elapsed_us: nat)
    requires
        elapsed_us > MAX_CAPTURE_MICROS + CANDIDATE_EXTENSION_MICROS,
    ensures
        is_terminal(
            after_deadline(after_deadline(d, live, elapsed_us), still_live, elapsed_us).state,
        ),
{
}

/// The deadline never turns a session into a match, and it leaves an ended
/// session alone, whatever the clock says.
pub proof fn law_deadline_only_gives_up(d: Deadline, live: bool, elapsed_us: nat)
    ensures
        after_deadline(d, live, elapsed_us).state == d.state || after_deadline(
            d,
            live,
            elapsed_us,
        ).state == RecognitionState::NoMatch,
        is_terminal(d.state) ==> after_deadline(d, live, elapsed_us) == d,
{
}

/// Nor does an evaluation lead out of an ended session.
pub proof fn law_ended_sessions_are_final(
    d: Deadline,
    top: Option<MatchOutcome>,
    solo: bool,
    live: bool,
    elapsed_us: nat,
)
    requires
        is_terminal(d.state),
    ensures
        after_evaluation(d, top, solo, elapsed_us) == d,
        after_deadline(d, live, elapsed_us) == d,
{
}

/// A confident match is only ever claimed on evidence that clears the bar.
pub proof fn law_confidence_needs_the_gate(
    d: Deadline,
    top: Option<MatchOutcome>,
    solo: bool,
    elapsed_us: nat,
)
    requires
        !is_terminal(d.state),
        after_evaluation(d, top, solo, elapsed_us).state == RecognitionState::ConfidentMatch,
    ensures
        top is Some,
        accepts(top->0, solo),
{
}

/// With several recordings, no candidate without a clear margin over the
/// runner-up is accepted.
pub proof fn law_thin_margins_are_refused(top: MatchOutcome)
    requires
        top.next_score > 0,
        top.weighted_score < 3 * top.next_score,
    ensures
        !accepts(top, false),
{
}

/// Every fingerprint of the trailing window is one that was received, and no
/// older than the window; the latest one is always kept.
pub proof fn law_window_is_bounded_by_audio_time(fps: Seq<QueryFp>, frames: u32, f: QueryFp)
    requires
        latest_anchor(fps) is Some,
    ensures
        trailing(fps, frames).contains(f) <==> fps.contains(f) && f.anchor_time >= minus(
            latest_anchor(fps)->0,
            frames,
        ),
{
    broadcast use Seq::lemma_filter_contains_rev;

    let p = |g: QueryFp| g.anchor_time >= minus(latest_anchor(fps)->0, frames);
    let kept = fps.filter(p);
    if kept.contains(f) {
        let i = kept.index_of(f);
        fps.lemma_filter_pred(p, i);
        assert(p(kept[i]));
        assert(fps.contains(f));
    }
    if fps.contains(f) && p(f) {
        let i = fps.index_of(f);
        fps.lemma_filter_contains(p, i);
        assert(kept.contains(f));
    }
}

/// A session turns into a confident match on calibrated evidence and on
/// nothing less. Among several recordings: at least 7 inliers, 4 distinct
/// hashes, half of the candidate's mass near its offset, and three times the
/// score of a runner-up that exists. In a catalog of one recording: 95
/// hundredths of the mass near the offset, and 64 inliers, or 20 within a
/// span of 16 frames. And it does so whenever the evidence is there.
pub proof fn law_confident_matches_have_calibrated_evidence(
    d: Deadline,
    top: Option<MatchOutcome>,
    elapsed_us: nat,
)
    requires
        d.state == RecognitionState::Listening || d.state == RecognitionState::Candidate,
    ensures
        after_evaluation(d, top, false, elapsed_us).state == RecognitionState::ConfidentMatch <==> (
        top is Some && top->0.inliers >= 7 && top->0.unique_aligned >= 4 && 100
            * top->0.inlier_score >= 50 * top->0.weighted_score && top->0.next_score > 0
            && top->0.weighted_score >= 3 * top->0.next_score),
        after_evaluation(d, top, true, elapsed_us).state == RecognitionState::ConfidentMatch <==> (
        top is Some && top->0.weighted_score > 0 && 100 * top->0.inlier_score >= 95
            * top->0.weighted_score && (top->0.inliers >= 64 || (top->0.inliers >= 20
            && top->0.query_span_frames <= 16))),
        GATE_MIN_INLIERS == 7,
        GATE_MIN_UNIQUE_ALIGNED == 4,
        GATE_MIN_CONCENTRATION_PERCENT == 50,
        GATE_MIN_MARGIN == 3,
        GATE_SPIKE_MIN_CONCENTRATION_PERCENT == 95,
        GATE_SOLO_MIN_INLIERS == 64,
        GATE_SPIKE_MIN_INLIERS == 20,
        GATE_SPIKE_MAX_SPAN_FRAMES == 16,
{
}

/// What an open session is after an evaluation that did not confirm it: a
/// candidate with 4 inliers and 30 hundredths of its mass near its offset,
/// plain listening otherwise; and no longer open once its time is up. That is
/// 12 seconds; a candidate with 95 hundredths of its mass near its offset
/// gets 6 more, once.
pub proof fn law_unconfirmed_sessions_follow_the_clock(
    d: Deadline,
    top: Option<MatchOutcome>,
    solo: bool,
    elapsed_us: nat,
)
    requires
        d.state == RecognitionState::Listening || d.state == RecognitionState::Candidate,
        after_evaluation(d, top, solo, elapsed_us).state != RecognitionState::ConfidentMatch,
    ensures
        ({
            let t = after_evaluation(d, top, solo, elapsed_us);
            let shown = top is Some && top->0.inliers >= 4 && top->0.weighted_score > 0 && 100
                * top->0.inlier_score >= 30 * top->0.weighted_score;
            let tight = top is Some && top->0.weighted_score > 0 && 100 * top->0.inlier_score
                >= 95 * top->0.weighted_score;
            let over = if d.extension_used {
                elapsed_us > 18_000_000
            } else {
                elapsed_us > 12_000_000 && !(shown && tight)
            };
            &&& t.state == if over {
                RecognitionState::NoMatch
            } else if shown {
                RecognitionState::Candidate
            } else {
                RecognitionState::Listening
            }
            &&& t.extension_used == (d.extension_used || (shown && tight && elapsed_us
                > 12_000_000))
        }),
{
}

/// The same for a look at the clock alone.
pub proof fn law_quiet_sessions_follow_the_clock(d: Deadline, live: bool, elapsed_us: nat)
    requires
        d.state == RecognitionState::Listening || d.state == RecognitionState::Candidate,
    ensures
        ({
            let t = after_deadline(d, live, elapsed_us);
            let earns = d.state == RecognitionState::Candidate && live;
            let over = if d.extension_used {
                elapsed_us > 18_000_000
            } else {
                elapsed_us > 12_000_000 && !earns
            };
            &&& t.state == if over {
                RecognitionState::NoMatch
            } else {
                d.state
            }
            &&& t.extension_used == (d.extension_used || (earns && elapsed_us > 12_000_000))
        }),
{
}

/// The window that a session keeps: the fingerprints, in order, whose anchors
/// lie at most so many frames before the latest one.
pub proof fn law_sessions_keep_the_trailing_window(fps: Seq<QueryFp>, frames: u32, i: int)
    requires
        0 <= i < fps.len(),
        forall|k: int| 0 <= k < fps.len() ==> (#[trigger] fps[k]).anchor_time <= fps[i].anchor_time,
    ensures
        latest_anchor(fps) == Some(fps[i].anchor_time),
        trailing(fps, frames) == fps.filter(
            |f: QueryFp| f.anchor_time + frames >= fps[i].anchor_time,
        ),
{
    lemma_latest_anchor(fps);
    let t = latest_anchor(fps)->0;
    let a = |f: QueryFp| f.anchor_time >= minus(t, frames);
    let b = |f: QueryFp| f.anchor_time + frames >= fps[i].anchor_time;
    lemma_filters_agree(fps, a, b);
}

/// The latest anchor is one of them, and none is later.
proof fn lemma_latest_anchor(fps: Seq<QueryFp>)
    ensures
        fps.len() > 0 ==> latest_anchor(fps) is Some,
        latest_anchor(fps) matches Some(t) ==> {
            &&& exists|k: int| 0 <= k < fps.len() && (#[trigger] fps[k]).anchor_time == t
            &&& forall|k: int| 0 <= k < fps.len() ==> (#[trigger] fps[k]).anchor_time <= t
        },
    decreases fps.len(),
{
    if fps.len() > 0 {
        let rest = fps.drop_last();
        lemma_latest_anchor(rest);
        assert(fps[fps.len() - 1] == fps.last());
        if rest.len() > 0 {
            let k = choose|k: int|
                0 <= k < rest.len() && (#[trigger] rest[k]).anchor_time == latest_anchor(rest)->0;
            assert(fps[k] == rest[k]);
        }
        assert forall|k: int| 0 <= k < fps.len() implies (#[trigger] fps[k]).anchor_time
            <= latest_anchor(fps)->0 by {
            if k < rest.len() {
                assert(rest[k] == fps[k]);
            }
        }
    }
}

/// Tests that agree pick the same.
proof fn lemma_filters_agree(
    s: Seq<QueryFp>,
    a: spec_fn(QueryFp) -> bool,
    b: spec_fn(QueryFp) -> bool,
)
    requires
        forall|k: int| 0 <= k < s.len() ==> a(#[trigger] s[k]) == b(s[k]),
    ensures
        s.filter(a) == s.filter(b),
    decreases s.len(),
{
    reveal(Seq::filter);
    if s.len() > 0 {
        assert forall|k: int| 0 <= k < s.drop_last().len() implies a(#[trigger] s.drop_last()[k])
            == b(s.drop_last()[k]) by {
            assert(s.drop_last()[k] == s[k]);
        }
        lemma_filters_agree(s.drop_last(), a, b);
        assert(a(s[s.len() - 1]) == b(s[s.len() - 1]));
    }
}

/// A batch adds its fingerprints to what the session held. The catalog is
/// asked at the first anchor and then whenever the latest one has moved on by
/// the cadence; the answer is a candidate that shares hashes with the window,
/// and it is there whenever the window meets a posting.
pub proof fn law_sessions_ask_the_catalog(
    before: RecognitionSession,
    after: RecognitionSession,
    batch: Seq<QueryFp>,
    index: InMemoryIndex,
    params: MatchParams,
    rarity: RarityTable,
    elapsed_us: nat,
    i: int,
)
    requires
        ingested(before, after, batch, index, params, rarity, elapsed_us),
        before.evaluations < u64::MAX,
        before.batches < u64::MAX,
        0 <= i < (before.fps@ + batch).len(),
        forall|k: int|
            0 <= k < (before.fps@ + batch).len() ==> (#[trigger] (before.fps@
                + batch)[k]).anchor_time <= (before.fps@ + batch)[i].anchor_time,
    ensures
        ({
            let fps = before.fps@ + batch;
            let t = fps[i].anchor_time;
            let due = match before.last_evaluated_anchor {
                Some(p) => t >= p && t - p >= before.min_query_stride_frames || t < p
                    && before.min_query_stride_frames == 0,
                None => true,
            };
            &&& after.fps@ == fps.filter(
                |f: QueryFp| f.anchor_time + before.max_window_frames >= t,
            )
            &&& after.evaluations == before.evaluations + if due {
                1int
            } else {
                0
            }
            &&& after.batches == before.batches + 1
            &&& after.max_window_frames == before.max_window_frames
            &&& after.min_query_stride_frames == before.min_query_stride_frames
            &&& due ==> after.deadline() == after_evaluation(
                before.deadline(),
                after.outcome,
                index.recording_count() == 0 || index.recording_count() == 1,
                elapsed_us,
            )
            &&& !due ==> after.deadline() == after_deadline(
                before.deadline(),
                before.outcome is Some && before.outcome->0.weighted_score > 0 && 100
                    * before.outcome->0.inlier_score >= 95 * before.outcome->0.weighted_score,
                elapsed_us,
            )
            &&& due ==> after.last_evaluated_anchor == Some(t)
            &&& !due ==> after.last_evaluated_anchor == before.last_evaluated_anchor
                && after.outcome == before.outcome
            &&& due && after.outcome is Some ==> is_backed(
                index@,
                after.fps@,
                params,
                after.outcome->0,
            )
            &&& due && params.shortlist_len > 0 ==> forall|j: int, k: int|
                #![trigger meets(index@, after.fps@, params, j, k)]
                meets(index@, after.fps@, params, j, k) ==> after.outcome is Some
        }),
{
    let fps = before.fps@ + batch;
    law_sessions_keep_the_trailing_window(fps, before.max_window_frames, i);
    let latest = latest_anchor(fps);
    assert((index.recording_count() < 2) == (index.recording_count() == 0
        || index.recording_count() == 1));
    if is_due(latest, before.last_evaluated_anchor, before.min_query_stride_frames) {
        let out = choose|out: Seq<MatchOutcome>|
            {
                &&& #[trigger] is_shortlist(
                    query_votes(index@, after.fps@, params, rarity),
                    params.tolerance(),
                    index.recording_count(),
                    params.shortlist_len as nat,
                    out,
                )
                &&& after.outcome == if out.len() > 0 {
                    Some(out[0])
                } else {
                    None
                }
            };
        law_candidates_share_hashes_with_the_query(
            index@,
            after.fps@,
            params,
            rarity,
            index.recording_count(),
            out,
        );
        if params.shortlist_len > 0 {
            assert forall|j: int, k: int|
                #![trigger meets(index@, after.fps@, params, j, k)]
                meets(index@, after.fps@, params, j, k) implies after.outcome is Some by {
                law_no_recording_is_passed_over(
                    index@,
                    after.fps@,
                    params,
                    rarity,
                    index.recording_count(),
                    out,
                    params.tolerance(),
                    j,
                    k,
                    0,
                );
            }
        }
    }
}

/// Numbers of a session: what does not fit 32 bits counts as the largest that
/// does, a hop of zero as one, and counters stop at their largest value.
pub proof fn law_session_numbers_saturate(n: int, hop: usize, count: u64)
    requires
        n >= 0,
    ensures
        n <= 4_294_967_295 ==> clip_u32(n) == n,
        n > 4_294_967_295 ==> clip_u32(n) == 4_294_967_295,
        hop >= 1 ==> at_least_one(hop) == hop,
        at_least_one(0) == 1,
        count < u64::MAX ==> counted(count) == count + 1,
        count == u64::MAX ==> counted(count) == count,
{
}

} // verus!
