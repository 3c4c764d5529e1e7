//! Decisions of the recognition server.
//!
//! The server loop around it owns sockets, clocks and files; it reports what
//! arrived and when, and carries out what is decided here.
use vstd::prelude::*;
use vstd::utf8::encode_utf8;

use crate::api_error::ApiError;
use crate::limiter::MAX_CONCURRENT_SESSIONS;
use crate::ids::RecordingId;
use crate::matcher::{InMemoryIndex, MatchOutcome, MatchParams, QueryFp, RarityTable};
use crate::bytes::word_at;
use crate::postings::{
    all_tidy, lemma_recording_postings, lemma_with_recording, list_of, recording_postings, tidied,
    with_recording, Posting,
};
use crate::recognition::{
    after_deadline, clip_u32, ingested, is_terminal, known_in,
    law_quiet_sessions_follow_the_clock, RecognitionSession, RecognitionState,
};
use crate::sfp::{
    batch_fingerprints, decode_sfp_batch, is_batch, law_batches_are_read_byte_by_byte,
};
use crate::sort::{
    count_where, law_counting_is_filtering, lemma_permuted_contains, lemma_sum_permuted, ordered,
    permuted, sorted,
};
use crate::text::{
    all_blank, blank, chars_of, ends_with, is_prefix, is_suffix, law_parts_are_cut_out,
    law_texts_are_blank_or_not, law_trimming_takes_white_space_from_both_ends, parse_number,
    parsed_number, starts_with, string_of, trim, trimmed,
};

verus! {

/// Max bytes of one fingerprint batch (a window of ten seconds is about
/// 2 KB).
pub const MAX_BATCH_BYTES: usize = 262_144;

/// Idle sessions are dropped after this long.
pub const SESSION_TTL_US: u64 = 120_000_000;

/// Longest link that an upload may name, in bytes.
pub const MAX_LINK_BYTES: usize = 2048;

/// Samples per frame of the fingerprints that clients send.
pub const CLIENT_HOP: usize = 1024;

// ---- incoming batches ----

/// What a binary message turns out to be.
#[derive(Debug)]
pub enum Incoming {
    /// Refused, and the connection ends.
    TooLarge,
    /// Refused; the client may go on.
    Malformed,
    Batch { sample_rate_hz: u32, fps: Vec<(u32, u32)> },
}

/// Sort a binary message.
pub fn classify_message(bytes: &[u8]) -> (r: Incoming)
    ensures
        r is TooLarge <==> bytes.len() > MAX_BATCH_BYTES,
        r is Malformed <==> bytes.len() <= MAX_BATCH_BYTES && !is_batch(bytes@),
        r matches Incoming::Batch { sample_rate_hz, fps } ==> is_batch(bytes@) && sample_rate_hz
            == crate::bytes::le_at(bytes@, 8, 4) && fps@ == batch_fingerprints(bytes@),
{
    if bytes.len() > MAX_BATCH_BYTES {
        return Incoming::TooLarge;
    }
    match decode_sfp_batch(bytes) {
        Some((sample_rate_hz, fps)) => Incoming::Batch { sample_rate_hz, fps },
        None => Incoming::Malformed,
    }
}

// ---- live sessions ----

/// A session and when it started.
pub struct LiveSession {
    pub id: u64,
    pub started_us: u64,
    pub session: RecognitionSession,
}

/// Time since `start`, zero where the clock stands before it.
pub open spec fn elapsed(start_us: u64, now_us: u64) -> u64 {
    if now_us >= start_us {
        (now_us - start_us) as u64
    } else {
        0
    }
}

/// The session started less than the idle time ago.
pub open spec fn is_fresh(s: LiveSession, now_us: u64) -> bool {
    elapsed(s.started_us, now_us) < 120_000_000
}

pub open spec fn fresh_sessions(live: Seq<LiveSession>, now_us: u64) -> Seq<LiveSession> {
    live.filter(|s: LiveSession| is_fresh(s, now_us))
}

/// Position of a session, or the length of the table.
pub open spec fn session_at(live: Seq<LiveSession>, id: u64) -> int
    decreases live.len(),
{
    if live.len() == 0 {
        0
    } else if live[0].id == id {
        0
    } else {
        1 + session_at(live.drop_first(), id)
    }
}

/// A session as it is when its first batch arrives.
pub open spec fn is_new_session(s: RecognitionSession, sample_rate_hz: u32) -> bool {
    &&& s.fps@.len() == 0
    &&& s.state == RecognitionState::Listening
    &&& s.outcome is None
    &&& s.batches == 0
    &&& s.evaluations == 0
    &&& s.max_window_frames == clip_u32(10 * sample_rate_hz as int / 1024)
    &&& s.last_evaluated_anchor is None
    &&& s.min_query_stride_frames == (sample_rate_hz as int + 4095) / 4096
    &&& !s.extension_used
}

/// Fingerprints as query fingerprints.
pub open spec fn as_query(fps: Seq<(u32, u32)>) -> Seq<QueryFp> {
    fps.map_values(|f: (u32, u32)| QueryFp { hash: f.0, anchor_time: f.1 })
}

/// What a batch did: the numbers to report to the client.
#[derive(Debug)]
pub struct BatchReport {
    pub state: RecognitionState,
    pub outcome: Option<MatchOutcome>,
    /// Fingerprints whose hash the catalog knows, and fingerprints held.
    pub hits: usize,
    pub held: usize,
    pub capture_us: u64,
    pub batches: u64,
}

/// A session that ran out of time.
#[derive(Debug, Clone, Copy, PartialEq, Eq, Structural)]
pub struct TimeoutReport {
    pub hits: usize,
    pub held: usize,
    pub capture_us: u64,
}

/// What a batch does to one session: nothing once it has ended.
pub open spec fn batch_step(
    before: RecognitionSession,
    after: RecognitionSession,
    fps: Seq<(u32, u32)>,
    index: InMemoryIndex,
    params: MatchParams,
    rarity: RarityTable,
    capture_us: u64,
) -> bool {
    if is_terminal(before.state) {
        after == before
    } else {
        ingested(before, after, as_query(fps), index, params, rarity, capture_us as nat)
    }
}

/// Only session `id` differs between the tables; it is new at the end of the
/// table where it was not there.
pub open spec fn touched_one(
    kept: Seq<LiveSession>,
    live: Seq<LiveSession>,
    id: u64,
    now_us: u64,
) -> bool {
    let i = session_at(kept, id);
    &&& live.len() == if i < kept.len() {
        kept.len()
    } else {
        kept.len() + 1
    }
    &&& 0 <= i < live.len()
    &&& forall|k: int| 0 <= k < kept.len() && k != i ==> #[trigger] live[k] == kept[k]
    &&& live[i].id == id
    &&& live[i].started_us == if i < kept.len() {
        kept[i].started_us
    } else {
        now_us
    }
}

/// Session `id` took the batch in, from its state in the table or from a
/// fresh start.
pub open spec fn took_batch(
    kept: Seq<LiveSession>,
    live: Seq<LiveSession>,
    id: u64,
    sample_rate_hz: u32,
    fps: Seq<(u32, u32)>,
    index: InMemoryIndex,
    params: MatchParams,
    rarity: RarityTable,
    capture_us: u64,
) -> bool {
    let i = session_at(kept, id);
    exists|before: RecognitionSession|
        {
            &&& if i < kept.len() {
                before == kept[i].session
            } else {
                is_new_session(before, sample_rate_hz)
            }
            &&& #[trigger] batch_step(
                before,
                live[i].session,
                fps,
                index,
                params,
                rarity,
                capture_us,
            )
        }
}

/// The numbers of a report are those of the session.
pub open spec fn reports(s: LiveSession, now_us: u64, index: InMemoryIndex, r: BatchReport) -> bool {
    &&& r.capture_us == elapsed(s.started_us, now_us)
    &&& r.state == s.session.state
    &&& r.outcome == s.session.outcome
    &&& r.batches == s.session.batches
    &&& r.hits == count_where(s.session.fps@, known_in(index@))
    &&& r.held == s.session.fps@.len()
}

/// No more sessions than the server serves at a time.
pub open spec fn within_cap(live: Seq<LiveSession>) -> bool {
    live.len() <= MAX_CONCURRENT_SESSIONS
}

/// Dropping stale sessions never adds one.
proof fn lemma_fresh_are_fewer(live: Seq<LiveSession>, now_us: u64)
    ensures
        fresh_sessions(live, now_us).len() <= live.len(),
    decreases live.len(),
{
    reveal(Seq::filter);
    if live.len() > 0 {
        lemma_fresh_are_fewer(live.drop_last(), now_us);
    }
}

/// The live sessions of the server.
pub struct SessionTable {
    pub live: Vec<LiveSession>,
}

impl SessionTable {
    pub fn new() -> (t: Self)
        ensures
            t.live@.len() == 0,
            within_cap(t.live@),
    {
        SessionTable { live: Vec::new() }
    }

    /// Number of live sessions.
    pub fn active(&self) -> (n: usize)
        ensures
            n == self.live@.len(),
    {
        self.live.len()
    }

    fn find(&self, id: u64) -> (i: usize)
        ensures
            i == session_at(self.live@, id),
            i <= self.live.len(),
            i < self.live.len() ==> self.live[i as int].id == id,
    {
        let mut i: usize = 0;
        assert(self.live@.skip(0) =~= self.live@);
        while i < self.live.len()
            invariant
                i <= self.live.len(),
                session_at(self.live@, id) == i + session_at(self.live@.skip(i as int), id),
            decreases self.live.len() - i,
        {
            if self.live[i].id == id {
                return i;
            }
            assert(self.live@.skip(i as int).drop_first() =~= self.live@.skip(i + 1));
            i = i + 1;
        }
        i
    }

    /// Drop the sessions that have outlived the idle time.
    pub fn expire(&mut self, now_us: u64)
        ensures
            final(self).live@ == fresh_sessions(old(self).live@, now_us),
            within_cap(old(self).live@) ==> within_cap(final(self).live@),
    {
        proof {
            lemma_fresh_are_fewer(self.live@, now_us);
        }
        let ghost p = |s: LiveSession| is_fresh(s, now_us);
        let ghost all = self.live@;
        let mut i: usize = 0;
        let ghost mut done: int = 0;
        proof {
            reveal(Seq::filter);
            assert(all.take(0) =~= Seq::<LiveSession>::empty());
            assert(self.live@ =~= all.take(0).filter(p) + all.skip(0));
        }
        while i < self.live.len()
            invariant
                p == (|s: LiveSession| is_fresh(s, now_us)),
                0 <= done <= all.len(),
                i == all.take(done).filter(p).len(),
                self.live@ == all.take(done).filter(p) + all.skip(done),
            decreases all.len() - done,
        {
            let ghost kept = all.take(done).filter(p);
            proof {
                reveal(Seq::filter);
                assert(all.take(done + 1).drop_last() =~= all.take(done));
                assert(self.live@[i as int] == all[done]);
                assert(all.skip(done) =~= seq![all[done]] + all.skip(done + 1));
            }
            let start: u64 = self.live[i].started_us;
            let age: u64 = if now_us >= start {
                now_us - start
            } else {
                0
            };
            if age < SESSION_TTL_US {
                proof {
                    assert(all.take(done + 1).filter(p) =~= kept.push(all[done]));
                    assert(self.live@ =~= kept.push(all[done]) + all.skip(done + 1));
                }
                i = i + 1;
            } else {
                self.live.remove(i);
                proof {
                    assert(all.take(done + 1).filter(p) =~= kept);
                    assert(self.live@ =~= kept + all.skip(done + 1));
                }
            }
            proof {
                done = done + 1;
            }
        }
        proof {
            assert(done == all.len());
            assert(all.take(done) =~= all);
            assert(all.skip(done) =~= Seq::<LiveSession>::empty());
            assert(self.live@ =~= all.filter(p));
        }
    }

    /// One decoded batch for session `id`: stale sessions go, the session is
    /// made on its first batch, and it takes the batch in. Where the server
    /// already serves as many sessions as it may, a new one is refused.
    pub fn on_batch(
        &mut self,
        id: u64,
        now_us: u64,
        sample_rate_hz: u32,
        fps: &Vec<(u32, u32)>,
        index: &InMemoryIndex,
        params: &MatchParams,
        rarity: &RarityTable,
    ) -> (r: Result<BatchReport, ApiError>)
        requires
            index.wf(),
            index.is_finalized(),
        ensures
            within_cap(old(self).live@) ==> within_cap(final(self).live@),
            ({
                let kept = fresh_sessions(old(self).live@, now_us);
                let i = session_at(kept, id);
                match r {
                    Err(e) => {
                        &&& e == ApiError::SessionLimit
                        &&& i == kept.len()
                        &&& kept.len() >= MAX_CONCURRENT_SESSIONS
                        &&& final(self).live@ == kept
                    },
                    Ok(report) => {
                        &&& i < kept.len() || kept.len() < MAX_CONCURRENT_SESSIONS
                        &&& touched_one(kept, final(self).live@, id, now_us)
                        &&& took_batch(
                            kept,
                            final(self).live@,
                            id,
                            sample_rate_hz,
                            fps@,
                            *index,
                            *params,
                            *rarity,
                            report.capture_us,
                        )
                        &&& reports(final(self).live@[i], now_us, *index, report)
                    },
                }
            }),
    {
        self.expire(now_us);
        let ghost kept = self.live@;
        let i: usize = self.find(id);
        if i == self.live.len() {
            if self.live.len() >= MAX_CONCURRENT_SESSIONS {
                return Err(ApiError::SessionLimit);
            }
            let session = RecognitionSession::new(sample_rate_hz, CLIENT_HOP);
            self.live.push(LiveSession { id, started_us: now_us, session });
        }
        let ghost before = self.live@[i as int].session;
        assert(i >= kept.len() ==> is_new_session(before, sample_rate_hz));
        let start: u64 = self.live[i].started_us;
        let capture_us: u64 = if now_us >= start {
            now_us - start
        } else {
            0
        };
        let batch: Vec<QueryFp> = to_query(fps);
        let ghost held = self.live@;
        let state: RecognitionState = self.live[i].session.ingest(
            batch,
            index,
            params,
            rarity,
            capture_us,
        );
        let (hits, n) = self.live[i].session.catalog_hit_rate(index);
        proof {
            assert(self.live@ =~= held.update(i as int, self.live@[i as int]));
            assert(batch_step(
                before,
                self.live@[i as int].session,
                fps@,
                *index,
                *params,
                *rarity,
                capture_us,
            ));
        }
        Ok(
            BatchReport {
                state,
                outcome: self.live[i].session.outcome,
                hits,
                held: n,
                capture_us,
                batches: self.live[i].session.batches,
            },
        )
    }

    /// The quarter-second tick of a quiet connection: where its session has
    /// run out of time, or where no batch ever came within the longest
    /// deadline, the connection ends without a match.
    pub fn on_tick(&mut self, id: u64, now_us: u64, connected_us: u64, index: &InMemoryIndex) -> (r:
        Option<TimeoutReport>)
        requires
            index.wf(),
        ensures
            tick_step(old(self).live@, final(self).live@, id, now_us),
            tick_answers(final(self).live@, id, now_us, connected_us, *index, r),
            within_cap(old(self).live@) ==> within_cap(final(self).live@),
    {
        let i: usize = self.find(id);
        let ghost before = self.live@;
        if i == self.live.len() {
            let age: u64 = if now_us >= connected_us {
                now_us - connected_us
            } else {
                0
            };
            if age > 18_000_000 {
                return Some(TimeoutReport { hits: 0, held: 0, capture_us: age });
            }
            return None;
        }
        let start: u64 = self.live[i].started_us;
        let capture_us: u64 = if now_us >= start {
            now_us - start
        } else {
            0
        };
        let state: RecognitionState = self.live[i].session.poll_timeout(capture_us);
        proof {
            assert(self.live@ =~= before.update(i as int, self.live@[i as int]));
            lemma_session_at_update(before, i as int, self.live@[i as int], id);
        }
        if state == RecognitionState::NoMatch {
            let (hits, held) = self.live[i].session.catalog_hit_rate(index);
            return Some(TimeoutReport { hits, held, capture_us });
        }
        None
    }

    /// The connection of session `id` has ended.
    pub fn on_close(&mut self, id: u64)
        ensures
            final(self).live@ == if session_at(old(self).live@, id) < old(self).live@.len() {
                old(self).live@.remove(session_at(old(self).live@, id))
            } else {
                old(self).live@
            },
            within_cap(old(self).live@) ==> within_cap(final(self).live@),
    {
        let i: usize = self.find(id);
        if i < self.live.len() {
            self.live.remove(i);
        }
    }
}

proof fn lemma_session_at_bound(live: Seq<LiveSession>, id: u64)
    ensures
        0 <= session_at(live, id) <= live.len(),
    decreases live.len(),
{
    if live.len() > 0 && live[0].id != id {
        lemma_session_at_bound(live.drop_first(), id);
    }
}

/// Replacing a session by one of the same name keeps its position.
proof fn lemma_session_at_update(live: Seq<LiveSession>, i: int, s: LiveSession, id: u64)
    requires
        i == session_at(live, id),
        0 <= i < live.len(),
        s.id == live[i].id,
    ensures
        session_at(live.update(i, s), id) == i,
    decreases live.len(),
{
    if live[0].id != id {
        let t = live.drop_first();
        lemma_session_at_bound(t, id);
        assert(live.update(i, s).drop_first() =~= t.update(i - 1, s));
        assert(t[i - 1] == live[i]);
        lemma_session_at_update(t, i - 1, s, id);
    }
}

/// A tick only moves the deadline of session `id`.
pub open spec fn tick_step(
    before: Seq<LiveSession>,
    after: Seq<LiveSession>,
    id: u64,
    now_us: u64,
) -> bool {
    let i = session_at(before, id);
    if i == before.len() {
        after == before
    } else {
        &&& after.len() == before.len()
        &&& forall|k: int| 0 <= k < before.len() && k != i ==> #[trigger] after[k] == before[k]
        &&& after[i] == (LiveSession { session: after[i].session, ..before[i] })
        &&& after[i].session == (RecognitionSession {
            state: after[i].session.state,
            extension_used: after[i].session.extension_used,
            ..before[i].session
        })
        &&& after[i].session.deadline() == after_deadline(
            before[i].session.deadline(),
            before[i].session.is_live(),
            elapsed(before[i].started_us, now_us) as nat,
        )
    }
}

/// What a tick answers.
pub open spec fn tick_answers(
    live: Seq<LiveSession>,
    id: u64,
    now_us: u64,
    connected_us: u64,
    index: InMemoryIndex,
    r: Option<TimeoutReport>,
) -> bool {
    let i = session_at(live, id);
    if i == live.len() {
        r == if elapsed(connected_us, now_us) > 18_000_000 {
            Some(TimeoutReport { hits: 0, held: 0, capture_us: elapsed(connected_us, now_us) })
        } else {
            None
        }
    } else {
        let s = live[i];
        &&& r is Some <==> s.session.state == RecognitionState::NoMatch
        &&& r is Some ==> {
            &&& r->0.capture_us == elapsed(s.started_us, now_us)
            &&& r->0.hits == count_where(s.session.fps@, known_in(index@))
            &&& r->0.held == s.session.fps@.len()
        }
    }
}

fn to_query(fps: &Vec<(u32, u32)>) -> (out: Vec<QueryFp>)
    ensures
        out@ == as_query(fps@),
{
    let mut out: Vec<QueryFp> = Vec::new();
    let mut i: usize = 0;
    while i < fps.len()
        invariant
            i <= fps.len(),
            out.len() == i,
            forall|k: int| 0 <= k < i ==> #[trigger] out[k] == as_query(fps@)[k],
        decreases fps.len() - i,
    {
        let f: (u32, u32) = fps[i];
        out.push(QueryFp { hash: f.0, anchor_time: f.1 });
        i = i + 1;
    }
    assert(out@ =~= as_query(fps@));
    out
}

// ---- events ----

/// The event that a client is sent.
#[derive(Debug, Clone, Copy, PartialEq, Eq, Structural)]
pub enum EventKind {
    Listening,
    Candidate,
    Matched,
    NoMatch,
}

/// An event and what it carries.
#[derive(Debug, Clone, Copy, PartialEq, Eq, Structural)]
pub struct EventShape {
    pub kind: EventKind,
    /// The evidence of the best candidate.
    pub evidence: bool,
    /// The share of fingerprints that the catalog knows.
    pub hit_rate: bool,
    /// Title, artist and links of the recording.
    pub metadata: bool,
}

/// The event for a state, with or without a best candidate. A match is
/// announced only with its recording. Every candidate, matched and no-match
/// event carries the hit rate.
pub open spec fn event_of(state: RecognitionState, has_outcome: bool) -> EventShape {
    let kind = match state {
        RecognitionState::ConfidentMatch => if has_outcome {
            EventKind::Matched
        } else {
            EventKind::Listening
        },
        RecognitionState::Candidate => EventKind::Candidate,
        RecognitionState::NoMatch => EventKind::NoMatch,
        RecognitionState::Listening => EventKind::Listening,
    };
    EventShape {
        kind,
        evidence: has_outcome,
        hit_rate: kind != EventKind::Listening,
        metadata: has_outcome && state == RecognitionState::ConfidentMatch,
    }
}

pub fn event_for(state: RecognitionState, has_outcome: bool) -> (e: EventShape)
    ensures
        e == event_of(state, has_outcome),
{
    let kind: EventKind = match state {
        RecognitionState::ConfidentMatch => if has_outcome {
            EventKind::Matched
        } else {
            EventKind::Listening
        },
        RecognitionState::Candidate => EventKind::Candidate,
        RecognitionState::NoMatch => EventKind::NoMatch,
        RecognitionState::Listening => EventKind::Listening,
    };
    EventShape {
        kind,
        evidence: has_outcome,
        hit_rate: kind != EventKind::Listening,
        metadata: has_outcome && state == RecognitionState::ConfidentMatch,
    }
}

/// The connection ends after reporting the state.
pub fn ends_connection(state: RecognitionState) -> (r: bool)
    ensures
        r == is_terminal(state),
{
    state == RecognitionState::ConfidentMatch || state == RecognitionState::NoMatch
}

// ---- uploads ----

/// The caller may ingest: no secret is configured, or the right one was
/// presented.
pub open spec fn is_authorized(configured: Option<Seq<char>>, provided: Option<Seq<char>>) -> bool {
    configured is None || provided == configured
}

pub open spec fn view_of(s: Option<&str>) -> Option<Seq<char>> {
    match s {
        Some(t) => Some(t@),
        None => None,
    }
}

/// Shared-secret gate for uploads. Without a configured secret the endpoint
/// stays open for local development.
pub fn ingest_authorized(configured: Option<&str>, provided: Option<&str>) -> (r: Result<
    (),
    ApiError,
>)
    ensures
        r == if is_authorized(view_of(configured), view_of(provided)) {
            Ok::<(), ApiError>(())
        } else {
            Err(ApiError::Unauthorized)
        },
{
    match configured {
        None => Ok(()),
        Some(expected) => match provided {
            Some(got) => {
                let a: Vec<char> = chars_of(got);
                let b: Vec<char> = chars_of(expected);
                if a.len() == b.len() && is_prefix(&a, &b) {
                    assert(a@.subrange(0, b.len() as int) =~= a@);
                    Ok(())
                } else {
                    assert(a@ != b@) by {
                        if a@ == b@ {
                            assert(a@.subrange(0, b.len() as int) =~= a@);
                        }
                    }
                    Err(ApiError::Unauthorized)
                }
            },
            None => Err(ApiError::Unauthorized),
        },
    }
}

/// The credential in an `Authorization` header, if it is a bearer one.
pub open spec fn bearer_of(header: Option<Seq<char>>) -> Option<Seq<char>> {
    match header {
        Some(h) => if starts_with(h, "Bearer "@) {
            Some(trimmed(h.skip("Bearer "@.len() as int)))
        } else {
            None
        },
        None => None,
    }
}

/// The credential in an `Authorization` header.
pub fn bearer_credential(header: Option<&str>) -> (r: Option<String>)
    ensures
        match r {
            Some(c) => bearer_of(view_of(header)) == Some(c@),
            None => bearer_of(view_of(header)) is None,
        },
{
    match header {
        Some(h) => {
            let chars: Vec<char> = chars_of(h);
            let prefix: Vec<char> = chars_of("Bearer ");
            if is_prefix(&chars, &prefix) {
                let rest: &[char] = &chars.as_slice()[prefix.len()..chars.len()];
                assert(rest@ =~= chars@.skip(prefix.len() as int));
                Some(string_of(trim(rest)))
            } else {
                None
            }
        },
        None => None,
    }
}

/// An upload while its form is read.
///
/// A wrong header credential fails at once. Without a header the form may
/// still carry the secret, which is checked before any other input, so that
/// unauthenticated callers learn about the secret first. What is wrong with a
/// field is therefore held until the form is complete.
#[derive(Debug)]
pub struct UploadForm {
    pub needs_form_token: bool,
    pub token: Option<String>,
    pub source_url: Option<String>,
    pub has_audio: bool,
    /// The first thing that was wrong with a field.
    pub field_fault: Option<ApiError>,
}

/// The secret still has to come with the form.
pub open spec fn form_must_authorize(
    configured: Option<Seq<char>>,
    header: Option<Seq<char>>,
) -> bool {
    configured is Some && bearer_of(header) is None
}

impl UploadForm {
    /// Begin an upload with the headers of the request.
    pub fn begin(configured: Option<&str>, header: Option<&str>) -> (r: Result<UploadForm, ApiError>)
        ensures
            match r {
                Ok(form) => {
                    &&& form.needs_form_token == form_must_authorize(
                        view_of(configured),
                        view_of(header),
                    )
                    &&& form.needs_form_token || is_authorized(
                        view_of(configured),
                        bearer_of(view_of(header)),
                    )
                    &&& form.token is None
                    &&& form.source_url is None
                    &&& !form.has_audio
                    &&& form.field_fault is None
                },
                Err(e) => {
                    &&& e == ApiError::Unauthorized
                    &&& !form_must_authorize(view_of(configured), view_of(header))
                    &&& !is_authorized(view_of(configured), bearer_of(view_of(header)))
                },
            },
    {
        let bearer: Option<String> = bearer_credential(header);
        let needs_form_token: bool = configured.is_some() && bearer.is_none();
        if !needs_form_token {
            let provided: Option<&str> = match &bearer {
                Some(b) => Some(b.as_str()),
                None => None,
            };
            match ingest_authorized(configured, provided) {
                Ok(()) => {},
                Err(e) => {
                    return Err(e);
                },
            }
        }
        Ok(
            UploadForm {
                needs_form_token,
                token: None,
                source_url: None,
                has_audio: false,
                field_fault: None,
            },
        )
    }

    /// The `token` field.
    pub fn take_token(&mut self, text: String)
        ensures
            *final(self) == (UploadForm { token: Some(text), ..*old(self) }),
    {
        self.token = Some(text);
    }

    /// The form after a field that had something wrong with it.
    pub open spec fn with_fault(&self, e: ApiError) -> UploadForm {
        UploadForm {
            field_fault: match self.field_fault {
                Some(first) => Some(first),
                None => Some(e),
            },
            ..*self
        }
    }

    /// A field, or the rest of the form, that could not be taken.
    pub fn take_fault(&mut self, e: ApiError)
        ensures
            *final(self) == old(self).with_fault(e),
    {
        if self.field_fault.is_none() {
            self.field_fault = Some(e);
        }
    }

    /// The `source_url` field: at most 2,048 bytes.
    pub fn take_link(&mut self, text: String)
        ensures
            *final(self) == if encode_utf8(text@).len() as usize > MAX_LINK_BYTES {
                old(self).with_fault(ApiError::LinkTooLong)
            } else {
                UploadForm { source_url: Some(text), ..*old(self) }
            },
    {
        if text.as_str().len() > MAX_LINK_BYTES {
            self.take_fault(ApiError::LinkTooLong);
        } else {
            self.source_url = Some(text);
        }
    }

    /// The `audio` field: not empty.
    pub fn take_audio(&mut self, bytes: usize)
        ensures
            *final(self) == if bytes == 0 {
                old(self).with_fault(ApiError::EmptyAudio)
            } else {
                UploadForm { has_audio: true, ..*old(self) }
            },
    {
        if bytes == 0 {
            self.take_fault(ApiError::EmptyAudio);
        } else {
            self.has_audio = true;
        }
    }

    /// What is wrong with a complete form, if anything; the secret first.
    pub open spec fn fault(&self, configured: Option<Seq<char>>) -> Option<ApiError> {
        let token = match self.token {
            Some(t) => Some(t@),
            None => None,
        };
        if self.needs_form_token && !is_authorized(configured, token) {
            Some(ApiError::Unauthorized)
        } else if self.field_fault is Some {
            self.field_fault
        } else if self.source_url is None || trimmed(self.source_url->0@).len() == 0 {
            Some(ApiError::LinkMissing)
        } else if !self.has_audio {
            Some(ApiError::AudioMissing)
        } else {
            None
        }
    }

    /// The form is complete; returns the link.
    pub fn finish(self, configured: Option<&str>) -> (r: Result<String, ApiError>)
        ensures
            match self.fault(view_of(configured)) {
                Some(e) => r == Err::<String, ApiError>(e),
                None => r is Ok && r->Ok_0@ == self.source_url->0@,
            },
    {
        if self.needs_form_token {
            let provided: Option<&str> = match &self.token {
                Some(t) => Some(t.as_str()),
                None => None,
            };
            match ingest_authorized(configured, provided) {
                Ok(()) => {},
                Err(e) => {
                    return Err(e);
                },
            }
        }
        if let Some(e) = self.field_fault {
            return Err(e);
        }
        match self.source_url {
            None => Err(ApiError::LinkMissing),
            Some(url) => {
                if trim(&chars_of(url.as_str())).len() == 0 {
                    Err(ApiError::LinkMissing)
                } else if !self.has_audio {
                    Err(ApiError::AudioMissing)
                } else {
                    Ok(url)
                }
            },
        }
    }
}

/// The recording that an ingest run of one file produced, and whether it was
/// there before.
pub fn ingested_recording(added: &Vec<u32>, existing: &Vec<u32>) -> (r: Result<
    (u32, bool),
    ApiError,
>)
    ensures
        r == if added.len() > 0 {
            Ok::<(u32, bool), ApiError>((added[0], false))
        } else if existing.len() > 0 {
            Ok((existing[0], true))
        } else {
            Err(ApiError::NothingIngested)
        },
{
    if added.len() > 0 {
        Ok((added[0], false))
    } else if existing.len() > 0 {
        Ok((existing[0], true))
    } else {
        Err(ApiError::NothingIngested)
    }
}

// ---- the served catalog ----

/// One fingerprint file of a catalog: the recording and the batch it holds.
#[derive(Debug)]
pub struct Sidecar {
    pub recording: RecordingId,
    pub bytes: Vec<u8>,
}

/// The postings of all readable sidecars, in order.
pub open spec fn sidecar_postings(files: Seq<Sidecar>) -> Map<u32, Seq<Posting>>
    decreases files.len(),
{
    if files.len() == 0 {
        Map::empty()
    } else {
        let rest = sidecar_postings(files.drop_last());
        let last = files.last();
        if is_batch(last.bytes@) {
            with_recording(rest, last.recording, batch_fingerprints(last.bytes@))
        } else {
            rest
        }
    }
}

/// The number of readable sidecars.
pub open spec fn readable(files: Seq<Sidecar>) -> nat {
    count_where(files, |f: Sidecar| is_batch(f.bytes@))
}

/// The recording id that a file stem or a metadata key names.
pub fn parse_recording_id(text: &str) -> (id: Option<u32>)
    ensures
        match id {
            Some(v) => parsed_number(text@, u32::MAX as nat) == Some(v as nat),
            None => parsed_number(text@, u32::MAX as nat) is None,
        },
{
    match parse_number(&chars_of(text), u32::MAX as u64) {
        Some(v) => Some(v as u32),
        None => None,
    }
}

/// Materialize the matcher index of a catalog from its sidecars. Unreadable
/// ones are skipped. The index is finalized even where it is empty: an empty
/// catalog rejects queries cleanly.
pub fn build_index(files: &Vec<Sidecar>) -> (index: InMemoryIndex)
    ensures
        index.wf(),
        index.is_finalized(),
        tidied(index@, sidecar_postings(files@)),
        all_tidy(index@),
        index.recording_count() == readable(files@),
{
    let ghost p = |f: Sidecar| is_batch(f.bytes@);
    let ghost one = |f: Sidecar| 1nat;
    let mut index = InMemoryIndex::new();
    let mut i: usize = 0;
    assert(files@.take(0) =~= Seq::<Sidecar>::empty());
    while i < files.len()
        invariant
            i <= files.len(),
            p == (|f: Sidecar| is_batch(f.bytes@)),
            one == (|f: Sidecar| 1nat),
            index.wf(),
            !index.is_finalized(),
            index@ == sidecar_postings(files@.take(i as int)),
            index.recording_count() == crate::sort::sum_where(files@.take(i as int), p, one),
            index.recording_count() <= i,
        decreases files.len() - i,
    {
        assert(files@.take(i + 1).drop_last() =~= files@.take(i as int));
        if let Some((_, fps)) = decode_sfp_batch(files[i].bytes.as_slice()) {
            index.add_recording(files[i].recording, fps.as_slice());
        }
        i = i + 1;
    }
    assert(files@.take(i as int) =~= files@);
    index.finalize();
    index
}

/// The recordings of a listing, by ascending id.
pub fn listing_order(ids: &Vec<u32>) -> (out: Vec<u32>)
    ensures
        ordered(out@),
        permuted(out@, ids@),
{
    sorted(ids.as_slice())
}

// ---- responses ----

/// Local UI and engine assets must never go stale independently: they are
/// served without caching.
pub open spec fn is_uncached(path: Seq<char>) -> bool {
    path == "/"@ || ends_with(path, ".html"@) || ends_with(path, ".css"@) || ends_with(path, ".js"@)
        || starts_with(path, "/wasm/"@) || ends_with(path, ".wasm"@)
}

pub fn must_not_cache(path: &str) -> (r: bool)
    ensures
        r == is_uncached(path@),
{
    let p: Vec<char> = chars_of(path);
    let root: Vec<char> = chars_of("/");
    let is_root: bool = p.len() == root.len() && is_prefix(&p, &root);
    proof {
        if p.len() == root.len() {
            assert(p@.subrange(0, root.len() as int) =~= p@);
        }
    }
    is_root || is_suffix(&p, &chars_of(".html")) || is_suffix(&p, &chars_of(".css")) || is_suffix(
        &p,
        &chars_of(".js"),
    ) || is_prefix(&p, &chars_of("/wasm/")) || is_suffix(&p, &chars_of(".wasm"))
}

/// How a request from another origin is answered.
#[derive(Debug, Clone, Copy, PartialEq, Eq, Structural)]
pub enum CorsAnswer {
    /// A preflight: answered at once, without content.
    Preflight,
    /// Served, with every origin allowed.
    AllowOrigin,
    /// Served as it is.
    Plain,
}

pub fn cors_answer(is_options: bool, has_origin: bool) -> (r: CorsAnswer)
    ensures
        r == if is_options {
            CorsAnswer::Preflight
        } else if has_origin {
            CorsAnswer::AllowOrigin
        } else {
            CorsAnswer::Plain
        },
{
    if is_options {
        CorsAnswer::Preflight
    } else if has_origin {
        CorsAnswer::AllowOrigin
    } else {
        CorsAnswer::Plain
    }
}

// ---- laws ----

/// An empty catalog is a matcher like any other: it knows no hash.
pub proof fn law_empty_catalog_knows_nothing(files: Seq<Sidecar>, m: Map<u32, Seq<Posting>>)
    requires
        files.len() == 0,
        tidied(m, sidecar_postings(files)),
    ensures
        m.dom() == Set::<u32>::empty(),
{
    assert(m.dom() =~= Set::<u32>::empty());
}

/// An ended session is left alone by further batches.
pub proof fn law_terminal_sessions_stay(
    before: RecognitionSession,
    after: RecognitionSession,
    fps: Seq<(u32, u32)>,
    index: InMemoryIndex,
    params: MatchParams,
    rarity: RarityTable,
    capture_us: u64,
)
    requires
        is_terminal(before.state),
        batch_step(before, after, fps, index, params, rarity, capture_us),
    ensures
        after == before,
{
}

/// An ended session is left alone by the clock: a tick changes nothing.
pub proof fn law_ticks_leave_ended_sessions(
    before: Seq<LiveSession>,
    after: Seq<LiveSession>,
    id: u64,
    now_us: u64,
)
    requires
        session_at(before, id) < before.len() ==> is_terminal(
            before[session_at(before, id)].session.state,
        ),
        tick_step(before, after, id, now_us),
    ensures
        after == before,
{
    lemma_session_at_bound(before, id);
    assert(after =~= before);
}

/// Without the configured secret no upload gets through, and the answer is
/// about the secret, whatever else the form holds and whatever is wrong with
/// it.
pub proof fn law_uploads_need_the_secret(form: UploadForm, configured: Seq<char>)
    requires
        form.needs_form_token,
        form.token is Some ==> form.token->0@ != configured,
    ensures
        form.fault(Some(configured)) == Some(ApiError::Unauthorized),
{
}

/// The bytes of a file that can be read: the letters SFP1, and as many
/// fingerprints as it announces.
pub open spec fn readable_bytes(b: Seq<u8>) -> bool {
    &&& b.len() >= 16
    &&& b[0] == 'S' as u8 && b[1] == 'F' as u8 && b[2] == 'P' as u8 && b[3] == '1' as u8
    &&& b.len() == 16 + 8 * word_at(b, 12)
}

/// Fingerprint `k` of file `f` can be read, stands under the hash, and names
/// the posting: the recording is the file's own.
pub open spec fn file_names(f: Sidecar, k: int, hash: u32, p: Posting) -> bool {
    &&& readable_bytes(f.bytes@)
    &&& 0 <= k < word_at(f.bytes@, 12)
    &&& word_at(f.bytes@, 16 + 8 * k) == hash
    &&& word_at(f.bytes@, 20 + 8 * k) == p.anchor_time
    &&& f.recording == p.recording
}

/// The served index holds what the files of the catalog hold, under their own
/// recordings: every fingerprint of every readable file is there as a posting
/// of that file's recording, and every posting stems from such a fingerprint.
/// The lists are sorted by recording and time, and hold nothing twice.
pub proof fn law_index_holds_every_file(
    files: Seq<Sidecar>,
    index: Map<u32, Seq<Posting>>,
    hash: u32,
    p: Posting,
)
    requires
        tidied(index, sidecar_postings(files)),
    ensures
        (index.contains_key(hash) && index[hash].contains(p)) <==> exists|i: int, k: int|
            0 <= i < files.len() && #[trigger] file_names(files[i], k, hash, p),
        index.contains_key(hash) ==> exists|i: int, k: int, q: Posting|
            0 <= i < files.len() && #[trigger] file_names(files[i], k, hash, q),
        index.contains_key(hash) ==> forall|a: int, b: int|
            #![trigger index[hash][a], index[hash][b]]
            0 <= a < b < index[hash].len() ==> index[hash][a].recording.0
                < index[hash][b].recording.0 || (index[hash][a].recording
                == index[hash][b].recording && index[hash][a].anchor_time
                < index[hash][b].anchor_time),
{
    let raw = sidecar_postings(files);
    lemma_sidecars_hold(files, hash, p);
    assert(index.contains_key(hash) <==> raw.contains_key(hash));
    if index.contains_key(hash) {
        let list = raw[hash];
        lemma_sidecars_hold(files, hash, list[0]);
        assert(list.contains(list[0]));
        let (i, k) = choose|i: int, k: int|
            0 <= i < files.len() && #[trigger] file_names(files[i], k, hash, list[0]);
        assert(file_names(files[i], k, hash, list[0]));
        assert forall|a: int, b: int|
            #![trigger index[hash][a], index[hash][b]]
            0 <= a < b < index[hash].len() implies index[hash][a].recording.0
            < index[hash][b].recording.0 || (index[hash][a].recording == index[hash][b].recording
            && index[hash][a].anchor_time < index[hash][b].anchor_time) by {
            assert(crate::postings::posting_leq(index[hash][a], index[hash][b]));
        }
    }
}

/// What the files hold, before it is sorted.
proof fn lemma_sidecars_hold(files: Seq<Sidecar>, hash: u32, p: Posting)
    ensures
        list_of(sidecar_postings(files), hash).contains(p) <==> exists|i: int, k: int|
            0 <= i < files.len() && #[trigger] file_names(files[i], k, hash, p),
        sidecar_postings(files).contains_key(hash) ==> sidecar_postings(files)[hash].len() > 0,
    decreases files.len(),
{
    if files.len() > 0 {
        let rest = files.drop_last();
        let f = files.last();
        let b = f.bytes@;
        let before = sidecar_postings(rest);
        lemma_sidecars_hold(rest, hash, p);
        law_batches_are_read_byte_by_byte(b);
        let fps = batch_fingerprints(b);
        let own = recording_postings(f.recording, fps, hash);
        if is_batch(b) {
            lemma_with_recording(before, f.recording, fps, hash);
            lemma_recording_postings(f.recording, fps, hash, p);
            lemma_both_contain(list_of(before, hash), own, p);
            if own.contains(p) {
                let k = fps.index_of((hash, p.anchor_time));
                assert(file_names(files[files.len() - 1], k, hash, p));
            }
        }
        if exists|i: int, k: int|
            0 <= i < rest.len() && #[trigger] file_names(rest[i], k, hash, p) {
            let (i, k) = choose|i: int, k: int|
                0 <= i < rest.len() && #[trigger] file_names(rest[i], k, hash, p);
            assert(file_names(files[i], k, hash, p));
        }
        if exists|i: int, k: int|
            0 <= i < files.len() && #[trigger] file_names(files[i], k, hash, p) {
            let (i, k) = choose|i: int, k: int|
                0 <= i < files.len() && #[trigger] file_names(files[i], k, hash, p);
            if i < rest.len() {
                assert(file_names(rest[i], k, hash, p));
            } else {
                assert(fps[k] == (hash, p.anchor_time));
                assert(own.contains(p));
            }
        }
    }
}

proof fn lemma_both_contain(a: Seq<Posting>, b: Seq<Posting>, p: Posting)
    ensures
        (a + b).contains(p) <==> a.contains(p) || b.contains(p),
{
    if a.contains(p) {
        assert((a + b)[a.index_of(p)] == p);
    }
    if b.contains(p) {
        assert((a + b)[a.len() + b.index_of(p)] == p);
    }
    if (a + b).contains(p) {
        let k = (a + b).index_of(p);
        if k < a.len() {
            assert(a[k] == p);
        } else {
            assert(b[k - a.len()] == p);
        }
    }
}

/// The index counts the files that could be read.
pub proof fn law_readable_files_are_counted(files: Seq<Sidecar>)
    ensures
        readable(files) == files.filter(|f: Sidecar| readable_bytes(f.bytes@)).len(),
    decreases files.len(),
{
    reveal(Seq::filter);
    if files.len() > 0 {
        law_readable_files_are_counted(files.drop_last());
        law_batches_are_read_byte_by_byte(files.last().bytes@);
    }
}

/// The first session of the table with this name stands at `i`.
pub open spec fn stands_at(live: Seq<LiveSession>, id: u64, i: int) -> bool {
    &&& 0 <= i < live.len()
    &&& live[i].id == id
    &&& forall|k: int| 0 <= k < i ==> (#[trigger] live[k]).id != id
}

/// No session of the table has this name.
pub open spec fn is_absent(live: Seq<LiveSession>, id: u64) -> bool {
    forall|k: int| 0 <= k < live.len() ==> (#[trigger] live[k]).id != id
}

proof fn lemma_session_at(live: Seq<LiveSession>, id: u64)
    ensures
        0 <= session_at(live, id) <= live.len(),
        session_at(live, id) == live.len() <==> is_absent(live, id),
        forall|i: int| #[trigger] stands_at(live, id, i) ==> session_at(live, id) == i,
        session_at(live, id) < live.len() ==> stands_at(live, id, session_at(live, id)),
    decreases live.len(),
{
    if live.len() > 0 {
        let rest = live.drop_first();
        lemma_session_at(rest, id);
        let i = session_at(live, id);
        if live[0].id != id {
            if is_absent(live, id) {
                assert forall|k: int| 0 <= k < rest.len() implies (#[trigger] rest[k]).id != id by {
                    assert(live[k + 1].id != id);
                }
            }
            if is_absent(rest, id) {
                assert forall|k: int| 0 <= k < live.len() implies (#[trigger] live[k]).id != id by {
                    if k > 0 {
                        assert(rest[k - 1].id != id);
                    }
                }
            }
            if i < live.len() {
                assert(stands_at(rest, id, i - 1));
                assert(rest[i - 1] == live[i]);
                assert forall|k: int| 0 <= k < i implies (#[trigger] live[k]).id != id by {
                    if k > 0 {
                        assert(rest[k - 1].id != id);
                    }
                }
            }
        }
        assert forall|j: int| #[trigger] stands_at(live, id, j) implies i == j by {
            if i < j {
                assert(live[i].id != id);
            }
            if j < i {
                assert(live[j].id != id);
            }
        }
    }
}

/// A session is kept for two minutes from its start.
pub proof fn law_sessions_live_two_minutes(live: Seq<LiveSession>, now_us: u64)
    ensures
        fresh_sessions(live, now_us) == live.filter(
            |s: LiveSession| now_us < s.started_us + 120_000_000,
        ),
        SESSION_TTL_US == 120_000_000,
        MAX_BATCH_BYTES == 262_144,
        MAX_LINK_BYTES == 2048,
        MAX_CONCURRENT_SESSIONS == 32,
    decreases live.len(),
{
    reveal(Seq::filter);
    if live.len() > 0 {
        law_sessions_live_two_minutes(live.drop_last(), now_us);
    }
}

/// A batch for a session that is in the table goes to that session, which
/// keeps its start, and to no other. It is taken in as it is, fingerprint by
/// fingerprint, unless the session has ended, and then nothing changes.
pub proof fn law_batches_reach_their_session(
    kept: Seq<LiveSession>,
    live: Seq<LiveSession>,
    id: u64,
    now_us: u64,
    sample_rate_hz: u32,
    fps: Seq<(u32, u32)>,
    index: InMemoryIndex,
    params: MatchParams,
    rarity: RarityTable,
    capture_us: u64,
    i: int,
    query: Seq<QueryFp>,
)
    requires
        touched_one(kept, live, id, now_us),
        took_batch(kept, live, id, sample_rate_hz, fps, index, params, rarity, capture_us),
        stands_at(kept, id, i),
        query.len() == fps.len(),
        forall|k: int|
            0 <= k < fps.len() ==> (#[trigger] query[k]).hash == fps[k].0 && query[k].anchor_time
                == fps[k].1,
    ensures
        live.len() == kept.len(),
        forall|k: int| 0 <= k < kept.len() && k != i ==> #[trigger] live[k] == kept[k],
        live[i].id == id && live[i].started_us == kept[i].started_us,
        kept[i].session.state == RecognitionState::ConfidentMatch || kept[i].session.state
            == RecognitionState::NoMatch ==> live[i].session == kept[i].session,
        kept[i].session.state == RecognitionState::Listening || kept[i].session.state
            == RecognitionState::Candidate ==> ingested(
            kept[i].session,
            live[i].session,
            query,
            index,
            params,
            rarity,
            capture_us as nat,
        ),
{
    lemma_session_at(kept, id);
    assert(as_query(fps) =~= query) by {
        assert forall|k: int| 0 <= k < fps.len() implies as_query(fps)[k] == #[trigger] query[k] by {}
    }
}

/// A batch for a name that the table does not hold adds one session to it, at
/// its end, started now. It begins empty and listening, with a window of ten
/// seconds and a cadence of a quarter of one, and takes the batch in.
pub proof fn law_first_batches_open_a_session(
    kept: Seq<LiveSession>,
    live: Seq<LiveSession>,
    id: u64,
    now_us: u64,
    sample_rate_hz: u32,
    fps: Seq<(u32, u32)>,
    index: InMemoryIndex,
    params: MatchParams,
    rarity: RarityTable,
    capture_us: u64,
    query: Seq<QueryFp>,
)
    requires
        touched_one(kept, live, id, now_us),
        took_batch(kept, live, id, sample_rate_hz, fps, index, params, rarity, capture_us),
        is_absent(kept, id),
        query.len() == fps.len(),
        forall|k: int|
            0 <= k < fps.len() ==> (#[trigger] query[k]).hash == fps[k].0 && query[k].anchor_time
                == fps[k].1,
    ensures
        live.len() == kept.len() + 1,
        live.drop_last() == kept,
        live.last().id == id && live.last().started_us == now_us,
        exists|fresh: RecognitionSession|
            {
                &&& fresh.fps@.len() == 0
                &&& fresh.state == RecognitionState::Listening
                &&& fresh.outcome is None
                &&& fresh.batches == 0
                &&& fresh.evaluations == 0
                &&& fresh.last_evaluated_anchor is None
                &&& !fresh.extension_used
                &&& fresh.max_window_frames == 10 * sample_rate_hz as int / 1024
                &&& 4096 * (fresh.min_query_stride_frames - 1) < sample_rate_hz
                &&& sample_rate_hz <= 4096 * fresh.min_query_stride_frames
                &&& #[trigger] ingested(
                    fresh,
                    live.last().session,
                    query,
                    index,
                    params,
                    rarity,
                    capture_us as nat,
                )
            },
{
    lemma_session_at(kept, id);
    assert(as_query(fps) =~= query) by {
        assert forall|k: int| 0 <= k < fps.len() implies as_query(fps)[k] == #[trigger] query[k] by {}
    }
    assert(live.drop_last() =~= kept) by {
        assert forall|k: int| 0 <= k < kept.len() implies live.drop_last()[k] == kept[k] by {
            assert(live[k] == kept[k]);
        }
    }
    let before = choose|before: RecognitionSession|
        is_new_session(before, sample_rate_hz) && #[trigger] batch_step(
            before,
            live[kept.len() as int].session,
            fps,
            index,
            params,
            rarity,
            capture_us,
        );
    assert(ingested(
        before,
        live.last().session,
        query,
        index,
        params,
        rarity,
        capture_us as nat,
    ));
}

/// A report tells the time since the session's start, the session's state and
/// candidate, and how many of the fingerprints it holds the catalog knows.
pub proof fn law_reports_tell_the_session(
    s: LiveSession,
    now_us: u64,
    index: InMemoryIndex,
    r: BatchReport,
)
    requires
        reports(s, now_us, index, r),
    ensures
        now_us >= s.started_us ==> r.capture_us == now_us - s.started_us,
        now_us < s.started_us ==> r.capture_us == 0,
        r.state == s.session.state,
        r.outcome == s.session.outcome,
        r.batches == s.session.batches,
        r.held == s.session.fps@.len(),
        r.hits == s.session.fps@.filter(|f: QueryFp| index@.contains_key(f.hash)).len(),
{
    lemma_counted(s.session.fps@, index@);
}

proof fn lemma_counted(fps: Seq<QueryFp>, m: Map<u32, Seq<Posting>>)
    ensures
        count_where(fps, known_in(m)) == fps.filter(|f: QueryFp| m.contains_key(f.hash)).len(),
    decreases fps.len(),
{
    reveal(Seq::filter);
    if fps.len() > 0 {
        lemma_counted(fps.drop_last(), m);
    }
}

/// A connection that never sent a batch ends once it is over 18 seconds old,
/// and the tick touches no session.
pub proof fn law_silent_connections_end(
    before: Seq<LiveSession>,
    after: Seq<LiveSession>,
    id: u64,
    now_us: u64,
    connected_us: u64,
    index: InMemoryIndex,
    r: Option<TimeoutReport>,
)
    requires
        is_absent(before, id),
        tick_step(before, after, id, now_us),
        tick_answers(after, id, now_us, connected_us, index, r),
    ensures
        after == before,
        r is Some <==> now_us > connected_us + 18_000_000,
        r is Some ==> r->0 == (TimeoutReport {
            hits: 0,
            held: 0,
            capture_us: (now_us - connected_us) as u64,
        }),
{
    lemma_session_at(before, id);
}

/// A tick looks at the clock of its own session and of no other. An open one
/// ends without a match 12 seconds after its start, or 18 where a tight
/// candidate earns the extension; that is answered, and so is one that had
/// ended so before. What the session holds stays.
pub proof fn law_ticks_end_overdue_sessions(
    before: Seq<LiveSession>,
    after: Seq<LiveSession>,
    id: u64,
    now_us: u64,
    connected_us: u64,
    index: InMemoryIndex,
    r: Option<TimeoutReport>,
    i: int,
)
    requires
        stands_at(before, id, i),
        now_us >= before[i].started_us,
        tick_step(before, after, id, now_us),
        tick_answers(after, id, now_us, connected_us, index, r),
    ensures
        after.len() == before.len(),
        forall|k: int| 0 <= k < before.len() && k != i ==> #[trigger] after[k] == before[k],
        after[i].id == id && after[i].started_us == before[i].started_us,
        after[i].session.fps@ == before[i].session.fps@ && after[i].session.outcome
            == before[i].session.outcome && after[i].session.batches == before[i].session.batches,
        ({
            let s = before[i].session;
            let t = now_us - before[i].started_us;
            let tight = s.outcome is Some && s.outcome->0.weighted_score > 0 && 100
                * s.outcome->0.inlier_score >= 95 * s.outcome->0.weighted_score;
            let earns = s.state == RecognitionState::Candidate && tight;
            let open = s.state == RecognitionState::Listening || s.state
                == RecognitionState::Candidate;
            let over = if s.extension_used {
                t > 18_000_000
            } else {
                t > 12_000_000 && !earns
            };
            &&& r is Some <==> s.state == RecognitionState::NoMatch || (open && over)
            &&& r is Some ==> r->0.capture_us == t && r->0.held == s.fps@.len() && r->0.hits
                == s.fps@.filter(|f: QueryFp| index@.contains_key(f.hash)).len()
            &&& r is None ==> after[i].session.state == s.state
            &&& open && !s.extension_used ==> (after[i].session.extension_used <==> earns && t
                > 12_000_000)
        }),
{
    lemma_session_at(before, id);
    assert(stands_at(after, id, i)) by {
        assert forall|k: int| 0 <= k < i implies (#[trigger] after[k]).id != id by {
            assert(after[k] == before[k]);
        }
    }
    lemma_session_at(after, id);
    lemma_counted(after[i].session.fps@, index@);
    if before[i].session.state == RecognitionState::Listening || before[i].session.state
        == RecognitionState::Candidate {
        law_quiet_sessions_follow_the_clock(
            before[i].session.deadline(),
            before[i].session.is_live(),
            (now_us - before[i].started_us) as nat,
        );
    }
}

/// Which event a client is sent: a match only with its recording, and then
/// with title and links; evidence wherever there is a candidate; the hit rate
/// with everything but plain listening. A connection ends on a match and on
/// no match.
pub proof fn law_events_tell_the_state(state: RecognitionState, has_outcome: bool)
    ensures
        ({
            let e = event_of(state, has_outcome);
            &&& e.kind == EventKind::Matched <==> state == RecognitionState::ConfidentMatch
                && has_outcome
            &&& e.kind == EventKind::Candidate <==> state == RecognitionState::Candidate
            &&& e.kind == EventKind::NoMatch <==> state == RecognitionState::NoMatch
            &&& e.evidence <==> has_outcome
            &&& e.metadata <==> e.kind == EventKind::Matched
            &&& e.hit_rate <==> e.kind == EventKind::Matched || e.kind == EventKind::Candidate
                || e.kind == EventKind::NoMatch
        }),
        is_terminal(state) <==> state == RecognitionState::ConfidentMatch || state
            == RecognitionState::NoMatch,
{
}

/// The credential is what follows the word Bearer and a space, without white
/// space around it; any other header carries none.
pub proof fn law_bearer_headers_carry_the_credential(
    lead: Seq<char>,
    secret: Seq<char>,
    tail: Seq<char>,
    header: Seq<char>,
)
    requires
        all_blank(lead),
        all_blank(tail),
        secret.len() > 0 ==> !blank(secret[0]) && !blank(secret.last()),
    ensures
        bearer_of(Some("Bearer "@ + (lead + secret + tail))) == Some(secret),
        (forall|rest: Seq<char>| header != #[trigger] ("Bearer "@ + rest)) ==> bearer_of(
            Some(header),
        ) is None,
        bearer_of(None) is None,
{
    let word = "Bearer "@;
    let rest = lead + secret + tail;
    law_parts_are_cut_out(rest, word, rest, header);
    assert((word + rest).skip(word.len() as int) =~= rest);
    law_trimming_takes_white_space_from_both_ends(lead, secret, tail);
}

/// Without a configured secret everyone may upload; with one, whoever
/// presents it and no one else.
pub proof fn law_the_secret_opens_uploads(
    secret: Seq<char>,
    provided: Option<Seq<char>>,
    header: Option<Seq<char>>,
)
    ensures
        is_authorized(None, provided),
        is_authorized(Some(secret), Some(secret)),
        !is_authorized(Some(secret), None),
        provided is Some && provided->0 != secret ==> !is_authorized(Some(secret), provided),
        !form_must_authorize(None, header),
        form_must_authorize(Some(secret), header) <==> bearer_of(header) is None,
{
}

/// An upload goes through exactly if it presented the secret where the form
/// must, nothing was wrong with a field, and both a link and audio are there.
/// What is wrong is told in that order; of faulty fields the first.
pub proof fn law_complete_uploads_go_through(
    form: UploadForm,
    configured: Option<Seq<char>>,
    e: ApiError,
)
    ensures
        ({
            let shown = form.needs_form_token && configured is Some ==> form.token is Some
                && form.token->0@ == configured->0;
            let linked = form.source_url is Some && exists|i: int|
                0 <= i < form.source_url->0@.len() && !blank(#[trigger] form.source_url->0@[i]);
            &&& form.fault(configured) is None <==> shown && form.field_fault is None && linked
                && form.has_audio
            &&& !shown ==> form.fault(configured) == Some(ApiError::Unauthorized)
            &&& shown && form.field_fault is Some ==> form.fault(configured) == form.field_fault
            &&& shown && form.field_fault is None && !linked ==> form.fault(configured) == Some(
                ApiError::LinkMissing,
            )
            &&& shown && form.field_fault is None && linked && !form.has_audio ==> form.fault(
                configured,
            ) == Some(ApiError::AudioMissing)
        }),
        form.field_fault is None ==> form.with_fault(e).field_fault == Some(e),
        form.field_fault is Some ==> form.with_fault(e) == form,
        form.with_fault(e).source_url == form.source_url && form.with_fault(e).has_audio
            == form.has_audio && form.with_fault(e).token == form.token && form.with_fault(
            e,
        ).needs_form_token == form.needs_form_token,
{
    if form.source_url is Some {
        law_texts_are_blank_or_not(form.source_url->0@);
    }
}

/// Pages, styles, scripts and the engine are served without caching, and
/// nothing else is.
pub proof fn law_assets_are_not_cached(path: Seq<char>, rest: Seq<char>)
    ensures
        is_uncached("/"@),
        is_uncached(rest + ".html"@),
        is_uncached(rest + ".css"@),
        is_uncached(rest + ".js"@),
        is_uncached(rest + ".wasm"@),
        is_uncached("/wasm/"@ + rest),
        is_uncached(path) ==> path == "/"@ || path == "/wasm/"@ + path.skip("/wasm/"@.len() as int)
            || path == path.take(path.len() - ".html"@.len()) + ".html"@ || path == path.take(
            path.len() - ".css"@.len(),
        ) + ".css"@ || path == path.take(path.len() - ".js"@.len()) + ".js"@ || path == path.take(
            path.len() - ".wasm"@.len(),
        ) + ".wasm"@,
{
    law_parts_are_cut_out(rest, ".html"@, rest, path);
    law_parts_are_cut_out(rest, ".css"@, rest, path);
    law_parts_are_cut_out(rest, ".js"@, rest, path);
    law_parts_are_cut_out(rest, ".wasm"@, rest, path);
    law_parts_are_cut_out(rest, "/wasm/"@, rest, path);
}

/// A listing holds every id as often as it was given, and the ids do not
/// descend. The server serves at most 32 sessions at a time.
pub proof fn law_listings_ascend(out: Seq<u32>, ids: Seq<u32>, id: u32, live: Seq<LiveSession>)
    requires
        ordered(out),
        permuted(out, ids),
    ensures
        out.len() == ids.len(),
        out.filter(|x: u32| x == id).len() == ids.filter(|x: u32| x == id).len(),
        forall|i: int, j: int|
            #![trigger out[i], out[j]]
            0 <= i < j < out.len() ==> out[i] <= out[j],
        within_cap(live) <==> live.len() <= 32,
{
    let p = |x: u32| x == id;
    lemma_sum_permuted(out, ids, p, |x: u32| 1nat);
    law_counting_is_filtering(out, p);
    law_counting_is_filtering(ids, p);
    lemma_permuted_contains(out, ids);
    out.to_multiset_ensures();
    ids.to_multiset_ensures();
    assert forall|i: int, j: int|
        #![trigger out[i], out[j]]
        0 <= i < j < out.len() implies out[i] <= out[j] by {
        assert(<u32 as crate::sort::Ranked>::leq(out[i], out[j]));
    }
}

} // verus!
