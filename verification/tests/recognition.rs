use sivana::ids::RecordingId;
use sivana::matcher::{InMemoryIndex, MatchParams, QueryFp, RarityTable};
use sivana::recognition::{RecognitionSession, RecognitionState, MAX_CAPTURE_MICROS};

fn rarity(index: &InMemoryIndex) -> RarityTable {
    let n = index.n_recordings() as f64;
    let weights = (0..=index.n_recordings())
        .map(|df| (((n + 1.0) / (df as f64 + 1.0)).ln().max(1e-3) * 1e6).round() as u32)
        .collect();
    RarityTable { weights }
}

fn ingest(
    session: &mut RecognitionSession,
    batch: Vec<QueryFp>,
    index: &InMemoryIndex,
    elapsed_us: u64,
) -> RecognitionState {
    session.ingest(batch, index, &MatchParams::default(), &rarity(index), elapsed_us)
}

fn index_with_shared_hashes() -> InMemoryIndex {
    let mut idx = InMemoryIndex::new();
    idx.add_recording(
        RecordingId::new(0),
        &[
            (100, 10),
            (101, 12),
            (102, 14),
            (103, 16),
            (104, 18),
            (105, 20),
            (106, 22),
            (107, 24),
            (108, 26),
        ],
    );
    idx.add_recording(RecordingId::new(1), &[(100, 900)]);
    idx.finalize();
    idx
}

fn query_batch(hashes: &[(u32, u32)]) -> Vec<QueryFp> {
    hashes
        .iter()
        .map(|&(h, t)| QueryFp { hash: h, anchor_time: t })
        .collect()
}

fn ramp(from: u32, to: u32) -> Vec<QueryFp> {
    (from..to)
        .map(|i| QueryFp { hash: 500 + i, anchor_time: 10 + i })
        .collect()
}

fn solo_catalog(n: u32) -> InMemoryIndex {
    let mut idx = InMemoryIndex::new();
    let catalog: Vec<(u32, u32)> = (0..n).map(|i| (500 + i, 100 + i)).collect();
    idx.add_recording(RecordingId::new(0), &catalog);
    idx.finalize();
    idx
}

#[test]
fn session_reaches_confident_match() {
    let idx = index_with_shared_hashes();
    let mut s = RecognitionSession::new(22_050, 1024);
    let batch = query_batch(&[
        (100, 0),
        (101, 2),
        (102, 4),
        (103, 6),
        (104, 8),
        (105, 10),
        (106, 12),
        (107, 14),
        (108, 16),
    ]);
    let state = ingest(&mut s, batch, &idx, 0);
    assert_eq!(state, RecognitionState::ConfidentMatch);
    let o = s.outcome.as_ref().unwrap();
    assert_eq!(o.recording.as_u32(), 0);
    assert_eq!(o.offset_frames, 10);
}

#[test]
fn session_times_out_to_no_match() {
    let mut idx = InMemoryIndex::new();
    idx.finalize();
    let mut s = RecognitionSession::new(22_050, 1024);
    let state = ingest(&mut s, query_batch(&[(7, 1)]), &idx, 30_000_000);
    assert_eq!(state, RecognitionState::NoMatch);
    let again = ingest(&mut s, query_batch(&[(8, 1)]), &idx, 30_000_000);
    assert_eq!(again, RecognitionState::NoMatch);
}

#[test]
fn single_recording_catalog_does_not_require_a_runner_up_margin() {
    let mut idx = InMemoryIndex::new();
    idx.add_recording(
        RecordingId::new(0),
        &[(100, 10), (101, 12), (102, 14), (103, 16), (104, 18), (105, 20), (106, 22)],
    );
    idx.finalize();
    let mut session = RecognitionSession::new(22_050, 1024);
    let batch = query_batch(&[
        (100, 0),
        (101, 2),
        (102, 4),
        (103, 6),
        (104, 8),
        (105, 10),
        (106, 12),
    ]);
    let state = ingest(&mut session, batch, &idx, 0);
    // The margin is exactly one.
    let o = session.outcome.as_ref().unwrap();
    assert!(o.margin_at_least(1, 1));
    assert!(!o.margin_at_least(1_000_001, 1_000_000));
    assert_eq!(state, RecognitionState::Candidate);
}

#[test]
fn live_candidate_earns_one_deadline_extension() {
    let idx = solo_catalog(200);
    let mut session = RecognitionSession::new(22_050, 1024);
    assert_eq!(ingest(&mut session, ramp(0, 30), &idx, 0), RecognitionState::Candidate);
    let late = MAX_CAPTURE_MICROS + 500_000;
    assert_eq!(session.poll_timeout(late), RecognitionState::Candidate);
    assert_eq!(
        ingest(&mut session, ramp(30, 80), &idx, late + 3_000_000),
        RecognitionState::ConfidentMatch
    );
}

#[test]
fn weak_listening_session_dies_at_extension_deadline() {
    let mut idx = InMemoryIndex::new();
    idx.add_recording(RecordingId::new(0), &[(500, 100)]);
    idx.finalize();
    let mut session = RecognitionSession::new(22_050, 1024);
    let trickle: Vec<QueryFp> = (0..4)
        .map(|i| QueryFp { hash: 500, anchor_time: 10 + i })
        .collect();
    let state = ingest(&mut session, trickle, &idx, 0);
    assert_ne!(state, RecognitionState::Candidate);
    assert_eq!(
        session.poll_timeout(MAX_CAPTURE_MICROS + 500_000),
        RecognitionState::NoMatch
    );
}

#[test]
fn a_lost_candidate_is_not_extended() {
    let idx = solo_catalog(200);
    let mut session = RecognitionSession::new(22_050, 1024);
    assert_eq!(ingest(&mut session, ramp(0, 30), &idx, 0), RecognitionState::Candidate);
    // The evidence has left the window but for one stray hash, which is tight.
    let stray = query_batch(&[(500, 5000)]);
    let late = MAX_CAPTURE_MICROS + 500_000;
    assert_eq!(ingest(&mut session, stray, &idx, late), RecognitionState::NoMatch);
    let top = session.outcome.unwrap();
    assert_eq!(top.inliers, 1);
    assert!(top.concentration_at_least(95, 100));
    assert!(!session.extension_used);
}

#[test]
fn dense_solo_catalog_evidence_confidently_matches() {
    let idx = solo_catalog(200);
    let mut session = RecognitionSession::new(22_050, 1024);
    let state = ingest(&mut session, ramp(0, 150), &idx, 0);
    assert_eq!(state, RecognitionState::ConfidentMatch);
    let o = session.outcome.as_ref().unwrap();
    assert_eq!(o.recording.as_u32(), 0);
}

#[test]
fn sub_floor_solo_evidence_never_confirms() {
    let idx = solo_catalog(80);
    let mut session = RecognitionSession::new(22_050, 1024);
    assert_eq!(ingest(&mut session, ramp(0, 10), &idx, 0), RecognitionState::Candidate);
    let more: Vec<QueryFp> = (20..30)
        .map(|i| QueryFp { hash: 500 + i, anchor_time: 400 + i })
        .collect();
    assert_ne!(ingest(&mut session, more, &idx, 0), RecognitionState::ConfidentMatch);
}

#[test]
fn sparse_solo_catalog_evidence_stays_a_candidate() {
    let idx = solo_catalog(40);
    let mut session = RecognitionSession::new(22_050, 1024);
    let query: Vec<QueryFp> = (0..40)
        .map(|i| QueryFp { hash: 500 + i as u32, anchor_time: i as u32 * 20 })
        .collect();
    assert_ne!(ingest(&mut session, query, &idx, 0), RecognitionState::ConfidentMatch);
}

#[test]
fn trailing_window_is_bounded_by_audio_time_not_fingerprint_count() {
    let mut idx = InMemoryIndex::new();
    idx.finalize();
    let mut session = RecognitionSession::new(22_050, 1024);
    let dense: Vec<QueryFp> = (0..=1_000)
        .flat_map(|frame| {
            (0..10).map(move |salt| QueryFp { hash: frame * 10 + salt, anchor_time: frame })
        })
        .collect();
    ingest(&mut session, dense, &idx, 0);

    let first = session.fps.first().unwrap().anchor_time;
    let last = session.fps.last().unwrap().anchor_time;
    assert_eq!(last, 1_000);
    assert!(first >= 1_000 - session.max_window_frames);
    assert!(session.fps.len() > 2_000, "dense evidence was count-capped");
}

#[test]
fn matcher_evaluations_are_throttled_by_audio_time() {
    let mut idx = InMemoryIndex::new();
    idx.finalize();
    let mut session = RecognitionSession::new(22_050, 1024);
    for anchor_time in 0..100 {
        ingest(
            &mut session,
            vec![QueryFp { hash: anchor_time + 1, anchor_time }],
            &idx,
            0,
        );
    }
    assert!(
        session.evaluations <= 18,
        "100 worklet-sized batches caused {} full matcher runs",
        session.evaluations
    );
    assert!(session.evaluations >= 16);
}

#[test]
fn a_session_ends_by_the_extension_deadline() {
    let idx = solo_catalog(200);
    let mut session = RecognitionSession::new(22_050, 1024);
    ingest(&mut session, ramp(0, 30), &idx, 0);
    assert_eq!(session.poll_timeout(12_000_000), RecognitionState::Candidate);
    assert_eq!(session.poll_timeout(17_999_999), RecognitionState::Candidate);
    assert_eq!(session.poll_timeout(18_000_001), RecognitionState::NoMatch);
}

#[test]
fn no_way_leads_out_of_an_ended_session() {
    let idx = solo_catalog(200);
    let mut session = RecognitionSession::new(22_050, 1024);
    ingest(&mut session, ramp(0, 30), &idx, 0);
    assert_eq!(session.poll_timeout(13_000_000), RecognitionState::Candidate);
    assert!(session.extension_used);
    ingest(&mut session, ramp(30, 100), &idx, 14_000_000);
    assert_eq!(session.state, RecognitionState::ConfidentMatch);
    let outcome = session.outcome;
    assert_eq!(session.poll_timeout(60_000_000), RecognitionState::ConfidentMatch);
    assert_eq!(session.conclude(None, true, 60_000_000), RecognitionState::ConfidentMatch);
    assert_eq!(session.outcome, outcome);
}

#[test]
fn hit_rate_counts_window_hashes_of_the_catalog() {
    let idx = index_with_shared_hashes();
    let mut session = RecognitionSession::new(22_050, 1024);
    ingest(&mut session, query_batch(&[(100, 0), (101, 2), (7, 3), (8, 4)]), &idx, 0);
    assert_eq!(session.catalog_hit_rate(&idx), (2, 4));
}
