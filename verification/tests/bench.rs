use sivana::bench::{
    accepts_landmark, accepts_triplets, aggregate, cell_of, degradations_of, excerpt_rng, find_landmark, find_legacy,
    find_triplets, held_out_seed, judge, lever_held_seed, percent, plan_cases, reference_index,
    table_of, track_name, track_seed, CaseResult, CorpusTrack, Enrolled, Finding, LeverTally,
    PlannedCase, RejectionCase, TrackPrints, Verdict, AFFINE_OFFSET_TOLERANCE,
    GATE_MIN_INLIERS_B1, OFFSET_TOLERANCE,
};
use sivana::calibrate::{evaluate, parse_band_list, parse_tolerance_list, recommend, sweep, CalibPoint};
use sivana::config::AlgorithmConfig;
use sivana::degradation::{chosen_grid, default_grid, lever_grid, Degradation};
use sivana::ids::RecordingId;
use sivana::landmark::LandmarkV2Config;
use sivana::legacy::MatchResult;
use sivana::loadgen::{ends_session, is_worth_sending, load_report, session_id, share_sessions};
use sivana::matcher::MatchOutcome;
use sivana::report::{render_comparison, render_markdown, to_markdown, RunSummary};
use sivana::rng::XorShift64Star;
use sivana::stats::{largest, median, percentile, sum};

#[test]
fn stats_helpers_are_sane() {
    let v = vec![10u64, 20];
    assert_eq!(sum(&v) as f64 / v.len() as f64, 15.0);
    assert_eq!(percentile(&vec![1, 2, 3, 4], 95), 4);
    let a = aggregate(&vec![], &vec![]);
    assert_eq!((a.track_hits, a.total_cases), (0, 0));
}

#[test]
fn order_statistics() {
    let v: Vec<u64> = (1..=100).rev().collect();
    assert_eq!(percentile(&v, 50), 50);
    assert_eq!(percentile(&v, 95), 95);
    assert_eq!(percentile(&v, 99), 99);
    assert_eq!(percentile(&v, 0), 1);
    assert_eq!(percentile(&vec![], 50), 0);
    assert_eq!(percentile(&vec![9, 7], 50), 7);
    assert_eq!(median(&vec![4, 1, 3, 2]), 3);
    assert_eq!(median(&vec![]), 0);
    assert_eq!(largest(&vec![4, 9, 3]), 9);
    assert_eq!(largest(&vec![]), 0);
}

#[test]
fn ids_are_stable() {
    assert_eq!(Degradation::Clean.id(), "clean");
    assert_eq!(Degradation::Speed { factor: 1_050_000 }.id(), "speed1.05");
}

#[test]
fn every_degradation_has_a_name() {
    let names = [
        (Degradation::Gain { db: 6_000_000 }, "gain+6db"),
        (Degradation::Gain { db: -2_500_000 }, "gain-2db"),
        (Degradation::Clip { threshold: 300_000 }, "clip0.30"),
        (Degradation::WhiteNoise { snr_db: 20_000_000 }, "white+20db"),
        (Degradation::PinkNoise { snr_db: 10_000_000 }, "pink+10db"),
        (Degradation::LowPass { cutoff_hz: 3_000_000_000 }, "lp3000"),
        (Degradation::HighPass { cutoff_hz: 150_000_000 }, "hp150"),
        (Degradation::Echo { delay_s: 150_000, gain: 400_000 }, "echo0.15s@0.4"),
        (Degradation::PitchShift { semitones: -2_000_000 }, "pitch-2.0st"),
        (Degradation::TimeStretch { factor: 1_100_000 }, "stretch1.10x"),
    ];
    for (d, name) in names {
        assert_eq!(d.id(), name);
    }
}

#[test]
fn grids() {
    let ids = |g: Vec<Degradation>| g.iter().map(|d| d.id()).collect::<Vec<_>>();
    assert_eq!(
        ids(default_grid()),
        vec![
            "clean", "white+20db", "white+10db", "pink+10db", "speed0.90", "speed1.05", "lp3000",
            "hp150", "clip0.30", "echo0.15s@0.4"
        ]
    );
    assert_eq!(
        ids(chosen_grid(&vec![5_000_000], &vec![0, 900_000], &vec![1_000_000], &vec![-1, 1_100_000])),
        vec![
            "clean", "white+5db", "pink+10db", "speed0.90", "pitch+1.0st", "stretch1.10x", "lp3000",
            "hp150", "clip0.30", "echo0.15s@0.4"
        ]
    );
    assert_eq!(
        ids(lever_grid()),
        vec!["clean", "pink+10db", "speed0.90", "pitch+2.0st", "stretch1.10x"]
    );
}

#[test]
fn the_case_matrix_is_walked_in_order() {
    let cases = plan_cases(2, 2, 3);
    assert_eq!(cases.len(), 12);
    assert_eq!(cases[7], PlannedCase { case_id: 7, track: 1, position: 0, degradation: 1 });
    assert_eq!(cases[11], PlannedCase { case_id: 11, track: 1, position: 1, degradation: 2 });
    assert!(plan_cases(3, 0, 4).is_empty());
    assert_eq!(track_name(2026, 3), "synthetic-2026-3");
    assert_eq!(track_seed(2026, 3), 2026 ^ 3u64.wrapping_mul(0x9E37_79B9_7F4A_7C15));
    assert_eq!(held_out_seed(5), 5 ^ 0xDEAD_BEEF);
    assert_eq!(
        lever_held_seed(5, 4),
        5 ^ 0xDEAD_BEEF ^ 4u64.wrapping_mul(0xA5A5_5A5A)
    );
    let mut a = excerpt_rng(2026, 2, 1);
    let mut b = XorShift64Star::new(2026 ^ 0x51E5).derive(2 * 977 + 1);
    assert_eq!(a.next_u64(), b.next_u64());
}

fn tracks() -> Vec<CorpusTrack> {
    (0..2)
        .map(|i| CorpusTrack { recording: RecordingId::new(i), name: track_name(1, i as u64) })
        .collect()
}

fn outcome(recording: u32, inliers: usize, inlier_score: u128) -> MatchOutcome {
    MatchOutcome {
        recording: RecordingId::new(recording),
        weighted_score: 100,
        inliers,
        inlier_score,
        offset_frames: 12,
        next_score: 0,
        query_span_frames: 3,
        unique_aligned: 4,
        catalog_recordings: 2,
    }
}

#[test]
fn verdicts() {
    let t = tracks();
    let name = track_name(1, 1);
    let found = |recording, offset_frames, passes_gate| {
        Some(Finding { recording: RecordingId::new(recording), offset_frames, passes_gate })
    };
    let v = judge(&t, &name, 10, OFFSET_TOLERANCE, found(1, 12, true));
    assert_eq!(v.matched_track.as_deref(), Some("synthetic-1-1"));
    assert!(v.track_hit && v.offset_hit && v.gated_hit);
    let v = judge(&t, &name, 10, OFFSET_TOLERANCE, found(1, 13, false));
    assert!(v.track_hit && !v.offset_hit && !v.gated_hit);
    let v = judge(&t, &name, 10, AFFINE_OFFSET_TOLERANCE, found(1, 2, false));
    assert!(v.offset_hit);
    let v = judge(&t, &name, 10, OFFSET_TOLERANCE, found(0, 10, true));
    assert!(!v.track_hit && !v.offset_hit && !v.gated_hit);
    let v = judge(&t, &name, 10, OFFSET_TOLERANCE, found(9, 10, true));
    assert_eq!(v.matched_track, None);
    let v = judge(&t, &name, i64::MIN, OFFSET_TOLERANCE, found(1, i64::MAX, true));
    assert!(v.track_hit && !v.offset_hit);
    let v = judge(&t, &name, 10, OFFSET_TOLERANCE, None);
    assert!(v.matched_track.is_none() && !v.track_hit);
}

#[test]
fn findings_of_the_engines() {
    let enrolled = vec![
        Enrolled { song_id: 7, recording: RecordingId::new(0) },
        Enrolled { song_id: 8, recording: RecordingId::new(1) },
    ];
    let m = |song_id, score| Some(MatchResult { song_id, score, time_offset_in_song_frames: 5 });
    let f = find_legacy(&enrolled, m(8, 100), 100).unwrap();
    assert_eq!((f.recording.as_u32(), f.offset_frames, f.passes_gate), (1, 5, true));
    assert!(!find_legacy(&enrolled, m(8, 99), 100).unwrap().passes_gate);
    assert!(find_legacy(&enrolled, m(9, 100), 100).is_none());
    assert!(find_legacy(&enrolled, None, 100).is_none());

    assert!(find_landmark(&vec![]).is_none());
    assert!(find_landmark(&vec![outcome(1, 7, 50)]).unwrap().passes_gate);
    assert!(!find_landmark(&vec![outcome(1, 6, 50)]).unwrap().passes_gate);
    assert!(!find_landmark(&vec![outcome(1, 7, 49)]).unwrap().passes_gate);
    assert!(!accepts_landmark(None));
    assert!(find_triplets(RecordingId::new(1), 210, 3).passes_gate);
    assert!(!find_triplets(RecordingId::new(1), 209, 3).passes_gate);
}

#[test]
fn triplets_are_accepted_by_their_inliers() {
    assert!(!accepts_triplets(None));
    assert!(!accepts_triplets(Some(GATE_MIN_INLIERS_B1 - 1)));
    assert!(accepts_triplets(Some(GATE_MIN_INLIERS_B1)));
}

#[test]
fn the_reference_index_holds_all_tracks() {
    let idx = reference_index(&vec![
        TrackPrints { recording: RecordingId::new(0), prints: vec![(1, 2), (3, 4)] },
        TrackPrints { recording: RecordingId::new(1), prints: vec![(1, 9)] },
    ]);
    assert_eq!(idx.n_recordings(), 2);
    assert_eq!(idx.document_frequency(1), 2);
    assert_eq!(idx.document_frequency(3), 1);
}

fn case(id: usize, degradation: &str, hits: (bool, bool, bool), us: (u64, u64)) -> CaseResult {
    CaseResult {
        case_id: id,
        degradation: degradation.to_string(),
        expected_track: "t".to_string(),
        verdict: Verdict {
            matched_track: None,
            track_hit: hits.0,
            offset_hit: hits.1,
            gated_hit: hits.2,
        },
        score: Some(9),
        offset_frames_expected: 0,
        offset_frames_matched: None,
        fingerprint_us: us.0,
        match_us: us.1,
        evidence: Some(outcome(0, 5 + id, 60)),
        fit: None,
    }
}

fn summary() -> RunSummary {
    RunSummary {
        engine: "landmark-v2".to_string(),
        fingerprint_version: "v2".to_string(),
        seed: 2026,
        sample_rate_hz: 22_050,
        track_ms: 15_000,
        n_tracks: 2,
        excerpt_ms: 8_000,
        config: AlgorithmConfig::legacy(),
        landmark_config: Some(LandmarkV2Config::default()),
        cases: vec![
            case(0, "white+10db", (true, true, false), (1000, 500)),
            case(1, "clean", (true, true, true), (2000, 1500)),
            case(2, "clean", (false, false, false), (4500, 1000)),
        ],
        rejection_cases: vec![
            RejectionCase {
                degradation: "clean".to_string(),
                accepted_by_gate: true,
                best_score: Some(8),
                evidence: Some(outcome(1, 6, 60)),
                fit: None,
            },
            RejectionCase {
                degradation: "speed0.90".to_string(),
                accepted_by_gate: false,
                best_score: None,
                evidence: None,
                fit: None,
            },
        ],
    }
}

#[test]
fn runs_add_up() {
    let s = summary();
    let a = s.aggregate();
    assert_eq!(a, aggregate(&s.cases, &s.rejection_cases));
    assert_eq!((a.total_cases, a.track_hits, a.offset_hits, a.gated_hits), (3, 2, 2, 1));
    assert_eq!((a.fingerprint_us, a.match_us, a.p95_total_us), (7500, 3000, 5500));
    assert_eq!((a.false_accepts, a.rejection_cases), (1, 2));
    assert_eq!(degradations_of(&s.cases), vec!["clean", "white+10db"]);
    let table = table_of(&s.cases);
    assert_eq!(table.len(), 2);
    assert_eq!((table[0].n, table[0].track_hits, table[0].fingerprint_us), (2, 1, 6500));
    let none = cell_of(&s.cases, &"x".to_string());
    assert_eq!((none.n, none.match_us), (0, 0));
    assert_eq!(percent(2, 3), Some(66));
    assert_eq!(percent(0, 0), None);
}

#[test]
fn a_run_is_rendered() {
    let text = render_markdown(&summary());
    let want = "# Sivana baseline benchmark\n\n\
        - engine: `landmark-v2` / fingerprint version v2\n\
        - corpus: 2 tracks x 15s @ 22050 Hz (seed 2026)\n\
        - query excerpt: 8.0s\n\n\
        ## Overall\n\n| metric | value |\n|---|---|\n\
        | cases | 3 |\n\
        | recall@1 (track identity) | 66.7% |\n\
        | recall@1 (+offset within 2 frames) | 66.7% |\n\
        | recall via legacy score gate | 33.3% |\n\
        | mean fingerprint time | 2.50 ms |\n\
        | mean match time | 1.00 ms |\n\
        | p95 total latency | 5.50 ms |\n\
        | out-of-catalog false accepts | 1/2 |\n\n\
        ## By degradation\n\n\
        | degradation | n | recall(track) | recall(offset) | gated | mean fp ms | mean match ms |\n\
        |---|---:|---:|---:|---:|---:|---:|\n\
        | clean | 2 | 50% | 50% | 50% | 3.25 | 1.25 |\n\
        | white+10db | 1 | 100% | 100% | 0% | 1.00 | 0.50 |\n\
        \n## Out-of-catalog rejection\n\n\
        | degradation | accepted (should be no) | best score |\n|---|---|---:|\n\
        | clean | **YES** | 8 |\n\
        | speed0.90 | no | - |\n";
    assert_eq!(text, want);
}

#[test]
fn engines_are_compared() {
    let mut other = summary();
    other.engine = "b1".to_string();
    other.cases = vec![case(0, "clean", (true, false, false), (10, 10))];
    let text = render_comparison(&vec![summary(), other]);
    assert!(text.starts_with("# Sivana engine comparison\n\nSame corpus seed"));
    assert!(text.contains(
        "| degradation | landmark-v2 track/offset/gated | b1 track/offset/gated |\n|---|---|---|\n"
    ));
    assert!(text.contains("| clean | 50%/50%/50% | 100%/0%/0% |\n"));
    assert!(text.contains("| white+10db | 100%/100%/0% | -/-/- |\n"));
    assert!(text.ends_with("| b1 | 100.0% | 0.0% | 0.0% | 0.01 | 0.01 | 1/2 |\n"));
}

#[test]
fn gates_are_swept_and_recommended() {
    let s = summary();
    let points = sweep(&s.cases, &s.rejection_cases, 6, 7, &vec![0, 50, 70]);
    assert_eq!(points.len(), 6);
    assert_eq!(
        points[1],
        CalibPoint {
            min_inliers: 6,
            min_concentration_percent: 50,
            hits: 1,
            total: 3,
            false_accepts: 1,
            rejection_cases: 2,
        }
    );
    assert_eq!(points[4], evaluate(&s.cases, &s.rejection_cases, 7, 50));
    assert!(sweep(&s.cases, &s.rejection_cases, 8, 7, &vec![0]).is_empty());

    let p = |min_inliers, min_concentration_percent, hits, false_accepts| CalibPoint {
        min_inliers,
        min_concentration_percent,
        hits,
        total: 10,
        false_accepts,
        rejection_cases: 4,
    };
    let list = vec![p(3, 50, 9, 1), p(6, 20, 7, 0), p(5, 40, 7, 0), p(5, 30, 7, 0), p(4, 0, 6, 0)];
    assert_eq!(recommend(&list), Some(list[3]));
    assert_eq!(recommend(&list[..1].to_vec()), None);

    let text = to_markdown("landmark-v2", &list);
    assert!(text.starts_with("## Calibration \u{2014} landmark-v2\n\nGate: accept iff"));
    assert!(text.contains("| 6 | 0.20 | 70.0% | 0/4 |\n"));
    assert!(text.contains(
        "**Recommended (FA = 0, max recall):** a = 5, b = 0.30, gated recall 70.0%.\n"
    ));
    assert!(to_markdown("x", &vec![]).contains("No zero-false-accept operating point"));
}

#[test]
fn lists_on_the_command_line() {
    assert_eq!(parse_band_list("64, 128,100,+256,x,0,65536,32768"), vec![64, 128, 256, 32768]);
    assert!(parse_band_list("").is_empty());
    assert_eq!(parse_tolerance_list("0, 2,-1,-0,+3,x,9223372036854775808"), vec![0, 2, 0, 3]);
    assert_eq!(parse_tolerance_list("9223372036854775807"), vec![i64::MAX]);
    assert!(parse_tolerance_list("-+0").is_empty());
}

#[test]
fn levers_are_tallied() {
    let mut t = LeverTally::new();
    let rec = RecordingId::new;
    t.count_case(rec(0), Some((rec(0), 300)));
    t.count_case(rec(0), Some((rec(1), 400)));
    t.count_case(rec(1), Some((rec(1), 100)));
    t.count_case(rec(1), None);
    t.count_rejection(Some(209));
    t.count_rejection(Some(210));
    t.count_rejection(None);
    let r = t.result();
    assert_eq!((r.hits, r.total), (2, 4));
    assert_eq!((r.false_accepts_210, r.rejection_cases), (1, 2));
    assert_eq!((r.max_rejection_inliers, r.median_match_inliers), (210, 300));
}

#[test]
fn load_is_shared_among_workers() {
    assert_eq!(share_sessions(100, 8), (8, 13));
    assert_eq!(share_sessions(16, 8), (8, 2));
    assert_eq!(share_sessions(5, 0), (1, 5));
    assert_eq!(session_id(3, 7), 3_000_007);
    assert!(is_worth_sending(17));
    assert!(!is_worth_sending(16));
    assert!(ends_session("{\"state\":\"matched\"}"));
    assert!(ends_session("{\"state\":\"no_match\"}"));
    assert!(!ends_session("{\"state\":\"candidate\"}"));
    let r = load_report(5, &vec![30, 10, 20]);
    assert_eq!((r.sessions_ok, r.sessions_failed), (3, 2));
    assert_eq!((r.p50_us, r.p95_us, r.p99_us), (20, 30, 30));
}
