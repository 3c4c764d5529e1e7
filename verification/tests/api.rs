use sivana::api_error::ApiError;
use sivana::ids::RecordingId;
use sivana::limiter::{
    admit_session, ClientAddr, RateLimiter, MAX_CONCURRENT_SESSIONS, RATE_TABLE_IDLE_TTL_US,
    RATE_TABLE_MAX_ENTRIES, RATE_WINDOW_US, SESSIONS_PER_WINDOW,
};
use sivana::matcher::{InMemoryIndex, MatchParams, RarityTable};
use sivana::recognition::RecognitionState;
use sivana::server::{
    bearer_credential, build_index, classify_message, cors_answer, ends_connection, event_for,
    ingest_authorized, ingested_recording, listing_order, must_not_cache, parse_recording_id, CorsAnswer, EventKind,
    Incoming, SessionTable, Sidecar, UploadForm, MAX_BATCH_BYTES, SESSION_TTL_US,
};
use sivana::landmark::Fingerprint32;
use sivana::sfp::{decode_sfp_batch, encode_batch};
use sivana::text::is_white_space;
use sivana::youtube::{
    clean_youtube_artist, clean_youtube_title, metadata_key, select_square_artwork,
    validate_youtube_music_url, ItunesTrack,
};

fn v4(a: u8, b: u8, c: u8, d: u8) -> ClientAddr {
    ClientAddr { v6: false, bits: u32::from_be_bytes([a, b, c, d]) as u128 }
}

const SECOND: u64 = 1_000_000;

#[test]
fn ingest_token_is_required_when_configured() {
    assert!(ingest_authorized(Some("secret"), None).is_err());
    assert!(ingest_authorized(Some("secret"), Some("wrong")).is_err());
    assert_eq!(ingest_authorized(Some("secret"), None).unwrap_err().status(), 401);
    assert!(ingest_authorized(Some("secret"), Some("secret")).is_ok());
    assert!(ingest_authorized(None, None).is_ok());
    assert!(ingest_authorized(None, Some("anything")).is_ok());
}

#[test]
fn upload_is_open_without_a_configured_token() {
    let mut form = UploadForm::begin(None, None).ok().unwrap();
    form.take_link("not even a url".to_string());
    let e = form.finish(None).unwrap_err();
    assert_ne!(e.status(), 401);
}

#[test]
fn upload_rejects_missing_and_wrong_tokens() {
    let form = UploadForm::begin(Some("hunter2"), None);
    let e = match form {
        Ok(f) => f.finish(Some("hunter2")).unwrap_err(),
        Err(e) => e,
    };
    assert_eq!(e.status(), 401);
    let form = UploadForm::begin(Some("hunter2"), Some("Bearer wrong-password"));
    let e = match form {
        Ok(f) => f.finish(Some("hunter2")).unwrap_err(),
        Err(e) => e,
    };
    assert_eq!(e.status(), 401);
}

#[test]
fn upload_accepts_bearer_header() {
    let mut form = UploadForm::begin(Some("hunter2"), Some("Bearer hunter2")).ok().unwrap();
    form.take_link("definitely not a url".to_string());
    assert_eq!(form.finish(Some("hunter2")).unwrap_err().status(), 400);
}

#[test]
fn upload_accepts_token_form_field() {
    let mut form = UploadForm::begin(Some("hunter2"), None).ok().unwrap();
    form.take_token("hunter2".to_string());
    form.take_link("definitely not a url".to_string());
    assert_eq!(form.finish(Some("hunter2")).unwrap_err().status(), 400);

    let mut form = UploadForm::begin(Some("hunter2"), None).ok().unwrap();
    form.take_token("nope".to_string());
    assert_eq!(form.finish(Some("hunter2")).unwrap_err().status(), 401);
}

#[test]
fn uploads_report_what_is_missing() {
    let form = UploadForm::begin(None, None).ok().unwrap();
    assert_eq!(form.finish(None).unwrap_err(), ApiError::LinkMissing);

    let mut form = UploadForm::begin(None, None).ok().unwrap();
    form.take_link("https://youtu.be/dQw4w9WgXcQ".to_string());
    assert_eq!(form.finish(None).unwrap_err(), ApiError::AudioMissing);

    let mut form = UploadForm::begin(None, None).ok().unwrap();
    form.take_audio(0);
    form.take_link("x".repeat(2049));
    assert_eq!(form.finish(None).unwrap_err(), ApiError::EmptyAudio);

    let mut form = UploadForm::begin(None, None).ok().unwrap();
    form.take_link("x".repeat(2049));
    assert_eq!(form.finish(None).unwrap_err(), ApiError::LinkTooLong);

    let mut form = UploadForm::begin(None, None).ok().unwrap();
    form.take_link("x".repeat(2048));
    form.take_fault(ApiError::UnreadableAudio);
    assert_eq!(form.finish(None).unwrap_err(), ApiError::UnreadableAudio);

    let mut form = UploadForm::begin(None, None).ok().unwrap();
    form.take_link("https://youtu.be/dQw4w9WgXcQ".to_string());
    form.take_audio(10);
    assert_eq!(form.finish(None).unwrap(), "https://youtu.be/dQw4w9WgXcQ");

    assert_eq!(ingested_recording(&vec![4], &vec![9]).unwrap(), (4, false));
    assert_eq!(ingested_recording(&vec![], &vec![9]).unwrap(), (9, true));
    assert_eq!(ingested_recording(&vec![], &vec![]).unwrap_err(), ApiError::NothingIngested);
    assert_eq!(ApiError::NothingIngested.status(), 500);
    assert_eq!(ApiError::NoCatalog.message(), "This server has no writable catalog configured.");
}

#[test]
fn the_secret_is_asked_for_before_any_field() {
    let mut form = UploadForm::begin(Some("hunter2"), None).ok().unwrap();
    form.take_link("a".repeat(2049));
    assert_eq!(form.finish(Some("hunter2")).unwrap_err().status(), 401);

    let mut form = UploadForm::begin(Some("hunter2"), None).ok().unwrap();
    form.take_audio(0);
    form.take_token("nope".to_string());
    assert_eq!(form.finish(Some("hunter2")).unwrap_err().status(), 401);

    let mut form = UploadForm::begin(Some("hunter2"), None).ok().unwrap();
    form.take_audio(0);
    form.take_token("hunter2".to_string());
    assert_eq!(form.finish(Some("hunter2")).unwrap_err(), ApiError::EmptyAudio);
}

#[test]
fn bearer_credentials_are_read_from_the_header() {
    assert_eq!(bearer_credential(Some("Bearer hunter2")).as_deref(), Some("hunter2"));
    assert_eq!(bearer_credential(Some("Basic hunter2")), None);
    assert_eq!(bearer_credential(None), None);
}

#[test]
fn session_creation_rejects_at_the_concurrent_cap() {
    let mut limiter = RateLimiter::new();
    let a = v4(192, 168, 0, 1);
    assert!(admit_session(&mut limiter, a, 0, 0).is_ok());
    let e = admit_session(&mut limiter, a, 0, MAX_CONCURRENT_SESSIONS).unwrap_err();
    assert_eq!(e.status(), 429);
    assert_eq!(e, ApiError::SessionLimit);
    let e = admit_session(&mut limiter, v4(192, 168, 0, 2), 0, MAX_CONCURRENT_SESSIONS).unwrap_err();
    assert_eq!(e.status(), 429);
}

#[test]
fn session_creation_is_rate_limited_per_ip() {
    let mut limiter = RateLimiter::new();
    let ip = v4(192, 168, 0, 9);
    for _ in 0..SESSIONS_PER_WINDOW {
        assert!(limiter.check(ip, 0));
    }
    let e = admit_session(&mut limiter, ip, 0, 0).unwrap_err();
    assert_eq!(e, ApiError::RateLimited);
    assert_eq!(e.status(), 429);
    assert!(admit_session(&mut limiter, v4(192, 168, 0, 10), 0, 0).is_ok());
}

#[test]
fn rate_limiter_enforces_fixed_window() {
    let mut limiter = RateLimiter::new();
    let ip = v4(203, 0, 113, 7);
    let start = 5 * SECOND;
    let limit = 3;
    let window = 60 * SECOND;
    for _ in 0..limit {
        assert!(limiter.check_with(ip, start, limit, window));
    }
    assert!(!limiter.check_with(ip, start + SECOND, limit, window));
    assert!(!limiter.check_with(ip, start + 59 * SECOND, limit, window));
    assert!(limiter.check_with(ip, start + window, limit, window));
    assert!(limiter.check_with(ip, start + window + SECOND, limit, window));
    assert!(limiter.check_with(ip, start + window + 2 * SECOND, limit, window));
    assert!(!limiter.check_with(ip, start + window + 3 * SECOND, limit, window));
}

#[test]
fn rate_limiter_tracks_ips_independently() {
    let mut limiter = RateLimiter::new();
    let a = v4(203, 0, 113, 8);
    let b = v4(203, 0, 113, 9);
    for _ in 0..SESSIONS_PER_WINDOW {
        assert!(limiter.check(a, 0));
    }
    assert!(!limiter.check(a, 0));
    assert!(limiter.check(b, 0));
}

#[test]
fn rate_limiter_table_stays_bounded() {
    let mut limiter = RateLimiter::new();
    for i in 0..(RATE_TABLE_MAX_ENTRIES + 512) {
        let hi = ((i / 256) % 256) as u8;
        let lo = (i % 256) as u8;
        assert!(
            limiter.check_with(v4(198, 51, hi, lo), i as u64 * 1000, 1, RATE_WINDOW_US),
            "limit=1 with a fresh IP is always admitted"
        );
    }
    assert!(limiter.table_len() <= RATE_TABLE_MAX_ENTRIES);
}

#[test]
fn rate_limiter_evicts_idle_entries() {
    let mut limiter = RateLimiter::new();
    let ip = v4(192, 0, 2, 55);
    assert!(limiter.check(ip, 0));
    assert_eq!(limiter.table_len(), 1);
    assert!(limiter.check(ip, RATE_TABLE_IDLE_TTL_US + SECOND));
    assert_eq!(limiter.table_len(), 1);
    assert!(limiter.check(v4(192, 0, 2, 56), 3 * RATE_TABLE_IDLE_TTL_US));
    assert_eq!(limiter.table_len(), 1);
}

#[test]
fn malformed_batches_are_rejected() {
    assert!(decode_sfp_batch(b"").is_none());
    assert!(decode_sfp_batch(b"SFP2xxxx").is_none());
    assert!(decode_sfp_batch(&[0u8; 15]).is_none());
    let mut b = vec![b'S', b'F', b'P', b'1', 0, 0, 0, 0, 0, 0, 0, 0, 5, 0, 0, 0];
    b.extend_from_slice(&[0u8; 8]);
    assert!(decode_sfp_batch(&b).is_none());
}

#[test]
fn empty_catalog_is_a_finalized_matcher() {
    let index = build_index(&vec![]);
    let outcomes = index.query(&[], &MatchParams::default(), &RarityTable { weights: vec![] });
    assert!(outcomes.is_empty());
}

#[test]
fn youtube_music_links_are_constrained_to_video_urls() {
    assert!(validate_youtube_music_url("https://music.youtube.com/watch?v=dQw4w9WgXcQ").is_ok());
    assert!(validate_youtube_music_url("https://youtu.be/dQw4w9WgXcQ").is_ok());
    assert!(validate_youtube_music_url("http://music.youtube.com/watch?v=x").is_err());
    assert!(validate_youtube_music_url("https://example.com/watch?v=x").is_err());
    assert!(validate_youtube_music_url("https://music.youtube.com/playlist?list=x").is_err());
}

#[test]
fn links_are_trimmed_and_parsed() {
    assert_eq!(
        validate_youtube_music_url("  https://MUSIC.youtube.com/watch?v=abc \n").unwrap(),
        "https://music.youtube.com/watch?v=abc"
    );
    assert_eq!(
        validate_youtube_music_url("definitely not a url").unwrap_err(),
        ApiError::InvalidLink
    );
    assert_eq!(
        validate_youtube_music_url("https://example.com/watch?v=x").unwrap_err(),
        ApiError::UnsupportedLink
    );
    assert_eq!(
        validate_youtube_music_url("https://music.youtube.com/watch?list=x").unwrap_err(),
        ApiError::NoTrackId
    );
}

#[test]
fn youtube_presentation_suffixes_do_not_become_track_titles() {
    assert_eq!(
        clean_youtube_title(
            "Rick Astley - Never Gonna Give You Up (Official Video) (4K Remaster)",
            "Rick Astley"
        ),
        "Never Gonna Give You Up"
    );
    assert_eq!(
        clean_youtube_title("Song Name (feat. Guest)", "Artist"),
        "Song Name (feat. Guest)"
    );
}

#[test]
fn youtube_topic_suffix_is_removed_from_artist_credit() {
    assert_eq!(clean_youtube_artist("Toby Fox - Topic"), "Toby Fox");
    assert_eq!(clean_youtube_artist("Toby Fox"), "Toby Fox");
}

#[test]
fn square_artwork_requires_an_exact_track_and_artist() {
    let results = vec![
        ItunesTrack {
            track_name: "MEGALOVANIA (Remix)".into(),
            artist_name: "Toby Fox".into(),
            artwork_url100: "https://example.test/remix/100x100bb.jpg".into(),
        },
        ItunesTrack {
            track_name: "Megalovania".into(),
            artist_name: "Toby Fox".into(),
            artwork_url100: "https://example.test/original/100x100bb.jpg".into(),
        },
    ];
    assert_eq!(
        select_square_artwork(&results, "MEGALOVANIA", "Toby Fox").as_deref(),
        Some("https://example.test/original/600x600bb.jpg")
    );
    assert_eq!(select_square_artwork(&results, "MEGALOVANIA", "Someone Else"), None);
}

#[test]
fn keys_keep_letters_and_digits_in_lowercase() {
    assert_eq!(metadata_key("It's 4 \u{c9}T\u{c9}!"), "its4\u{e9}t\u{e9}");
    assert_eq!(metadata_key("\u{130}"), "i\u{307}");
}

#[test]
fn white_space_is_what_std_says() {
    for code in 0..=0x10ffffu32 {
        if let Some(c) = char::from_u32(code) {
            assert_eq!(is_white_space(c), c.is_whitespace(), "{code:x}");
        }
    }
}

#[test]
fn messages_are_classified() {
    let mut batch = Vec::new();
    encode_batch(&[Fingerprint32 { hash: 7, anchor_time: 9 }], 22_050, &mut batch);
    match classify_message(&batch) {
        Incoming::Batch { sample_rate_hz, fps } => {
            assert_eq!(sample_rate_hz, 22_050);
            assert_eq!(fps, vec![(7, 9)]);
        }
        _ => panic!("a batch"),
    }
    assert!(matches!(classify_message(b"SFP1"), Incoming::Malformed));
    assert!(matches!(
        classify_message(&vec![0u8; MAX_BATCH_BYTES + 1]),
        Incoming::TooLarge
    ));
}

fn catalog() -> InMemoryIndex {
    let fps: Vec<Fingerprint32> = (0..200)
        .map(|i| Fingerprint32 { hash: 500 + i, anchor_time: 100 + i })
        .collect();
    let mut bytes = Vec::new();
    encode_batch(&fps, 22_050, &mut bytes);
    build_index(&vec![
        Sidecar { recording: RecordingId::new(3), bytes },
        Sidecar { recording: RecordingId::new(4), bytes: vec![1, 2, 3] },
    ])
}

#[test]
fn unreadable_sidecars_are_skipped() {
    let index = catalog();
    assert_eq!(index.n_recordings(), 1);
    assert_eq!(index.len(), 200);
}

#[test]
fn a_connection_runs_to_a_confident_match() {
    let index = catalog();
    let rarity = RarityTable { weights: vec![693_147, 1000] };
    let params = MatchParams::default();
    let mut table = SessionTable::new();
    let batch: Vec<(u32, u32)> = (0..30).map(|i| (500 + i, 10 + i)).collect();
    let r = table.on_batch(1, 0, 22_050, &batch, &index, &params, &rarity).unwrap();
    assert_eq!(r.state, RecognitionState::Candidate);
    assert_eq!((r.hits, r.held, r.batches), (30, 30, 1));
    assert_eq!(table.active(), 1);
    assert!(!ends_connection(r.state));
    let batch: Vec<(u32, u32)> = (30..150).map(|i| (500 + i, 10 + i)).collect();
    let r = table.on_batch(1, 2 * SECOND, 22_050, &batch, &index, &params, &rarity).unwrap();
    assert_eq!(r.state, RecognitionState::ConfidentMatch);
    assert_eq!(r.outcome.unwrap().recording.as_u32(), 3);
    assert_eq!(r.capture_us, 2 * SECOND);
    assert!(ends_connection(r.state));
    assert_eq!(event_for(r.state, true).kind, EventKind::Matched);
    assert_eq!(event_for(RecognitionState::NoMatch, false).kind, EventKind::NoMatch);
    table.on_close(1);
}

#[test]
fn every_decisive_event_carries_the_hit_rate() {
    for has_outcome in [false, true] {
        for state in [RecognitionState::Candidate, RecognitionState::NoMatch] {
            let e = event_for(state, has_outcome);
            assert!(e.hit_rate);
            assert_eq!(e.evidence, has_outcome);
            assert!(!e.metadata);
        }
        assert!(!event_for(RecognitionState::Listening, has_outcome).hit_rate);
    }
    let matched = event_for(RecognitionState::ConfidentMatch, true);
    assert!(matched.hit_rate && matched.metadata);
    let unannounced = event_for(RecognitionState::ConfidentMatch, false);
    assert_eq!(unannounced.kind, EventKind::Listening);
    assert!(!unannounced.hit_rate);
}

#[test]
fn idle_sessions_expire() {
    let index = catalog();
    let rarity = RarityTable { weights: vec![693_147, 1000] };
    let mut table = SessionTable::new();
    table.on_batch(1, 0, 22_050, &vec![(1, 1)], &index, &MatchParams::default(), &rarity).unwrap();
    table.expire(SESSION_TTL_US - 1);
    assert_eq!(table.active(), 1);
    table.expire(SESSION_TTL_US + 1);
    assert_eq!(table.active(), 0);
}

#[test]
fn a_silent_connection_times_out() {
    let index = catalog();
    let mut table = SessionTable::new();
    assert!(table.on_tick(9, SECOND, 0, &index).is_none());
    assert!(table.on_tick(9, 30 * SECOND, 0, &index).is_some());
}

#[test]
fn presentation_rules() {
    assert_eq!(listing_order(&vec![3, 1, 2]), vec![1, 2, 3]);
    assert!(must_not_cache("/engine/pkg/sivana.wasm"));
    assert!(must_not_cache("/"));
    assert!(must_not_cache("/wasm/glue"));
    assert!(must_not_cache("/index.html"));
    assert!(!must_not_cache("/v1/recordings"));
    assert_eq!(cors_answer(true, true), CorsAnswer::Preflight);
    assert_eq!(cors_answer(false, true), CorsAnswer::AllowOrigin);
    assert_eq!(cors_answer(false, false), CorsAnswer::Plain);
}

#[test]
fn recording_ids_are_read_from_names() {
    assert_eq!(parse_recording_id("17"), Some(17));
    assert_eq!(parse_recording_id("4294967295"), Some(u32::MAX));
    assert_eq!(parse_recording_id("4294967296"), None);
    assert_eq!(parse_recording_id("x"), None);
    assert_eq!(parse_recording_id(""), None);
}

#[test]
fn at_most_32_sessions_run_at_a_time() {
    let index = catalog();
    let rarity = RarityTable { weights: vec![693_147, 1000] };
    let params = MatchParams::default();
    let mut table = SessionTable::new();
    let batch = vec![(1, 1)];
    for id in 0..32 {
        assert!(table.on_batch(id, 0, 22_050, &batch, &index, &params, &rarity).is_ok());
    }
    let e = table.on_batch(32, 0, 22_050, &batch, &index, &params, &rarity).unwrap_err();
    assert_eq!(e, ApiError::SessionLimit);
    assert_eq!(table.active(), 32);
    // Sessions that run go on, and a place that is free is taken.
    assert!(table.on_batch(7, 0, 22_050, &batch, &index, &params, &rarity).is_ok());
    table.on_close(7);
    assert!(table.on_batch(32, 0, 22_050, &batch, &index, &params, &rarity).is_ok());
    assert_eq!(table.active(), 32);
}
