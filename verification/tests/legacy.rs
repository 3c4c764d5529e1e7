use sivana::legacy::{
    create_hashes, find_peaks, song_fingerprints, song_id_of, EnrollError, Fingerprint, Insertion,
    MatchResult, OffsetHistogram, Peak, Verbosity, Zone, MAX_PAIRS_PER_ANCHOR, MIN_MATCH_SCORE,
    TARGET_ZONE_DF_ABS_MAX_BINS, TARGET_ZONE_DT_MAX_FRAMES, TARGET_ZONE_DT_MIN_FRAMES,
};

fn peak(time_idx: usize, freq_bin_idx: usize) -> Peak {
    Peak { time_idx, freq_bin_idx }
}

#[test]
fn of_equal_cells_the_first_is_the_peak() {
    let s = vec![vec![5, 5, 0, 0], vec![5, 0, 0, 7], vec![0, 0, 0, 0]];
    assert_eq!(find_peaks(&s, 1, 1, 1), vec![peak(0, 0), peak(1, 3)]);
    assert_eq!(find_peaks(&s, 1, 1, 6), vec![peak(1, 3)]);
    assert_eq!(find_peaks(&s, 0, 0, 5).len(), 4);
    assert!(find_peaks(&[], 2, 5, 0).is_empty());
    assert!(find_peaks(&[vec![]], 2, 5, 0).is_empty());
}

#[test]
fn anchors_pair_with_the_first_targets_of_their_zone() {
    let peaks = [peak(0, 500), peak(0, 400), peak(30, 250), peak(31, 1000), peak(90, 500)];
    let fps = create_hashes(&peaks, 1, 50, 250, 5);
    assert_eq!(
        fps,
        vec![
            Fingerprint { hash: (500 << 18) | (250 << 8) | 30, anchor_time_idx: 0 },
            Fingerprint { hash: (400 << 18) | (250 << 8) | 30, anchor_time_idx: 0 },
        ]
    );
    assert_eq!(create_hashes(&peaks, 0, 1000, 2000, 2).len(), 2 + 2 + 2 + 1);
    assert!(create_hashes(&peaks[..1], 1, 50, 200, 5).is_empty());
    assert_eq!(
        (TARGET_ZONE_DT_MIN_FRAMES, TARGET_ZONE_DT_MAX_FRAMES, TARGET_ZONE_DF_ABS_MAX_BINS),
        (1, 50, 200)
    );
    assert_eq!(MAX_PAIRS_PER_ANCHOR, 5);
}

#[test]
fn the_fullest_offset_wins() {
    let mut h = OffsetHistogram::new();
    assert_eq!(h.best(0), None);
    h.count(2, 10, 3);
    h.count(1, 50, 40);
    h.count(2, 11, 4);
    h.count(1, 60, 40);
    assert_eq!(
        h.best(1),
        Some(MatchResult { song_id: 2, score: 2, time_offset_in_song_frames: 7 })
    );
    assert_eq!(h.best(3), None);
    h.count(1, 0, 40);
    h.count(1, 1, 41);
    // Of equal ones the first by song and offset.
    assert_eq!(
        h.best(2),
        Some(MatchResult { song_id: 1, score: 2, time_offset_in_song_frames: -40 })
    );
    assert_eq!(MIN_MATCH_SCORE, 100);
}

#[test]
fn song_ids_come_from_the_database() {
    assert_eq!(song_id_of(Insertion::Inserted(7)), Ok(7));
    assert_eq!(song_id_of(Insertion::Found(9)), Ok(9));
    assert_eq!(song_id_of(Insertion::Inserted(0)), Err(EnrollError::NoSongId));
    assert_eq!(song_id_of(Insertion::Refused), Err(EnrollError::NotInserted));
    assert_eq!(song_id_of(Insertion::Absent), Err(EnrollError::NotFound));
    assert_eq!(song_id_of(Insertion::LookupFailed), Err(EnrollError::LookupFailed));
}

#[test]
fn enrollment_says_what_a_song_lacks() {
    let zone = Zone {
        dt_min_frames: 1,
        dt_max_frames: 50,
        df_abs_max_bins: 200,
        max_pairs_per_anchor: 5,
    };
    assert_eq!(song_fingerprints(&[], (2, 5, 2), &zone), Err(EnrollError::NoSpectrogram));
    let flat = vec![vec![0; 20]; 10];
    assert_eq!(song_fingerprints(&flat, (2, 5, 2), &zone), Err(EnrollError::NoPeaks));
    let mut one = flat.clone();
    one[3][3] = 9;
    assert_eq!(song_fingerprints(&one, (2, 5, 2), &zone), Err(EnrollError::NoFingerprints));
    let mut two = one.clone();
    two[8][15] = 9;
    assert_eq!(
        song_fingerprints(&two, (2, 5, 2), &zone),
        Ok(vec![Fingerprint { hash: (3 << 18) | (15 << 8) | 5, anchor_time_idx: 3 }])
    );
}

#[test]
fn debug_output_is_on_until_turned_off() {
    let mut v = Verbosity::default();
    assert!(v.is_verbose());
    v.set_verbose(false);
    assert!(!v.is_verbose());
}
