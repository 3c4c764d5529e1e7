use sivana::ids::RecordingId;
use sivana::matcher::{InMemoryIndex, MatchOutcome, MatchParams, QueryFp, RarityTable, RARITY_FLOOR};
use std::collections::{BTreeMap, BTreeSet};

const H: u32 = 100;

fn rarity(index: &InMemoryIndex) -> RarityTable {
    let n = index.n_recordings() as f64;
    let weights = (0..=index.n_recordings())
        .map(|df| (((n + 1.0) / (df as f64 + 1.0)).ln().max(1e-3) * 1e6).round() as u32)
        .collect();
    RarityTable { weights }
}

fn query(index: &InMemoryIndex, q: &[QueryFp], params: &MatchParams) -> Vec<MatchOutcome> {
    index.query(q, params, &rarity(index))
}

fn concentration(o: &MatchOutcome) -> f64 {
    o.inlier_score as f64 / o.weighted_score as f64
}

fn margin(o: &MatchOutcome) -> f64 {
    if o.next_score > 0 {
        o.weighted_score as f64 / o.next_score as f64
    } else {
        1.0
    }
}

fn fps(list: &[(u32, u32)]) -> Vec<QueryFp> {
    list.iter()
        .map(|&(hash, anchor_time)| QueryFp { hash, anchor_time })
        .collect()
}

fn exact() -> MatchParams {
    MatchParams { offset_tolerance_frames: 0, ..MatchParams::default() }
}

#[test]
fn clean_query_finds_right_recording_and_offset() {
    let mut idx = InMemoryIndex::new();
    idx.add_recording(RecordingId::new(0), &[(H, 10), (200, 12)]);
    idx.add_recording(RecordingId::new(1), &[(H, 40), (201, 42)]);
    idx.finalize();

    let out = query(&idx, &fps(&[(H, 5)]), &MatchParams::default());
    assert_eq!(out.len(), 2);
    assert_eq!(out[0].recording, RecordingId::new(0));
    assert_eq!(out[1].recording, RecordingId::new(1));
}

#[test]
fn repeated_votes_beat_single_votes_via_idf_and_mass() {
    let mut idx = InMemoryIndex::new();
    idx.add_recording(RecordingId::new(0), &[(1, 100), (2, 102), (3, 104), (4, 106)]);
    idx.add_recording(RecordingId::new(1), &[(3, 999)]);
    idx.finalize();

    let out = query(&idx, &fps(&[(1, 0), (2, 0), (3, 0), (4, 0)]), &exact());
    assert!(!out.is_empty());
    assert_eq!(out[0].recording, RecordingId::new(0));
    assert_eq!(out[0].offset_frames, 100);
    assert!(out[0].weighted_score > out.get(1).map(|o| o.weighted_score).unwrap_or(0));
    assert!((concentration(&out[0]) - 1.0).abs() < 1e-6);
}

#[test]
fn unknown_query_returns_empty() {
    let mut idx = InMemoryIndex::new();
    idx.add_recording(RecordingId::new(0), &[(7, 1)]);
    idx.finalize();
    let out = query(&idx, &fps(&[(123456, 0)]), &MatchParams::default());
    assert!(out.is_empty());
}

#[test]
fn duplicate_query_hashes_counted_once() {
    let mut idx = InMemoryIndex::new();
    idx.add_recording(RecordingId::new(0), &[(9, 50)]);
    idx.finalize();
    let out = query(&idx, &fps(&[(9, 10), (9, 10), (9, 10)]), &MatchParams::default());
    assert_eq!(out[0].inliers, 1);
}

#[test]
fn df_counts_recordings_not_postings() {
    let mut idx = InMemoryIndex::new();
    let repeats: Vec<(u32, u32)> = (0..10).map(|i| (77, i * 5)).collect();
    idx.add_recording(RecordingId::new(0), &repeats);
    idx.add_recording(RecordingId::new(1), &[(77, 999)]);
    idx.add_recording(RecordingId::new(2), &[(77, 1000)]);
    idx.finalize();

    assert_eq!(idx.document_frequency(77), 3);

    let table = rarity(&idx);
    let w = table.weight(idx.document_frequency(77));
    assert!((w as f64 / 1e6 - 1e-3).abs() < 1e-6);
    assert_eq!(w, RARITY_FLOOR);
    assert!(w < table.weight(1), "common hash must weigh less than rare");
}

#[test]
fn rare_hash_outranks_common_hash_at_equal_votes() {
    let mut idx = InMemoryIndex::new();
    idx.add_recording(RecordingId::new(0), &[(500, 10), (600, 11)]);
    idx.add_recording(RecordingId::new(1), &[(500, 20)]);
    idx.add_recording(RecordingId::new(2), &[(500, 30)]);
    idx.finalize();

    let out = query(&idx, &fps(&[(500, 0), (600, 0)]), &MatchParams::default());
    assert_eq!(out.len(), 3);
    assert_eq!(out[0].recording, RecordingId::new(0), "rare-hash mass should dominate");
}

#[test]
fn offset_tolerance_merges_jittered_votes() {
    let mut idx = InMemoryIndex::new();
    idx.add_recording(RecordingId::new(0), &[(1, 110), (2, 111), (3, 112)]);
    idx.finalize();

    let q = fps(&[(1, 10), (2, 10), (3, 10)]);
    let split = query(&idx, &q, &exact());
    assert_eq!(split.len(), 1);
    assert_eq!(split[0].inliers, 1);
    assert_eq!(split[0].offset_frames, 100);

    let params = MatchParams { offset_tolerance_frames: 2, ..MatchParams::default() };
    let tol = query(&idx, &q, &params);
    assert_eq!(tol.len(), 1);
    assert_eq!(tol[0].inliers, 3, "jittered votes merge under T=2");
    assert!((concentration(&tol[0]) - 1.0).abs() < 1e-6);
    assert_eq!(tol[0].offset_frames, 100);
}

#[test]
fn close_votes_agree_wherever_they_lie() {
    for first in 90..110 {
        let mut idx = InMemoryIndex::new();
        idx.add_recording(RecordingId::new(0), &[(1, first), (2, first + 1)]);
        idx.finalize();
        let out = query(&idx, &fps(&[(1, 0), (2, 0)]), &MatchParams::default());
        assert_eq!(out.len(), 1);
        assert_eq!(out[0].inliers, 2, "{first}");
        assert_eq!(out[0].offset_frames, first as i64);
        assert_eq!(out[0].inlier_score, out[0].weighted_score);
    }
}

#[test]
fn inliers_agree_with_the_dominant_offset() {
    // Offset 104 is heaviest; 100 shares its window but lies too far from it,
    // and 106 agrees with it from beyond the window.
    let mut idx = InMemoryIndex::new();
    idx.add_recording(RecordingId::new(0), &[(1, 100), (2, 104), (3, 104), (4, 104), (5, 101), (6, 106)]);
    idx.finalize();
    let q = fps(&[(1, 0), (2, 0), (3, 0), (4, 0), (5, 0), (6, 0)]);
    let out = query(&idx, &q, &MatchParams::default());
    assert_eq!(out[0].offset_frames, 104);
    assert_eq!(out[0].inliers, 4);
    assert_eq!(out[0].inlier_score * 5, out[0].weighted_score * 4);
}

#[test]
fn margin_reflects_competitor_gap() {
    let mut idx = InMemoryIndex::new();
    idx.add_recording(RecordingId::new(0), &[(1, 50), (2, 52)]);
    idx.add_recording(RecordingId::new(1), &[(1, 90)]);
    idx.finalize();
    let out = query(&idx, &fps(&[(1, 0), (2, 0)]), &MatchParams::default());
    assert!(margin(&out[0]) > 1.5, "two votes vs one");
    assert!(out[0].margin_at_least(3, 2));
    assert_eq!(margin(&out[1]), 1.0, "no competitor below rank-2");

    let solo = query(&idx, &fps(&[(2, 0)]), &MatchParams::default());
    assert_eq!(margin(&solo[0]), 1.0, "single candidate has no rival");
}

#[test]
fn calibration_features_measure_uniqueness_and_span() {
    let mut idx = InMemoryIndex::new();
    idx.add_recording(
        RecordingId::new(0),
        &[(1, 100), (2, 102), (3, 104), (4, 106), (5, 108)],
    );
    idx.finalize();

    let q: Vec<QueryFp> = (0..5u32)
        .map(|i| QueryFp { hash: i + 1, anchor_time: i * 2 })
        .collect();
    let out = query(&idx, &q, &MatchParams::default());
    assert_eq!(out.len(), 1);
    assert_eq!(out[0].unique_aligned, 5);
    assert_eq!(out[0].query_span_frames, 8);
    assert!(out[0].inliers >= 5);
    assert!(out[0].mean_rarity_milli() > 500);

    let mut rep = InMemoryIndex::new();
    rep.add_recording(RecordingId::new(1), &[(9, 500), (9, 600), (9, 700)]);
    rep.add_recording(RecordingId::new(2), &[(9, 900)]);
    rep.finalize();
    let q_rep: Vec<QueryFp> = (0..4u32)
        .map(|i| QueryFp { hash: 9, anchor_time: i })
        .collect();
    let out_rep = query(&rep, &q_rep, &MatchParams::default());
    let rec2 = out_rep.iter().find(|o| o.recording.as_u32() == 2).unwrap();
    assert_eq!(rec2.unique_aligned, 1, "repeated hash must not inflate uniqueness");
}

#[test]
fn matching_is_deterministic_across_builds() {
    let build = || {
        let mut idx = InMemoryIndex::new();
        idx.add_recording(
            RecordingId::new(0),
            &[(1, 10), (1, 20), (2, 15), (3, 16), (4, 40)],
        );
        idx.add_recording(RecordingId::new(1), &[(1, 10), (2, 25), (3, 26)]);
        idx.add_recording(RecordingId::new(2), &[(1, 90), (4, 95)]);
        idx.finalize();
        idx
    };
    let q = fps(&[(1, 0), (2, 0), (3, 0), (4, 0)]);
    let a = query(&build(), &q, &MatchParams::default());
    let b = query(&build(), &q, &MatchParams::default());
    assert_eq!(a.len(), b.len());
    for (x, y) in a.iter().zip(b.iter()) {
        assert_eq!(x.recording, y.recording);
        assert_eq!(x.offset_frames, y.offset_frames);
        assert_eq!(x.weighted_score, y.weighted_score);
    }
}

#[test]
fn finalize_sorts_and_drops_repetitions() {
    let mut idx = InMemoryIndex::new();
    assert!(idx.is_empty());
    idx.add_recording(RecordingId::new(1), &[(5, 9), (5, 3), (5, 9)]);
    idx.add_recording(RecordingId::new(0), &[(5, 7)]);
    idx.finalize();
    idx.finalize();
    let list: Vec<(u32, u32)> = idx
        .postings_for(5)
        .unwrap()
        .iter()
        .map(|p| (p.recording.as_u32(), p.anchor_time))
        .collect();
    assert_eq!(list, vec![(0, 7), (1, 3), (1, 9)]);
    assert!(idx.postings_for(6).is_none());
    assert_eq!(idx.len(), 1);
    assert_eq!(idx.n_recordings(), 2);
    assert_eq!(idx.document_frequency(6), 0);
}

/// The shortlist computed with maps, one cell at a time.
fn by_maps(
    catalog: &[Vec<(u32, u32)>],
    query: &[QueryFp],
    params: &MatchParams,
    table: &RarityTable,
) -> Vec<MatchOutcome> {
    let tol = params.offset_tolerance_frames.max(0);
    let mut lists: BTreeMap<u32, BTreeSet<(u32, u32)>> = BTreeMap::new();
    for (rec, fps) in catalog.iter().enumerate() {
        for &(h, t) in fps {
            lists.entry(h).or_default().insert((rec as u32, t));
        }
    }
    // recording -> (exact offset, weight, hash, query anchor)
    let mut votes: BTreeMap<u32, Vec<(i64, u128, u32, u32)>> = BTreeMap::new();
    let mut seen = BTreeSet::new();
    for q in query {
        if !seen.insert(q.hash) {
            continue;
        }
        if let Some(list) = lists.get(&q.hash) {
            let df = list.iter().map(|p| p.0).collect::<BTreeSet<_>>().len() as u64;
            if df > params.stop_hash_df_threshold {
                continue;
            }
            for &(rec, t) in list {
                let offset = t as i64 - q.anchor_time as i64;
                votes
                    .entry(rec)
                    .or_default()
                    .push((offset, table.weight(df) as u128, q.hash, q.anchor_time));
            }
        }
    }
    let mass = |votes: &[(i64, u128, u32, u32)]| votes.iter().map(|v| v.1).sum::<u128>();
    let between = |rec: u32, lo: i64, hi: i64| -> Vec<(i64, u128, u32, u32)> {
        votes[&rec].iter().filter(|v| lo <= v.0 && v.0 <= hi).copied().collect()
    };
    let mut best: BTreeMap<u32, (i64, u128)> = BTreeMap::new();
    for (&rec, list) in &votes {
        for start in list.iter().map(|v| v.0).collect::<BTreeSet<_>>() {
            let m = mass(&between(rec, start, start + 2 * tol));
            match best.get(&rec) {
                Some(&(_, old)) if m <= old => {}
                _ => {
                    best.insert(rec, (start, m));
                }
            }
        }
    }
    let mut rows: Vec<(u32, i64, u128)> = best.into_iter().map(|(r, (c, m))| (r, c, m)).collect();
    rows.sort_by(|a, b| b.2.cmp(&a.2).then_with(|| a.0.cmp(&b.0)));
    rows.truncate(params.shortlist_len);
    let mut out = Vec::new();
    for (i, &(rec, start, score)) in rows.iter().enumerate() {
        let mut offsets: BTreeMap<i64, u128> = BTreeMap::new();
        for v in between(rec, start, start + 2 * tol) {
            *offsets.entry(v.0).or_default() += v.1;
        }
        let (offset, _) = offsets
            .iter()
            .max_by(|a, b| a.1.cmp(b.1).then_with(|| b.0.cmp(a.0)))
            .unwrap();
        let near = between(rec, offset - tol, offset + tol);
        out.push(MatchOutcome {
            recording: RecordingId::new(rec),
            weighted_score: score,
            inliers: near.len(),
            inlier_score: mass(&near),
            offset_frames: *offset,
            next_score: rows.get(i + 1).map(|r| r.2).unwrap_or(0),
            query_span_frames: near.iter().map(|v| v.3).max().unwrap()
                - near.iter().map(|v| v.3).min().unwrap(),
            unique_aligned: near.iter().map(|v| v.2).collect::<BTreeSet<_>>().len(),
            catalog_recordings: catalog.len() as u64,
        });
    }
    out
}

#[test]
fn queries_agree_with_maps() {
    let mut x = 99u64;
    let mut next = move |n: u64| {
        x = x.wrapping_mul(6364136223846793005).wrapping_add(1442695040888963407);
        ((x >> 33) % n) as u32
    };
    for round in 0..200u64 {
        let recordings = 1 + next(6);
        let catalog: Vec<Vec<(u32, u32)>> = (0..recordings)
            .map(|_| (0..next(60)).map(|_| (next(20), next(40))).collect())
            .collect();
        let mut idx = InMemoryIndex::new();
        for (rec, list) in catalog.iter().enumerate() {
            idx.add_recording(RecordingId::new(rec as u32), list);
        }
        idx.finalize();
        let q: Vec<QueryFp> = (0..next(30))
            .map(|_| QueryFp { hash: next(24), anchor_time: next(30) })
            .collect();
        let params = MatchParams {
            stop_hash_df_threshold: if round % 3 == 0 { 3 } else { u64::MAX },
            shortlist_len: (round % 5) as usize,
            offset_tolerance_frames: round as i64 % 4 - 1,
        };
        let table = rarity(&idx);
        assert_eq!(idx.query(&q, &params, &table), by_maps(&catalog, &q, &params, &table));
    }
}

#[test]
fn mean_rarity_is_the_mean_weight_of_the_inliers() {
    let mut idx = InMemoryIndex::new();
    idx.add_recording(RecordingId::new(0), &[(1, 50), (2, 52)]);
    idx.add_recording(RecordingId::new(1), &[(1, 90)]);
    idx.finalize();

    // One recording of two holds hash 2: its weight is ln(3/2).
    let rare = query(&idx, &fps(&[(2, 0)]), &MatchParams::default());
    assert_eq!(rare.len(), 1);
    assert_eq!(rare[0].catalog_recordings, 2);
    assert_eq!(rare[0].mean_rarity_milli(), 405);
    assert!((rare[0].mean_rarity_micro() as f64 / 1e6 - 0.405465).abs() < 1e-4);

    // Both hold hash 1: the floor, whatever the count.
    let common = query(&idx, &fps(&[(1, 0)]), &MatchParams::default());
    assert_eq!(common[0].mean_rarity_micro(), RARITY_FLOOR as u128);
    assert_eq!(common[0].mean_rarity_milli(), 1);

    // Together they pull the mean to the middle.
    let both = query(&idx, &fps(&[(1, 0), (2, 2)]), &MatchParams::default());
    assert_eq!(both[0].inliers, 2);
    assert_eq!(both[0].mean_rarity_micro(), (405_465 + 1000) / 2);

    // A catalog of one recording has nothing to compare with.
    let mut alone = InMemoryIndex::new();
    alone.add_recording(RecordingId::new(0), &[(1, 50)]);
    alone.finalize();
    let out = query(&alone, &fps(&[(1, 0)]), &MatchParams::default());
    assert_eq!(out[0].catalog_recordings, 1);
    assert_eq!(out[0].mean_rarity_milli(), 1000);
    let none = MatchOutcome { inliers: 0, inlier_score: 0, ..out[0] };
    assert_eq!(none.mean_rarity_milli(), 0);
}

#[test]
fn recordings_may_be_added_in_any_order() {
    let calls: [(u32, &[(u32, u32)]); 4] = [
        (0, &[(1, 10), (2, 20), (1, 10)]),
        (1, &[(2, 5)]),
        (2, &[]),
        (1, &[(1, 7), (3, 8)]),
    ];
    let build = |order: &[usize]| {
        let mut idx = InMemoryIndex::new();
        for &i in order {
            idx.add_recording(RecordingId::new(calls[i].0), calls[i].1);
        }
        idx.finalize();
        idx
    };
    let a = build(&[0, 1, 2, 3]);
    for order in [[3, 2, 1, 0], [1, 3, 0, 2], [2, 0, 3, 1]] {
        let b = build(&order);
        assert_eq!(a.len(), b.len());
        for h in 0..5 {
            assert_eq!(a.postings_for(h), b.postings_for(h));
        }
    }
    let list: Vec<(u32, u32)> = a
        .postings_for(1)
        .unwrap()
        .iter()
        .map(|p| (p.recording.as_u32(), p.anchor_time))
        .collect();
    assert_eq!(list, vec![(0, 10), (1, 7)]);
    assert!(a.postings_for(4).is_none());
}

#[test]
fn later_repeats_of_a_hash_do_not_vote() {
    let mut idx = InMemoryIndex::new();
    idx.add_recording(RecordingId::new(0), &[(1, 100), (2, 101), (3, 102)]);
    idx.add_recording(RecordingId::new(1), &[(2, 40)]);
    idx.finalize();
    let all = fps(&[(1, 0), (2, 1), (1, 9), (3, 2), (2, 60), (1, 0)]);
    let kept = fps(&[(1, 0), (2, 1), (3, 2)]);
    let params = MatchParams::default();
    assert_eq!(query(&idx, &all, &params), query(&idx, &kept, &params));
}
