use sivana::affine::{affine_candidates, trim_points, Candidate, FIT_PASSES, MIN_POINTS};
use sivana::ids::RecordingId;
use sivana::matcher::{InMemoryIndex, RarityTable};
use sivana::peaks::Peak;
use sivana::triplets::{fingerprint_triplets, TripletFp, TripletsConfig};

fn peak(t: usize, f: usize) -> Peak {
    Peak { time_idx: t, freq_bin_idx: f, magnitude: 1, prominence: 20_000_000 }
}

fn peaks_from_bins(bins: &[(usize, usize)]) -> Vec<Peak> {
    bins.iter().map(|&(t, f)| peak(t, f)).collect()
}

const BASE: [(usize, usize); 8] = [
    (10, 40),
    (12, 55),
    (15, 48),
    (18, 70),
    (21, 52),
    (25, 80),
    (28, 60),
    (31, 90),
];

#[test]
fn triplets_are_invariant_to_uniform_scaling() {
    let base = peaks_from_bins(&BASE);
    let scaled: Vec<Peak> = base
        .iter()
        .map(|p| Peak { time_idx: p.time_idx * 2, freq_bin_idx: p.freq_bin_idx * 2, ..*p })
        .collect();
    let cfg = TripletsConfig { span_frames: 48, ..Default::default() };
    let h1: Vec<u32> = fingerprint_triplets(&base, &cfg).into_iter().map(|f| f.hash).collect();
    let h2: Vec<u32> = fingerprint_triplets(&scaled, &cfg).into_iter().map(|f| f.hash).collect();
    assert!(!h1.is_empty());
    let set1: std::collections::HashSet<u32> = h1.into_iter().collect();
    let set2: std::collections::HashSet<u32> = h2.into_iter().collect();
    let shared = set1.intersection(&set2).count();
    assert!(
        shared >= set1.len() * 7 / 10,
        "only {shared}/{} hashes survived scaling",
        set1.len()
    );
}

#[test]
fn exact_scaling_keeps_every_hash() {
    // Three times as slow, and every frequency in the middle of its bin
    // times three.
    let base = peaks_from_bins(&BASE);
    let scaled: Vec<Peak> = BASE.iter().map(|&(t, f)| peak(3 * t, 3 * f + 1)).collect();
    let cfg = TripletsConfig::default();
    let wide = TripletsConfig { span_frames: 36, ..cfg };
    let h1: Vec<u32> = fingerprint_triplets(&base, &cfg).iter().map(|f| f.hash).collect();
    let h2: Vec<u32> = fingerprint_triplets(&scaled, &wide).iter().map(|f| f.hash).collect();
    assert!(!h1.is_empty());
    assert_eq!(h1, h2);
}

/// The hash by logarithms.
fn triplets_by_log(peaks: &[Peak], cfg: &TripletsConfig) -> Vec<TripletFp> {
    let q_ratio = |r: f64, bits: u32| {
        let v = ((r.log2() + 4.0) / 8.0).clamp(0.0, 1.0 - 1e-9);
        (v * (1u32 << bits) as f64) as u32
    };
    let band = |bin: usize| ((bin >> cfg.quant_band_power) as f64) + 0.5;
    let mut out = Vec::new();
    let bits = cfg.freq_ratio_bits.min(12);
    let steps = cfg.time_ratio_steps.clamp(16, 65536);
    for (i, a) in peaks.iter().enumerate() {
        let mut near = Vec::new();
        for p in &peaks[i + 1..] {
            let dt = p.time_idx.saturating_sub(a.time_idx);
            if dt == 0 {
                continue;
            }
            if dt > cfg.span_frames || near.len() >= cfg.fanout {
                break;
            }
            near.push(p);
        }
        for j in 0..near.len() {
            for k in j + 1..near.len() {
                let (b, c) = (near[j], near[k]);
                if b.time_idx == c.time_idx {
                    continue;
                }
                let f1 = band(a.freq_bin_idx);
                let q1 = q_ratio(band(b.freq_bin_idx) / f1, bits);
                let q2 = q_ratio(band(c.freq_bin_idx) / f1, bits);
                let r = (b.time_idx - a.time_idx) as f64 / (c.time_idx - a.time_idx) as f64;
                let tr = (r.clamp(0.0, 1.0 - 1e-9) * steps as f64) as u32;
                let base = (q1 << (32 - bits)) | (q2 << (32 - 2 * bits));
                for dt in [tr.saturating_sub(1), tr, (tr + 1).min(steps - 1)] {
                    out.push(TripletFp {
                        hash: base | ((dt % 16) << (28 - 2 * bits)),
                        t1: a.time_idx as u32,
                    });
                }
            }
        }
    }
    out
}

#[test]
fn triplets_agree_with_logarithms() {
    let mut x = 12345u64;
    let mut next = |n: u64| {
        x = x.wrapping_mul(6364136223846793005).wrapping_add(1442695040888963407);
        (x >> 33) % n
    };
    let mut peaks = Vec::new();
    let mut t = 0;
    for _ in 0..200 {
        t += next(4) as usize;
        peaks.push(peak(t, next(1025) as usize));
    }
    for cfg in [
        TripletsConfig::default(),
        TripletsConfig { quant_band_power: 2, ..Default::default() },
        TripletsConfig { freq_ratio_bits: 2, time_ratio_steps: 64, ..Default::default() },
        TripletsConfig { freq_ratio_bits: 20, fanout: 3, ..Default::default() },
    ] {
        let got = fingerprint_triplets(&peaks, &cfg);
        assert!(got.len() > 100);
        assert_eq!(got, triplets_by_log(&peaks, &cfg));
    }
}

struct Fit {
    recording: u32,
    inliers: usize,
    time_scale: f64,
}

/// Least squares over the points, trimmed after every pass.
fn fit_affine(c: &Candidate) -> Option<Fit> {
    if c.pairs.len() < MIN_POINTS {
        return None;
    }
    let mut pts: Vec<(f64, f64)> = c.pairs.iter().map(|p| (p.t_q as f64, p.t_db as f64)).collect();
    let mut a = 1.0;
    for _ in 0..FIT_PASSES {
        let n = pts.len() as f64;
        let (mut sx, mut sy, mut sxx, mut sxy) = (0.0, 0.0, 0.0, 0.0);
        for &(x, y) in &pts {
            sx += x;
            sy += y;
            sxx += x * x;
            sxy += x * y;
        }
        let denom: f64 = n * sxx - sx * sx;
        let b;
        if denom.abs() < 1e-9 {
            a = 1.0;
            b = (sy - sx).max(0.0) / n;
        } else {
            a = (n * sxy - sx * sy) / denom;
            b = (sy - a * sx) / n;
        }
        let bits: Vec<u64> = pts.iter().map(|&(x, y)| (y - (a * x + b)).abs().to_bits()).collect();
        let kept = trim_points(&bits)?;
        pts = kept.into_iter().map(|i| pts[i]).collect();
    }
    Some(Fit { recording: c.rec, inliers: pts.len(), time_scale: a })
}

#[test]
fn affine_matching_identifies_scaled_copy() {
    let catalog_peaks = peaks_from_bins(&[
        (100, 40),
        (104, 60),
        (108, 44),
        (112, 75),
        (116, 50),
        (120, 88),
        (124, 58),
    ]);
    let cfg = TripletsConfig { span_frames: 24, ..Default::default() };
    let fps = fingerprint_triplets(&catalog_peaks, &cfg);
    assert!(fps.len() >= 4);

    let mut idx = InMemoryIndex::new();
    idx.add_recording(
        RecordingId::new(0),
        &fps.iter().map(|f| (f.hash, f.t1)).collect::<Vec<_>>(),
    );
    idx.finalize();

    let shifted: Vec<TripletFp> = fingerprint_triplets(
        &peaks_from_bins(&[
            (210, 80),
            (218, 120),
            (226, 88),
            (234, 150),
            (242, 100),
            (250, 176),
            (258, 116),
        ]),
        &cfg,
    );
    let outcomes: Vec<Fit> = affine_candidates(&idx, &shifted, 3, None)
        .iter()
        .filter_map(fit_affine)
        .collect();
    assert!(!outcomes.is_empty(), "no candidate survived");
    let best = &outcomes[0];
    assert_eq!(best.recording, 0);
    assert!(best.inliers >= MIN_POINTS);
    assert!(
        best.time_scale > 0.3 && best.time_scale < 0.7,
        "implausible fitted scale {}",
        best.time_scale
    );
}

fn q(hash: u32, t1: u32) -> TripletFp {
    TripletFp { hash, t1 }
}

#[test]
fn candidates_are_ranked_by_mass() {
    let mut idx = InMemoryIndex::new();
    idx.add_recording(RecordingId::new(0), &[(1, 10), (2, 20)]);
    idx.add_recording(RecordingId::new(1), &[(1, 5), (3, 7), (4, 9)]);
    idx.add_recording(RecordingId::new(2), &[(9, 9)]);
    idx.finalize();
    let query = [q(4, 1), q(3, 2), q(1, 3), q(2, 4), q(77, 5)];
    let out = affine_candidates(&idx, &query, 5, None);
    let ranked: Vec<(u32, u128)> = out.iter().map(|c| (c.rec, c.mass)).collect();
    assert_eq!(ranked, vec![(1, 3), (0, 2)]);
    let pairs: Vec<(u32, u32)> = out[0].pairs.iter().map(|p| (p.t_q, p.t_db)).collect();
    assert_eq!(pairs, vec![(3, 5), (2, 7), (1, 9)]);
    assert_eq!(affine_candidates(&idx, &query, 1, None).len(), 1);

    // A hash that every recording has says nothing.
    let mut common = InMemoryIndex::new();
    common.add_recording(RecordingId::new(0), &[(1, 10)]);
    common.add_recording(RecordingId::new(1), &[(1, 10)]);
    common.finalize();
    assert!(affine_candidates(&common, &[q(1, 0)], 5, None).is_empty());

    // By rarity the rare hash outweighs.
    let table = RarityTable { weights: vec![0, 900, 500_000] };
    let out = affine_candidates(&idx, &[q(1, 3), q(9, 1)], 5, Some(&table));
    let ranked: Vec<(u32, u128)> = out.iter().map(|c| (c.rec, c.mass)).collect();
    assert_eq!(ranked, vec![(0, 500_000), (1, 500_000), (2, 1000)]);
}

#[test]
fn a_pass_drops_the_worst_fifth() {
    let bits = |v: &[f64]| v.iter().map(|r| r.to_bits()).collect::<Vec<u64>>();
    assert_eq!(
        trim_points(&bits(&[5.0, 1.0, 3.0, 2.0, 4.0])).unwrap(),
        vec![1, 3, 2, 4]
    );
    assert_eq!(trim_points(&bits(&[1.0, 24.0, 0.0, 0.5])).unwrap(), vec![2, 3, 0, 1]);
    assert!(trim_points(&bits(&[1.0, 24.1, 0.0, 0.5])).is_none());
    assert!(trim_points(&bits(&[1.0, 2.0, 0.0])).is_none());
}
