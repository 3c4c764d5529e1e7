use sivana::bands::{quantize_bin, BandTable};
use sivana::peaks::{find_peaks_v2, Cell, Peak, PeakStreamer, PeaksV2Config};
use sivana::rng::XorShift64Star;
use sivana::sliding_max::{
    sliding_max, sliding_max_centered, sliding_max_centered_into, SlidingMaxScratch,
};

fn next_f32(rng: &mut XorShift64Star) -> f32 {
    rng.next_u24() as f32 / (1u32 << 24) as f32
}

fn next_bipolar(rng: &mut XorShift64Star) -> f32 {
    next_f32(rng) * 2.0 - 1.0
}

/// Integers that compare as the floats do.
fn key(f: f32) -> i32 {
    let b = f.to_bits() as i32;
    b ^ (((b >> 31) as u32) >> 1) as i32
}

fn keys(v: &[f32]) -> Vec<i32> {
    v.iter().map(|&f| key(f)).collect()
}

fn brute_force_centered(input: &[f32], r: usize) -> Vec<f32> {
    (0..input.len())
        .map(|i| {
            let lo = i.saturating_sub(r);
            let hi = (i + r + 1).min(input.len());
            input[lo..hi].iter().copied().fold(f32::NEG_INFINITY, f32::max)
        })
        .collect()
}

#[test]
fn centered_matches_brute_force_on_random_buffers() {
    let mut rng = XorShift64Star::new(321);
    for len in [1usize, 2, 7, 50, 333] {
        let buf: Vec<f32> = (0..len).map(|_| next_bipolar(&mut rng) * 100.0).collect();
        for r in [0usize, 1, 2, 5, 31] {
            assert_eq!(
                sliding_max_centered(&keys(&buf), r),
                keys(&brute_force_centered(&buf, r)),
                "len={len} r={r}"
            );
        }
    }
}

#[test]
fn causal_matches_brute_force() {
    let mut rng = XorShift64Star::new(999);
    for len in [1usize, 5, 40, 200] {
        let buf: Vec<f32> = (0..len).map(|_| next_bipolar(&mut rng)).collect();
        for w in [1usize, 2, 8] {
            let expect: Vec<f32> = (0..len)
                .map(|i| {
                    let lo = i.saturating_sub(w - 1);
                    buf[lo..=i].iter().copied().fold(f32::NEG_INFINITY, f32::max)
                })
                .collect();
            assert_eq!(sliding_max(&keys(&buf), w), keys(&expect), "len={len} w={w}");
        }
    }
}

#[test]
fn plateau_and_edge_semantics() {
    let buf = keys(&[1.0, 2.0, 2.0, 2.0, 1.0]);
    assert_eq!(sliding_max_centered(&buf, 1), keys(&[2.0, 2.0, 2.0, 2.0, 2.0]));
    assert_eq!(sliding_max_centered(&keys(&[7.0]), 4), keys(&[7.0]));
    assert_eq!(
        sliding_max_centered(&keys(&[1.0, 9.0, 2.0]), 10),
        keys(&[9.0, 9.0, 9.0])
    );
}

#[test]
fn tiny_buffers_with_large_radius() {
    assert_eq!(sliding_max_centered(&keys(&[3.0, 1.0]), 5), keys(&[3.0, 3.0]));
    assert_eq!(sliding_max_centered(&keys(&[1.0]), 0), keys(&[1.0]));
}

#[test]
fn sliding_max_empty_input_is_safe() {
    assert!(sliding_max_centered(&[], 3).is_empty());
    assert!(sliding_max(&[], 3).is_empty());
}

#[test]
fn centered_into_matches_allocating_variant() {
    let mut rng = XorShift64Star::new(55);
    let mut scratch = SlidingMaxScratch::new();
    for len in [1usize, 3, 17, 129] {
        let buf: Vec<f32> = (0..len).map(|_| next_bipolar(&mut rng) * 10.0).collect();
        for r in [0usize, 1, 3, 9] {
            let mut out = Vec::new();
            sliding_max_centered_into(&keys(&buf), r, &mut out);
            assert_eq!(out, sliding_max_centered(&keys(&buf), r), "len={len} r={r}");
            let mut again = Vec::new();
            scratch.centered_into(&keys(&buf), r, &mut again);
            assert_eq!(again, out);
        }
    }
}

fn to_db(m: f32) -> f32 {
    20.0 * m.max(1e-10).log10()
}

fn cell(m: f32) -> Cell {
    Cell { mag: key(m), level: (to_db(m) as f64 * 1e6).round() as i32 }
}

fn frame(v: &[f32]) -> Vec<Cell> {
    v.iter().map(|&m| cell(m)).collect()
}

fn cells(spec: &[Vec<f32>]) -> Vec<Vec<Cell>> {
    spec.iter().map(|f| frame(f)).collect()
}

fn random_spec(rng: &mut XorShift64Star, t: usize, f: usize) -> Vec<Vec<f32>> {
    (0..t)
        .map(|_| (0..f).map(|_| next_f32(rng) * 10.0).collect())
        .collect()
}

fn brute_local_max(spec: &[Vec<f32>], tr: usize, fr: usize) -> Vec<Peak> {
    let mut peaks = Vec::new();
    let (tl, fl) = (spec.len(), spec.first().map_or(0, |f| f.len()));
    for t in 0..tl {
        let mut dbs: Vec<i32> = spec[t].iter().map(|&m| cell(m).level).collect();
        dbs.sort();
        let floor = dbs[dbs.len() / 2];
        for b in 0..fl {
            let cur = spec[t][b];
            let mut is_max = true;
            for nt in t.saturating_sub(tr)..((t + tr + 1).min(tl)) {
                for nb in b.saturating_sub(fr)..((b + fr + 1).min(fl)) {
                    if nt == t && nb == b {
                        continue;
                    }
                    if spec[nt][nb] > cur
                        || (spec[nt][nb] == cur && (nt < t || (nt == t && nb < b)))
                    {
                        is_max = false;
                    }
                }
            }
            if is_max {
                peaks.push(Peak {
                    time_idx: t,
                    freq_bin_idx: b,
                    magnitude: key(cur),
                    prominence: cell(cur).level as i64 - floor as i64,
                });
            }
        }
    }
    peaks
}

#[test]
fn without_gates_candidates_equal_oracle() {
    let mut rng = XorShift64Star::new(777);
    let spec = random_spec(&mut rng, 12, 40);
    let cfg = PeaksV2Config {
        min_prominence: i64::MIN,
        max_peaks_per_frame: usize::MAX,
        ..Default::default()
    };
    let got = find_peaks_v2(&cells(&spec), &cfg);
    let want = brute_local_max(&spec, cfg.time_radius, cfg.freq_radius);
    assert_eq!(got, want);
}

#[test]
fn strong_tone_is_found_over_noise() {
    let mut spec = vec![vec![0.05f32; 256]; 20];
    let mut rng = XorShift64Star::new(4);
    for frame in spec.iter_mut() {
        for v in frame.iter_mut() {
            *v *= 0.5 + next_f32(&mut rng);
        }
    }
    spec[10][100] = 50.0;
    let peaks = find_peaks_v2(&cells(&spec), &PeaksV2Config::default());
    let event = peaks
        .iter()
        .find(|p| p.time_idx == 10 && p.freq_bin_idx == 100)
        .expect("event peak missing");
    assert_eq!(event.magnitude, key(50.0));
    assert!(event.prominence > 8_000_000);
    let scaled = spec
        .iter()
        .map(|f| f.iter().map(|v| v * 1000.0).collect::<Vec<_>>())
        .collect::<Vec<_>>();
    let peaks_scaled = find_peaks_v2(&cells(&scaled), &PeaksV2Config::default());
    let event_scaled = peaks_scaled
        .iter()
        .find(|p| p.time_idx == 10 && p.freq_bin_idx == 100)
        .expect("scaled event peak missing");
    assert!((event.prominence - event_scaled.prominence).abs() < 10_000);
}

#[test]
fn density_cap_limits_peaks_per_frame() {
    let mut rng = XorShift64Star::new(11);
    let spec = random_spec(&mut rng, 6, 300);
    let cfg = PeaksV2Config { max_peaks_per_frame: 3, ..Default::default() };
    let peaks = find_peaks_v2(&cells(&spec), &cfg);
    for t in 0..6 {
        let n = peaks.iter().filter(|p| p.time_idx == t).count();
        assert!(n <= 3, "frame {t} had {n} peaks");
    }
}

#[test]
fn peaks_v2_empty_input_is_safe() {
    assert!(find_peaks_v2(&[], &PeaksV2Config::default()).is_empty());
    assert!(find_peaks_v2(&[vec![]], &PeaksV2Config::default()).is_empty());
}

#[test]
fn peaks_v2_streaming_matches_batch_exactly() {
    let mut rng = XorShift64Star::new(4242);
    let spec = cells(&random_spec(&mut rng, 40, 97));
    let cfg = PeaksV2Config::default();
    let batch = find_peaks_v2(&spec, &cfg);

    let mut ps = PeakStreamer::new(97, cfg);
    let mut got = Vec::new();
    let mut chunk = Vec::new();
    for frame in &spec {
        ps.process_frame(frame, &mut chunk);
        got.append(&mut chunk);
    }
    ps.finish(&mut chunk);
    got.append(&mut chunk);
    assert_eq!(got, batch, "streamer must equal batch");
}

#[test]
fn emission_waits_for_lookahead_then_flows_in_order() {
    let mut rng = XorShift64Star::new(909090);
    let spec = cells(&random_spec(&mut rng, 10, 65));
    let cfg = PeaksV2Config::default();
    assert_eq!(cfg.time_radius, 2);

    let mut ps = PeakStreamer::new(65, cfg);
    let mut chunk = Vec::new();
    let mut last_time: i64 = -1;

    for (i, frame) in spec.iter().enumerate() {
        ps.process_frame(frame, &mut chunk);
        assert_eq!(
            ps.pending(),
            ((i + 1) as u64).min(cfg.time_radius as u64),
            "pending count after feeding frame {i}"
        );
        for p in chunk.drain(..) {
            assert!((p.time_idx as i64) > last_time, "out-of-order emission");
            last_time = p.time_idx as i64;
        }
    }
    ps.finish(&mut chunk);
    assert_eq!(ps.pending(), 0, "finish must drain every buffered frame");
    for p in chunk.drain(..) {
        assert!((p.time_idx as i64) > last_time, "out-of-order flush");
        last_time = p.time_idx as i64;
    }
}

#[test]
fn short_stream_flushes_with_truncated_windows() {
    let mut spec = vec![vec![0.1f32; 16], vec![0.1f32; 16]];
    spec[1][9] = 20.0;
    let spec = cells(&spec);
    let mut ps = PeakStreamer::new(16, PeaksV2Config::default());
    let mut got = Vec::new();
    let mut chunk = Vec::new();
    for frame in &spec {
        ps.process_frame(frame, &mut chunk);
        got.append(&mut chunk);
    }
    ps.finish(&mut chunk);
    got.append(&mut chunk);
    assert_eq!(got, find_peaks_v2(&spec, &PeaksV2Config::default()));
    assert!(got.iter().any(|p| p.time_idx == 1 && p.freq_bin_idx == 9));
}

#[test]
fn memory_stays_bounded_on_long_streams() {
    let mut rng = XorShift64Star::new(31337);
    let cfg = PeaksV2Config::default();
    let mut ps = PeakStreamer::new(33, cfg);
    let mut chunk = Vec::new();
    let bound = 2 * cfg.time_radius + 2;
    for _ in 0..2000 {
        let row: Vec<f32> = (0..33).map(|_| next_f32(&mut rng)).collect();
        ps.process_frame(&frame(&row), &mut chunk);
        assert!(ps.held() <= bound, "ring grew to {} rows", ps.held());
    }
    ps.finish(&mut chunk);
    assert!(ps.held() <= bound, "ring grew to {} rows", ps.held());
}

#[test]
fn background_trails_the_decided_frame() {
    let cfg = PeaksV2Config {
        time_radius: 1,
        freq_radius: 0,
        min_prominence: i64::MIN,
        background_min_window_frames: 1,
        background_margin: 6_000_000,
        ..PeaksV2Config::default()
    };
    assert!(find_peaks_v2(&cells(&[vec![1.0], vec![0.1]]), &cfg).is_empty());
    let wide = PeaksV2Config { background_min_window_frames: 2, ..cfg };
    let peaks = find_peaks_v2(&cells(&[vec![0.1], vec![1.0], vec![0.1]]), &wide);
    assert_eq!(peaks.iter().map(|p| p.time_idx).collect::<Vec<_>>(), vec![1]);
}

#[test]
fn suppressed_streams_equal_offline_decisions() {
    let mut rng = XorShift64Star::new(99);
    let spec = random_spec(&mut rng, 40, 9);
    let cfg = PeaksV2Config {
        min_prominence: i64::MIN,
        background_min_window_frames: 5,
        background_margin: 3_000_000,
        ..PeaksV2Config::default()
    };
    let free = PeaksV2Config { background_min_window_frames: 0, max_peaks_per_frame: 99, ..cfg };
    let frames = cells(&spec);
    let want: Vec<(usize, usize)> = find_peaks_v2(&frames, &free)
        .iter()
        .map(|p| (p.time_idx, p.freq_bin_idx))
        .filter(|&(t, b)| {
            let low = (t.saturating_sub(4)..=t).map(|u| frames[u][b].level as i64).min().unwrap();
            frames[t][b].level as i64 - low >= 3_000_000
        })
        .collect();
    let got: Vec<(usize, usize)> = find_peaks_v2(&frames, &PeaksV2Config { max_peaks_per_frame: 99, ..cfg })
        .iter()
        .map(|p| (p.time_idx, p.freq_bin_idx))
        .collect();
    assert!(!got.is_empty());
    assert_eq!(got, want);
}

#[test]
fn spectra_without_bins_map_to_the_top_band() {
    assert_eq!(quantize_bin(1, 0, 256), 255);
    assert_eq!(quantize_bin(0, 0, 256), 0);
    assert_eq!(quantize_bin(1, 0, 256), band_by_log(1, 0, 256));
}

#[test]
fn quantize_bin_spans_full_band_range_logarithmically() {
    let total = 1025;
    assert_eq!(quantize_bin(0, total, 256), 0);
    let top = quantize_bin(1024, total, 256);
    let low = quantize_bin(1, total, 256);
    assert!(top >= 250, "top bin band {top} should approach 256");
    assert!(low < 30, "first band {low} should sit near 0");
    assert!(low < top, "monotonic in bin");
}

/// The band by logarithms.
fn band_by_log(bin: usize, total_bins: usize, bands: u16) -> u16 {
    if bin == 0 || bands == 0 {
        return 0;
    }
    let f = (bin as f64 + 0.5) / total_bins as f64;
    let octaves = ((total_bins.saturating_sub(1)).max(2) as f64).log2();
    let log = (f.max(1e-9).log2() + octaves) / octaves;
    ((log * bands as f64) as u16).min(bands - 1)
}

#[test]
fn bands_agree_with_logarithms() {
    for bands in [64u16, 256, 512] {
        let table = BandTable::new(1025, bands);
        for bin in 0..1025 {
            assert_eq!(table.band(bin), band_by_log(bin, 1025, bands), "{bin} of {bands}");
        }
    }
    assert_eq!(BandTable::new(1025, 512).band(93), 335);
}
