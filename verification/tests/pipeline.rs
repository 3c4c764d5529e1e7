use rustfft::num_complex::Complex;
use rustfft::FftPlanner;
use sivana::engine::{engine_name, operating_point, FingerprintEngine};
use sivana::framing::FrameStreamer;
use sivana::hash::{pack_hash32, unpack_hash32, Hash32};
use sivana::ids::RecordingId;
use sivana::ingest::{source_digest, CatalogState, IngestRun, TARGET_SAMPLE_RATE};
use sivana::landmark::{fingerprint, Fingerprint32, LandmarkStreamer, LandmarkV2Config};
use sivana::matcher::{InMemoryIndex, MatchOutcome, MatchParams, QueryFp, RarityTable};
use sivana::peaks::Cell;
use sivana::recognition::{RecognitionSession, RecognitionState};
use sivana::rng::XorShift64Star;
use sivana::server::{build_index, Sidecar};
use sivana::sfp::decode_sfp_batch;

// ---- signals ----

fn next_f32(rng: &mut XorShift64Star) -> f32 {
    rng.next_u24() as f32 / (1u64 << 24) as f32
}

fn next_bipolar(rng: &mut XorShift64Star) -> f32 {
    next_f32(rng) * 2.0 - 1.0
}

const SCALE_SEMITONES: [f32; 12] = [
    0.0, 2.0, 3.0, 5.0, 7.0, 8.0, 10.0, 12.0, 10.0, 7.0, 5.0, 3.0,
];

fn envelope(pos_s: f32, len_s: f32) -> f32 {
    let attack = 0.05_f32.min(len_s * 0.2);
    let release = 0.15_f32.min(len_s * 0.3);
    let a = if pos_s < attack { pos_s / attack } else { 1.0 };
    let rel_pos = len_s - pos_s;
    let r = if rel_pos < release { rel_pos.max(0.0) / release } else { 1.0 };
    a * r
}

fn synth_song(seed: u64, duration_s: f32, sample_rate: u32) -> Vec<f32> {
    let mut rng = XorShift64Star::new(seed);
    let total = (duration_s * sample_rate as f32) as usize;
    let sr = sample_rate as f32;
    let tau = std::f32::consts::TAU;
    let bpm = 90.0 + next_f32(&mut rng) * 50.0;
    let beat = 60.0 / bpm;
    let root_hz = 110.0 * 2.0_f32.powf(next_bipolar(&mut rng) * 0.5);
    let chord_degrees = [
        rng.next_u64() % 7,
        rng.next_u64() % 7,
        rng.next_u64() % 7,
        rng.next_u64() % 7,
    ];
    let pad_h2 = 0.25 + next_f32(&mut rng) * 0.40;
    let pad_h3 = 0.10 + next_f32(&mut rng) * 0.25;
    let pad_gain = 0.16 + next_f32(&mut rng) * 0.12;
    let melody_gain = 0.22 + next_f32(&mut rng) * 0.16;
    let melody_h2 = 0.05 + next_f32(&mut rng) * 0.30;
    let perc_gain = 0.18 + next_f32(&mut rng) * 0.14;
    let mut out = vec![0.0f32; total];

    let bar_len_s = beat * 4.0;
    let mut t = 0.0;
    let mut bar_i = 0usize;
    while t < duration_s {
        let degree = chord_degrees[bar_i % chord_degrees.len()];
        let chord_root = root_hz * 2.0_f32.powf(degree as f32 / 12.0);
        let intervals = [(0.0, 1.0), (3.0 / 12.0, 0.6), (7.0 / 12.0, 0.7), (5.0 / 12.0, 0.35)];
        let seg_start = (t * sr) as usize;
        let seg_end = (((t + bar_len_s).min(duration_s)) * sr) as usize;
        let seg_end = seg_end.min(total).max(seg_start);
        for (k, slot) in out[seg_start..seg_end].iter_mut().enumerate() {
            let ts = k as f32 / sr;
            let env = envelope(ts, bar_len_s);
            let mut s = 0.0;
            for (ratio, amp) in intervals {
                let f = chord_root * 2.0_f32.powf(ratio);
                s += amp
                    * pad_gain
                    * ((tau * f * ts).sin()
                        + pad_h2 * (tau * f * 2.0 * ts).sin()
                        + pad_h3 * (tau * f * 3.0 * ts).sin());
            }
            *slot += s * env;
        }
        t += bar_len_s;
        bar_i += 1;
    }

    let note_len = beat / 2.0;
    let mut nt = 0.0;
    while nt < duration_s {
        if next_f32(&mut rng) < 0.85 {
            let semi = SCALE_SEMITONES[(rng.next_u64() % 12) as usize];
            let f = root_hz * 4.0 * 2.0_f32.powf(semi / 12.0);
            let start = (nt * sr) as usize;
            let end = (((nt + note_len).min(duration_s)) * sr) as usize;
            let end = end.min(total);
            for (k, slot) in out[start..end].iter_mut().enumerate() {
                let ts = k as f32 / sr;
                let env = (-ts * 6.0).exp().min(1.0);
                *slot += melody_gain
                    * env
                    * ((tau * f * ts).sin() + melody_h2 * (tau * f * 2.0 * ts).sin());
            }
        }
        nt += note_len;
    }

    let mut bt = 0.0;
    let mut beat_i = 0usize;
    while bt < duration_s {
        if beat_i % 2 == 0 && next_f32(&mut rng) < 0.9 {
            let start = (bt * sr) as usize;
            let burst_len = (0.06 * sr) as usize;
            for (k, slot) in out[start.min(total)..].iter_mut().take(burst_len).enumerate() {
                let env = (-(k as f32 / burst_len as f32) * 7.0).exp();
                *slot += perc_gain * env * next_bipolar(&mut rng);
            }
        }
        bt += beat;
        beat_i += 1;
        let _ = next_f32(&mut rng);
    }

    let peak = out.iter().fold(0.0f32, |m, s| m.max(s.abs()));
    if peak > 1e-9 {
        let g = 0.89 / peak;
        for s in out.iter_mut() {
            *s *= g;
        }
    }
    let n = ((0.01 * sample_rate as f32) as usize).min(out.len() / 2);
    for i in 0..n {
        let g = i as f32 / n as f32;
        out[i] *= g;
        let last = out.len() - 1 - i;
        out[last] *= g;
    }
    out
}

fn excerpt(samples: &[f32], sample_rate: u32, start_s: f32, dur_s: f32) -> Vec<f32> {
    let start = ((start_s * sample_rate as f32) as usize).min(samples.len());
    let end = (start + (dur_s * sample_rate as f32) as usize).min(samples.len());
    samples[start..end].to_vec()
}

fn rms(v: &[f32]) -> f32 {
    (v.iter().map(|s| s * s).sum::<f32>() / v.len().max(1) as f32).sqrt()
}

fn mix_at_snr(signal: &[f32], noise: &[f32], snr_db: f32) -> Vec<f32> {
    let gain = rms(signal) / 10f32.powf(snr_db / 20.0) / rms(noise);
    signal.iter().zip(noise).map(|(s, n)| s + gain * n).collect()
}

fn white(len: usize, seed: u64) -> Vec<f32> {
    let mut rng = XorShift64Star::new(seed | 1);
    (0..len).map(|_| next_bipolar(&mut rng) * 1.732_050_8).collect()
}

fn pink(len: usize, seed: u64) -> Vec<f32> {
    let mut rng = XorShift64Star::new(seed | 1);
    let mut b = [0.0f32; 6];
    (0..len)
        .map(|_| {
            let w = next_bipolar(&mut rng);
            b[0] = 0.99886 * b[0] + w * 0.0555179;
            b[1] = 0.99332 * b[1] + w * 0.0750759;
            b[2] = 0.96900 * b[2] + w * 0.1538520;
            b[3] = 0.86650 * b[3] + w * 0.3104856;
            b[4] = 0.55000 * b[4] + w * 0.5329522;
            b[5] = -0.7616 * b[5] - w * 0.0168980;
            b.iter().sum::<f32>() + w * 0.5362
        })
        .collect()
}

fn tone_pair(sr: u32) -> Vec<f32> {
    let notes = [1000.0f32, 1250.0, 1500.0, 2000.0];
    let note_len = (sr as usize * 3) / 4;
    let n = sr as usize * 12;
    (0..n)
        .map(|i| {
            let f = notes[(i / note_len) % notes.len()];
            let into_note = i % note_len;
            let env = ((into_note.min(note_len - into_note) as f32 / (0.06 * sr as f32)).min(1.0))
                .sqrt();
            0.5 * env * (std::f32::consts::TAU * f * i as f32 / sr as f32).sin()
        })
        .collect()
}

// ---- spectrograms ----

/// Frames of a signal, transformed into cells.
struct Spectrum {
    frames: FrameStreamer,
    fft: std::sync::Arc<dyn rustfft::Fft<f32>>,
    window: Vec<f32>,
    bits: Vec<u32>,
}

impl Spectrum {
    fn new(cfg: &LandmarkV2Config) -> Spectrum {
        let n = cfg.fft_window;
        let window = (0..n)
            .map(|i| 0.5 * (1.0 - (std::f32::consts::TAU * i as f32 / n as f32).cos()))
            .collect();
        Spectrum {
            frames: FrameStreamer::new(n, cfg.hop),
            fft: FftPlanner::<f32>::new().plan_fft_forward(n),
            window,
            bits: Vec::new(),
        }
    }

    fn feed(&mut self, samples: &[f32]) -> Vec<Vec<Cell>> {
        let bits: Vec<u32> = samples.iter().map(|s| s.to_bits()).collect();
        self.frames.feed(&bits);
        let mut out = Vec::new();
        while self.frames.next_frame(&mut self.bits).is_some() {
            let mut buf: Vec<Complex<f32>> = self
                .bits
                .iter()
                .zip(&self.window)
                .map(|(&b, w)| Complex::new(f32::from_bits(b) * w, 0.0))
                .collect();
            self.fft.process(&mut buf);
            let bins = self.window.len() / 2 + 1;
            out.push(
                buf[..bins]
                    .iter()
                    .map(|c| {
                        let m = c.norm();
                        let db = 20.0 * m.max(1e-10).log10();
                        Cell {
                            mag: m.to_bits() as i32,
                            level: (db as f64 * 1e6).round() as i32,
                        }
                    })
                    .collect(),
            );
        }
        out
    }
}

fn prints(samples: &[f32], cfg: &LandmarkV2Config) -> Vec<Fingerprint32> {
    fingerprint(&Spectrum::new(cfg).feed(samples), cfg)
}

fn pairs(fps: &[Fingerprint32]) -> Vec<(u32, u32)> {
    fps.iter().map(|f| (f.hash, f.anchor_time)).collect()
}

fn queries(fps: &[Fingerprint32]) -> Vec<QueryFp> {
    fps.iter()
        .map(|f| QueryFp { hash: f.hash, anchor_time: f.anchor_time })
        .collect()
}

fn rarity(index: &InMemoryIndex) -> RarityTable {
    let n = index.n_recordings() as f64;
    let weights = (0..=index.n_recordings())
        .map(|df| (((n + 1.0) / (df as f64 + 1.0)).ln().max(1e-3) * 1e6).round() as u32)
        .collect();
    RarityTable { weights }
}

fn query(index: &InMemoryIndex, fps: &[Fingerprint32]) -> Vec<MatchOutcome> {
    index.query(&queries(fps), &MatchParams::default(), &rarity(index))
}

// ---- tests ----

#[test]
fn produces_fingerprints_for_tonal_audio() {
    let fps = prints(&tone_pair(22_050), &LandmarkV2Config::default());
    assert!(!fps.is_empty());
    assert!(fps.len() > 50);
}

#[test]
fn stationary_tones_are_rejected_after_adaptation() {
    let n = 22_050usize * 14;
    let steady: Vec<f32> = (0..n)
        .map(|i| {
            let t = i as f32 / 22_050.0;
            0.5 * (std::f32::consts::TAU * 1000.0 * t).sin()
                + 0.3 * (std::f32::consts::TAU * 3000.0 * t).sin()
        })
        .collect();
    let fps = prints(&steady, &LandmarkV2Config::default());
    let late = fps.iter().filter(|f| f.anchor_time >= 130).count();
    assert_eq!(late, 0, "steady-state stationary tone must yield zero landmarks, got {late}");
}

#[test]
fn determinism_same_input_same_hashes() {
    let sig = tone_pair(16_000);
    let a = prints(&sig, &LandmarkV2Config::default());
    let b = prints(&sig, &LandmarkV2Config::default());
    assert_eq!(a, b);
}

#[test]
fn silence_yields_nothing() {
    let fps = prints(&vec![0.0f32; 22_050 * 2], &LandmarkV2Config::default());
    assert!(fps.is_empty());
}

#[test]
fn hashes_fit_32_bits_with_high_low_split() {
    let fps = prints(&tone_pair(22_050), &LandmarkV2Config::default());
    for fp in fps.iter().take(200) {
        let parts = unpack_hash32(Hash32(fp.hash));
        assert!(parts.dt <= 50, "dt {}/255 out of zone", parts.dt);
        assert_eq!(pack_hash32(parts.f1, parts.f2, parts.dt).0, fp.hash);
        assert_eq!(Hash32(fp.hash).high16(), (fp.hash >> 16) as u16);
    }
}

#[test]
fn fingerprints_come_in_anchor_order() {
    let fps = prints(&tone_pair(22_050), &LandmarkV2Config::default());
    assert!(fps.windows(2).all(|w| w[0].anchor_time <= w[1].anchor_time));
    assert!(fps[0].anchor_time < fps[fps.len() - 1].anchor_time);
}

#[test]
fn fingerprinter_streaming_matches_batch_exactly() {
    let sig = tone_pair(22_050);
    let cfg = LandmarkV2Config::default();
    let batch = prints(&sig, &cfg);

    let mut s = LandmarkStreamer::new(&cfg);
    let mut spectrum = Spectrum::new(&cfg);
    let mut got = Vec::new();
    for piece in sig.chunks(3333) {
        for frame in spectrum.feed(piece) {
            s.process_frame(&frame);
        }
    }
    s.finish();
    s.drain_into(&mut got);
    assert_eq!(got.len(), batch.len(), "same fingerprint count");
    for (a, b) in got.iter().zip(batch.iter()) {
        assert_eq!(a.hash, b.hash, "stream vs batch hash");
        assert_eq!(a.anchor_time, b.anchor_time);
    }
}

#[test]
fn draining_cadence_does_not_matter() {
    let sig = tone_pair(22_050);
    let cfg = LandmarkV2Config::default();

    let mut per_chunk = Vec::new();
    let mut s1 = LandmarkStreamer::new(&cfg);
    let mut spectrum = Spectrum::new(&cfg);
    let mut sink = Vec::new();
    for piece in sig.chunks(1024) {
        for frame in spectrum.feed(piece) {
            s1.process_frame(&frame);
        }
        s1.drain_into(&mut sink);
        per_chunk.append(&mut sink);
    }
    s1.finish();
    s1.drain_into(&mut per_chunk);

    let mut once = Vec::new();
    let mut s2 = LandmarkStreamer::new(&cfg);
    for frame in Spectrum::new(&cfg).feed(&sig) {
        s2.process_frame(&frame);
    }
    s2.finish();
    s2.drain_into(&mut once);

    assert_eq!(per_chunk, once);
}

#[test]
fn golden_fixture_hash_stream_is_stable() {
    let song = synth_song(2026, 8.0, 22_050);
    let cfg = operating_point();
    let a = prints(&song, &cfg);
    let b = prints(&song, &cfg);
    assert_eq!(a.len(), b.len(), "fingerprint count differs between runs");
    assert!(
        a.iter().zip(b.iter()).all(|(x, y)| x == y),
        "identical input produced different hashes"
    );
}

#[test]
fn moderate_amplitude_scaling_preserves_most_hashes() {
    let song = synth_song(7, 8.0, 22_050);
    let cfg = operating_point();
    let base = prints(&song, &cfg);

    let quieter: Vec<f32> = song.iter().map(|s| s * 0.35).collect();
    let scaled = prints(&quieter, &cfg);

    let base_set: std::collections::HashSet<(u32, u32)> = pairs(&base).into_iter().collect();
    let scaled_set: std::collections::HashSet<(u32, u32)> = pairs(&scaled).into_iter().collect();
    let overlap = base_set.intersection(&scaled_set).count() as f64;
    let union = base_set.union(&scaled_set).count() as f64;
    let jaccard = overlap / union;
    assert!(
        jaccard >= 0.60,
        "amplitude scaling destroyed fingerprints: jaccard {jaccard:.3} (base {} scaled {})",
        base_set.len(),
        scaled_set.len()
    );
}

#[test]
fn silence_prefix_shifts_anchor_times_preserving_hashes() {
    let song = synth_song(99, 6.0, 22_050);
    let cfg = operating_point();

    let silence = vec![0.0f32; 3 * 1024];
    let mut shifted_input = silence.clone();
    shifted_input.extend_from_slice(&song);
    let shifted = prints(&shifted_input, &cfg);
    assert!(!shifted.is_empty());

    let hop = cfg.hop as u32;
    let expected_shift = (silence.len() as u32) / hop;
    let win = cfg.peaks.background_min_window_frames;
    assert!(win > 0, "whitening must be active in ingest config");
    let transient_frames = expected_shift + win as u32 + 4;
    let base_map: std::collections::HashMap<u32, Vec<u32>> = {
        let mut m: std::collections::HashMap<u32, Vec<u32>> = std::collections::HashMap::new();
        for f in prints(&song, &cfg) {
            m.entry(f.hash).or_default().push(f.anchor_time);
        }
        m
    };
    let compared: Vec<_> = shifted
        .iter()
        .filter(|f| f.anchor_time >= transient_frames)
        .collect();
    assert!(!compared.is_empty(), "comparison region emptied");
    let matched = compared
        .iter()
        .filter(|f| {
            base_map
                .get(&f.hash)
                .map(|times| {
                    times
                        .iter()
                        .any(|t| t.abs_diff(f.anchor_time.saturating_sub(expected_shift)) <= 1)
                })
                .unwrap_or(false)
        })
        .count();
    let ratio = matched as f64 / compared.len() as f64;
    assert!(
        ratio >= 0.85,
        "silence prefix changed hash population outside the transient: \
         {matched}/{} ({ratio:.2})",
        compared.len()
    );
}

#[test]
fn recognition_decision_is_platform_independent() {
    let cfg = operating_point();
    let mut idx = InMemoryIndex::new();
    for rec in 0..4u32 {
        let song = synth_song(500 + rec as u64, 12.0, 22_050);
        idx.add_recording(RecordingId::new(rec), &pairs(&prints(&song, &cfg)));
    }
    idx.finalize();

    let song = synth_song(501, 12.0, 22_050);
    let clean = excerpt(&song, 22_050, 3.0, 7.0);
    let degraded = mix_at_snr(&clean, &pink(clean.len(), 0x0516_31D0 ^ 42), 10.0);

    let outcomes = query(&idx, &prints(&degraded, &cfg));
    let top = outcomes.first().expect("no candidates for a known track");
    assert_eq!(top.recording.as_u32(), 1, "wrong winner under degradation");
    assert!(
        top.concentration_at_least(1, 2) && top.inliers >= 7,
        "evidence collapsed: inliers {}",
        top.inliers
    );
    if let Some(second) = outcomes.get(1) {
        assert!(
            top.weighted_score > second.weighted_score,
            "winner not separated from runner-up"
        );
    }
}

#[test]
fn full_pipeline_finds_the_right_recording() {
    let cfg = LandmarkV2Config::default();
    let mut idx = InMemoryIndex::new();
    for rec in 0..2u32 {
        let song = synth_song(1000 + rec as u64, 15.0, 22_050);
        idx.add_recording(RecordingId::new(rec), &pairs(&prints(&song, &cfg)));
    }
    idx.finalize();

    let song = synth_song(1000, 15.0, 22_050);
    let clean = excerpt(&song, 22_050, 2.5, 10.0);
    let noisy = mix_at_snr(&clean, &white(clean.len(), 0xBADC_0DE0 ^ 1), 10.0);
    let mut engine = FingerprintEngine::new(22_050, cfg);
    let mut spectrum = Spectrum::new(&cfg);
    let mut session = RecognitionSession::new(22_050, cfg.hop);

    let params = MatchParams::default();
    let table = rarity(&idx);
    let mut final_state = RecognitionState::Listening;
    for piece in noisy.chunks(22050 / 4) {
        for frame in spectrum.feed(piece) {
            engine.process_frame(&frame);
        }
        let mut batch = Vec::new();
        engine.take_batch(&mut batch);
        if batch.len() <= 16 {
            continue;
        }
        let Some((_, fps)) = decode_sfp_batch(&batch) else {
            panic!("server failed to decode its own engine's batch");
        };
        let batch = fps
            .into_iter()
            .map(|(h, t)| QueryFp { hash: h, anchor_time: t })
            .collect();
        final_state = session.ingest(batch, &idx, &params, &table, 0);
        if final_state == RecognitionState::ConfidentMatch {
            break;
        }
    }

    assert_eq!(
        final_state,
        RecognitionState::ConfidentMatch,
        "streaming session should reach a confident match"
    );
    let o = session.outcome.unwrap();
    assert_eq!(o.recording.as_u32(), 0, "right recording identified");
}

#[test]
fn batch_format_roundtrips_and_is_stable() {
    let sig = synth_song(7, 3.0, 22_050);
    let cfg = LandmarkV2Config::default();
    let mut e = FingerprintEngine::new(22_050, cfg);
    let mut spectrum = Spectrum::new(&cfg);
    for piece in sig.chunks(997) {
        for frame in spectrum.feed(piece) {
            e.process_frame(&frame);
        }
    }
    e.finish();
    let mut batch = Vec::new();
    e.take_batch(&mut batch);

    assert_eq!(&batch[..4], b"SFP1");
    let major = u32::from_le_bytes(batch[4..8].try_into().unwrap());
    let sr = u32::from_le_bytes(batch[8..12].try_into().unwrap());
    let count = u32::from_le_bytes(batch[12..16].try_into().unwrap()) as usize;
    assert_eq!(sr, 22_050);
    assert_eq!(major, 1);
    assert_eq!(batch.len(), 16 + count * 8);

    let direct = prints(&sig, &cfg);
    assert_eq!(count, direct.len());
    for (i, fp) in direct.iter().enumerate() {
        let h = u32::from_le_bytes(batch[16 + i * 8..20 + i * 8].try_into().unwrap());
        let t = u32::from_le_bytes(batch[20 + i * 8..24 + i * 8].try_into().unwrap());
        assert_eq!((h, t), (fp.hash, fp.anchor_time));
    }
}

#[test]
fn golden_fixture_digest_is_pinned() {
    let sig = synth_song(2026, 5.0, 22_050);
    let fps = prints(&sig, &LandmarkV2Config::default());
    let mut h = 0x811C_9DC5u32;
    for fp in &fps {
        for b in fp
            .hash
            .to_le_bytes()
            .iter()
            .chain(fp.anchor_time.to_le_bytes().iter())
        {
            h ^= *b as u32;
            h = h.wrapping_mul(0x0100_0193);
        }
    }
    assert!(fps.len() > 100, "fixture should produce a real fingerprint stream");
    assert_eq!(h, 0xA449_337C, "golden digest drifted");
}

#[test]
fn realtime_factor_comfortable_on_native() {
    let sig = synth_song(11, 10.0, 22_050);
    let t0 = std::time::Instant::now();
    let _ = prints(&sig, &LandmarkV2Config::default());
    let elapsed = t0.elapsed();
    let factor = 10.0 / elapsed.as_secs_f64();
    assert!(factor > 50.0, "realtime factor {factor:.1}x below 50x floor");
}

fn collect(sig: &[f32]) -> Vec<(u32, u32)> {
    let cfg = operating_point();
    let mut e = FingerprintEngine::new(22_050, cfg);
    let mut spectrum = Spectrum::new(&cfg);
    for chunk in sig.chunks(5512) {
        for frame in spectrum.feed(chunk) {
            e.process_frame(&frame);
        }
    }
    e.finish();
    let mut batch = Vec::new();
    e.take_batch(&mut batch);
    let (_, fps) = decode_sfp_batch(&batch).unwrap();
    fps.into_iter().map(|(h, t)| (h >> 20, t)).collect()
}

#[test]
fn engine_runs_at_operating_bands() {
    let notes = [950.0f32, 1000.0, 1050.0, 1100.0];
    let note_len = 22050usize * 3 / 4;
    let n = 22050 * 14;
    let mut sig = vec![0.0f32; n];
    for (i, s) in sig.iter_mut().enumerate() {
        let f = notes[(i / note_len) % notes.len()];
        let into = i % note_len;
        let env = ((into.min(note_len - into) as f32 / (0.06 * 22050.0)).min(1.0)).sqrt();
        *s = 0.6 * env * (std::f32::consts::TAU * f * i as f32 / 22050.0).sin();
    }
    let fps = collect(&sig);
    let late: Vec<_> = fps
        .iter()
        .filter(|&&(f1, t)| (169..=237).contains(&t) && (320..=350).contains(&f1))
        .copied()
        .collect();
    assert!(
        !late.is_empty(),
        "note sequence must keep producing landmarks near bin-93 bands after settling"
    );
    assert!(
        late.iter().any(|&(f1, _)| f1 == 335),
        "expected f1=335 (512-band mapping of bin 93) among late anchors"
    );
}

#[test]
fn stationary_tone_emission_stops_after_adaptation() {
    let n = 22050 * 14;
    let mut sig = vec![0.0f32; n];
    for (i, s) in sig.iter_mut().enumerate() {
        let t = i as f32 / 22050.0;
        *s = 0.6 * (std::f32::consts::TAU * 1000.0 * t).sin();
    }
    let fps = collect(&sig);
    let late = fps.iter().filter(|&&(_, t)| t >= 130).count();
    assert_eq!(late, 0, "steady-state stationary tone must yield zero landmarks, got {late}");
}

#[test]
fn the_engine_names_itself() {
    assert_eq!(engine_name(), "landmark-v2/32-bit fp v1.0");
    assert_eq!(operating_point().freq_bands, 512);
    assert_eq!(TARGET_SAMPLE_RATE, 22_050);
}

#[test]
fn ingested_catalog_recognizes_degraded_query() {
    let cfg = operating_point();
    let mut run = IngestRun::begin(CatalogState::new(), std::collections::HashMap::new());
    let mut sidecars = Vec::new();
    for i in 0..2u64 {
        let song = synth_song(9000 + i, 12.0, TARGET_SAMPLE_RATE);
        let bytes: Vec<u8> = song.iter().flat_map(|s| s.to_le_bytes()).collect();
        let digest = source_digest(&bytes);
        assert!(run.offer(&digest, None));
        let file = run
            .complete(digest, &prints(&song, &cfg), format!("song-{i}"), None)
            .unwrap();
        sidecars.push(Sidecar { recording: RecordingId::new(file.recording), bytes: file.bytes });
    }
    let idx = build_index(&sidecars);

    let song = synth_song(9001, 12.0, TARGET_SAMPLE_RATE);
    let clean = excerpt(&song, TARGET_SAMPLE_RATE, 3.0, 6.0);
    let mut rng = XorShift64Star::new(42);
    let noisy: Vec<f32> = clean.iter().map(|&s| s + 0.05 * next_bipolar(&mut rng)).collect();

    let outcomes = query(&idx, &prints(&noisy, &cfg));
    assert_eq!(
        outcomes.first().map(|o| o.recording.as_u32()),
        Some(1),
        "ingested catalog must identify song 1"
    );
}
