use sivana::decode::{CollectError, MonoCollector, MonoSample};
use sivana::framing::{excerpt, FrameStreamer};
use sivana::rng::XorShift64Star;
use sivana::wav::{read_wav, write_wav, WavData, WavError, WavSamples};

#[test]
fn same_seed_same_sequence() {
    let mut a = XorShift64Star::new(42);
    let mut b = XorShift64Star::new(42);
    for _ in 0..1000 {
        assert_eq!(a.next_u64(), b.next_u64());
    }
}

#[test]
fn output_range_and_nonzero() {
    let mut rng = XorShift64Star::default();
    let mut any_high = false;
    for _ in 0..10_000 {
        let v = rng.next_u24() as f32 / (1u32 << 24) as f32;
        assert!((0.0..1.0).contains(&v));
        if v > 0.999 {
            any_high = true;
        }
    }
    assert!(any_high, "generator appears stuck");
}

#[test]
fn derive_changes_stream() {
    let root = XorShift64Star::new(7);
    let mut a = root.derive(1);
    let mut b = root.derive(2);
    assert_ne!(a.next_u64(), b.next_u64());
}

#[test]
fn salts_give_streams_of_their_own() {
    let root = XorShift64Star::new(7);
    let firsts: std::collections::BTreeSet<u64> =
        (0..500).map(|salt| root.derive(salt).next_u64()).collect();
    assert_eq!(firsts.len(), 500);
    assert!(!firsts.contains(&0));
    let (mut a, mut b) = (root.derive(0), root);
    for _ in 0..100 {
        assert_eq!(a.next_u64(), b.next_u64());
    }
}

#[test]
fn generator_values_are_pinned() {
    // x ^= x >> 12, x ^= x << 25, x ^= x >> 27, times the multiplier.
    let mut x = 42u64;
    let mut rng = XorShift64Star::new(42);
    for _ in 0..10 {
        x ^= x >> 12;
        x ^= x << 25;
        x ^= x >> 27;
        assert_eq!(rng.next_u64(), x.wrapping_mul(0x2545_F491_4F6C_DD1D));
    }
}

fn quantize(samples: &[f32]) -> Vec<i16> {
    samples
        .iter()
        .map(|s| (s.clamp(-1.0, 1.0) * 32767.0) as i16)
        .collect()
}

fn values(data: &WavData) -> Vec<f32> {
    match &data.samples {
        WavSamples::Pcm16(v) => {
            v.iter().map(|&x| x as f32 / (32768.0 * data.channels as f32)).collect()
        }
        WavSamples::Float32(v) => v.iter().map(|&b| f32::from_bits(b)).collect(),
    }
}

#[test]
fn roundtrip_pcm16() {
    let sr = 16_000u32;
    let samples: Vec<f32> = (0..4000)
        .map(|i| (i as f32 / sr as f32 * 440.0 * std::f32::consts::TAU).sin() * 0.5)
        .collect();
    let bytes = write_wav(sr, &quantize(&samples));
    let back = read_wav(&bytes).unwrap();
    assert_eq!(back.sample_rate, sr);
    let got = values(&back);
    assert_eq!(got.len(), samples.len());
    for (a, b) in samples.iter().zip(got.iter()) {
        assert!((a - b).abs() < 1e-3);
    }
}

#[test]
fn written_bytes_are_deterministic() {
    let samples: Vec<f32> = (0..1000)
        .map(|i| ((i * 7) % 101) as f32 / 101.0 - 0.5)
        .collect();
    let a = write_wav(8000, &quantize(&samples));
    let b = write_wav(8000, &quantize(&samples));
    assert_eq!(a, b);
}

fn wav(format: u16, channels: u16, bits: u16, data: &[u8]) -> Vec<u8> {
    let mut wav: Vec<u8> = Vec::new();
    wav.extend_from_slice(b"RIFF");
    wav.extend_from_slice(&(36 + data.len() as u32).to_le_bytes());
    wav.extend_from_slice(b"WAVEfmt ");
    wav.extend_from_slice(&16u32.to_le_bytes());
    wav.extend_from_slice(&format.to_le_bytes());
    wav.extend_from_slice(&channels.to_le_bytes());
    wav.extend_from_slice(&8000u32.to_le_bytes());
    wav.extend_from_slice(&32000u32.to_le_bytes());
    wav.extend_from_slice(&4u16.to_le_bytes());
    wav.extend_from_slice(&bits.to_le_bytes());
    wav.extend_from_slice(b"data");
    wav.extend_from_slice(&(data.len() as u32).to_le_bytes());
    wav.extend_from_slice(data);
    wav
}

#[test]
fn stereo_is_averaged_to_mono() {
    let left: i16 = 16384;
    let right: i16 = -16384;
    let mut data = Vec::new();
    for v in [left, right] {
        data.extend_from_slice(&v.to_le_bytes());
    }
    let parsed = read_wav(&wav(1, 2, 16, &data)).unwrap();
    assert_eq!(parsed.sample_rate, 8000);
    let got = values(&parsed);
    assert_eq!(got.len(), 1);
    assert!(got[0].abs() < 1e-6);
}

#[test]
fn more_channels_are_averaged_to_mono() {
    let bytes = |v: &[i16]| -> Vec<u8> { v.iter().flat_map(|s| s.to_le_bytes()).collect() };
    let parsed = read_wav(&wav(1, 3, 16, &bytes(&[16384, -16384, 0]))).unwrap();
    assert_eq!(values(&parsed), vec![0.0]);
    let parsed = read_wav(&wav(1, 4, 16, &bytes(&[8192; 9]))).unwrap();
    assert_eq!(values(&parsed), vec![0.25, 0.25]);
    let data: Vec<u8> = [1.0f32; 7].iter().flat_map(|f| f.to_le_bytes()).collect();
    let parsed = read_wav(&wav(3, 3, 32, &data)).unwrap();
    assert!(matches!(&parsed.samples, WavSamples::Float32(v) if v.len() == 6));
}

#[test]
fn rejects_non_riff() {
    assert!(matches!(read_wav(b"NOPE1234"), Err(WavError::NotRiff)));
}

#[test]
fn wav_faults_are_named() {
    assert_eq!(read_wav(b"RIFF").unwrap_err().describe(), "io error: failed to fill whole buffer");
    assert_eq!(read_wav(b"RIFF0000NOPE").unwrap_err().describe(), "not a WAVE file");
    assert_eq!(
        read_wav(&wav(7, 1, 16, &[0, 0])).unwrap_err().describe(),
        "unsupported format tag 7"
    );
    assert_eq!(
        read_wav(&wav(1, 1, 24, &[0, 0])).unwrap_err().describe(),
        "unsupported bits per sample 24"
    );
    assert_eq!(
        read_wav(&wav(1, 0, 16, &[0, 0])).unwrap_err().describe(),
        "unsupported channel count 0"
    );
    assert_eq!(
        read_wav(&wav(1, 1, 16, &[0, 0, 1])).unwrap_err().describe(),
        "truncated file: odd PCM16 byte count"
    );
    assert_eq!(
        read_wav(&wav(3, 1, 32, &[0, 0, 1])).unwrap_err().describe(),
        "truncated file: odd f32 byte count"
    );
    let only_fmt = &wav(1, 1, 16, &[])[..36];
    assert_eq!(read_wav(only_fmt).unwrap_err().describe(), "missing data chunk");
    assert_eq!(read_wav(b"RIFF0000WAVE").unwrap_err().describe(), "missing fmt  chunk");
}

#[test]
fn floats_keep_their_bits() {
    let data: Vec<u8> = [0.25f32, -1.5].iter().flat_map(|f| f.to_le_bytes()).collect();
    let parsed = read_wav(&wav(3, 1, 32, &data)).unwrap();
    assert_eq!(values(&parsed), vec![0.25, -1.5]);
}

#[test]
fn excerpt_clamps_to_bounds() {
    let s: Vec<u32> = (0..8000).collect();
    let e = excerpt(&s, 4000, 80_000);
    assert_eq!(e.len(), s.len() / 2);
    assert_eq!(e[0], 4000);
    let past = excerpt(&s, 400_000, 8000);
    assert!(past.is_empty());
    assert_eq!(excerpt(&s, 7, 3), vec![7, 8, 9]);
}

fn frames(window: usize, hop: usize, samples: &[u32], chunk: usize) -> Vec<Vec<u32>> {
    let mut st = FrameStreamer::new(window, hop);
    let mut out = Vec::new();
    let mut frame = Vec::new();
    for piece in samples.chunks(chunk) {
        st.feed(piece);
        while let Some(i) = st.next_frame(&mut frame) {
            assert_eq!(i as usize, out.len());
            out.push(frame.clone());
        }
    }
    assert_eq!(st.frames_emitted() as usize, out.len());
    out
}

#[test]
fn emits_expected_frame_count() {
    let n = 16_000usize;
    let win = 1024;
    let hop = 512;
    let sig: Vec<u32> = (0..n as u32).collect();
    let expected = (n - win) / hop + 1;
    assert_eq!(frames(win, hop, &sig, n).len(), expected);
}

#[test]
fn chunking_does_not_change_frames() {
    let sig: Vec<u32> = (0..8000).collect();
    let a = frames(512, 256, &sig, 1600);
    let b = frames(512, 256, &sig, 7);
    assert_eq!(a.len(), b.len());
    for (fa, fb) in a.iter().zip(b.iter()) {
        assert_eq!(fa, fb);
    }
    assert_eq!(a[3][0], 768);
}

#[test]
fn partial_tail_is_buffered_not_dropped() {
    let mut st = FrameStreamer::new(256, 64);
    let mut frame = Vec::new();
    st.feed(&[1u32; 255]);
    assert!(st.next_frame(&mut frame).is_none());
    st.feed(&[1u32; 10]);
    assert_eq!(st.next_frame(&mut frame), Some(0));
    assert!(st.next_frame(&mut frame).is_none());
}

#[test]
fn packets_become_one_mono_stream() {
    let mut c = MonoCollector::new();
    c.take_packet(44_100, 1, &[1, 2]).unwrap();
    c.take_packet(44_100, 2, &[3, 4, 5, 6]).unwrap();
    c.take_packet(44_100, 3, &[7, 8, 9, 10]).unwrap();
    assert_eq!(
        c.take_packet(48_000, 1, &[0]).unwrap_err(),
        CollectError::RateChanged { from: 44_100, to: 48_000 }
    );
    let (samples, rate) = c.finish().unwrap();
    assert_eq!(rate, 44_100);
    assert_eq!(
        samples,
        vec![
            MonoSample::Plain(1),
            MonoSample::Plain(2),
            MonoSample::Mean(3, 4),
            MonoSample::Mean(5, 6),
            MonoSample::Plain(7),
            MonoSample::Plain(10),
        ]
    );
    assert_eq!(MonoCollector::new().finish().unwrap_err(), CollectError::Empty);
}
