use sivana::config::{AlgorithmConfig, ConfigError, FftConfig, LandmarkConfig, PeakConfig, WindowType};
use sivana::hash::{
    pack_hash32, pack_legacy_hash, unpack_hash32, Hash32, HASH32_DT_MAX, HASH32_F_MAX,
};
use sivana::ids::RecordingId;
use sivana::landmark::LandmarkV2Config;
use sivana::version::{current_fingerprint_version, EngineId, FingerprintVersion};

#[test]
fn pack_unpack_roundtrip() {
    let cases = [(0, 0, 0), (4095, 4095, 255), (1234, 3456, 42), (1, 2, 3)];
    for (f1, f2, dt) in cases {
        let packed = pack_hash32(f1, f2, dt);
        let parts = unpack_hash32(packed);
        assert_eq!((parts.f1, parts.f2, parts.dt), (f1, f2, dt));
    }
}

#[test]
fn masking_prevents_overflow() {
    let packed = pack_hash32(u16::MAX, u16::MAX, u8::MAX);
    let parts = unpack_hash32(packed);
    assert_eq!(parts.f1, HASH32_F_MAX);
    assert_eq!(parts.f2, HASH32_F_MAX);
    assert_eq!(parts.dt, HASH32_DT_MAX);
}

#[test]
fn high_low_split_reconstructs() {
    let h = pack_hash32(3000, 100, 77);
    assert_eq!(h.high16(), (h.0 >> 16) as u16);
    assert_eq!((h.high16() as u32) << 16 | h.low16() as u32, h.0);
}

#[test]
fn legacy_layout_matches_frozen_code() {
    let f1 = 500u64;
    let f2 = 250u64;
    let dt = 30u64;
    let expected = (500 << 18) | (250 << 8) | 30;
    assert_eq!(pack_legacy_hash(f1, f2, dt), expected);
}

#[test]
fn pack_hash32_encoding_is_pinned() {
    let h = pack_hash32(123, 456, 7);
    let parts = unpack_hash32(h);
    assert_eq!((parts.f1, parts.f2, parts.dt), (123, 456, 7));
    let mut seen = std::collections::HashSet::new();
    for band_a in 0..64u16 {
        for dt in 0..8u8 {
            seen.insert(pack_hash32(band_a, band_a + 1, dt));
        }
    }
    assert_eq!(seen.len(), 64 * 8, "pack_hash32 collisions in probe set");
    assert_eq!(pack_hash32(123, 456, 7), Hash32((123 << 20) | (456 << 8) | 7));
}

#[test]
fn display_is_prefixed() {
    assert_eq!(RecordingId::new(42).to_string(), "rec-42");
}

#[test]
fn ordering_supports_sorting() {
    let mut v = [RecordingId::new(7), RecordingId::new(1)];
    v.sort();
    assert_eq!(v[0].as_u32(), 1);
}

#[test]
fn legacy_version_ordering() {
    assert!(FingerprintVersion::legacy() < FingerprintVersion::new(1, 0));
    assert!(FingerprintVersion::new(0, 1) < FingerprintVersion::new(0, 2));
}

#[test]
fn engine_ids_are_stable_strings() {
    assert_eq!(EngineId::Legacy.as_str(), "legacy");
}

#[test]
fn engines_have_their_formats() {
    assert_eq!(
        current_fingerprint_version(EngineId::Legacy),
        FingerprintVersion::legacy()
    );
    assert_eq!(
        current_fingerprint_version(EngineId::LandmarkV2),
        FingerprintVersion::landmark_v2_32bit()
    );
}

#[test]
fn legacy_config_validates() {
    assert!(AlgorithmConfig::legacy().validate().is_ok());
}

#[test]
fn validation_rejects_bad_geometry() {
    let mut cfg = AlgorithmConfig::legacy();
    cfg.fft.window_size = 2047;
    assert!(cfg.validate().is_err());

    let mut cfg = AlgorithmConfig::legacy();
    cfg.landmarks.dt_max_frames = 0;
    assert!(cfg.validate().is_err());
}

#[test]
fn frames_per_second_matches_legacy_geometry() {
    let cfg = AlgorithmConfig::legacy();
    let (num, den) = cfg.frames_per_second();
    assert!((num as f64 / den as f64 - 22050.0 / 1024.0).abs() < 1e-9);
}

#[test]
fn defaults_of_the_parts_are_those_of_the_whole() {
    let cfg = AlgorithmConfig::legacy();
    let back = AlgorithmConfig {
        sample_rate_hz: 22_050,
        fft: FftConfig::default(),
        peaks: PeakConfig::default(),
        landmarks: LandmarkConfig::default(),
    };
    assert_eq!(cfg, back);
    assert_eq!(AlgorithmConfig::default(), cfg);
    assert_eq!(cfg.fft.window_type, WindowType::Hann);
}

#[test]
fn every_config_fault_is_named() {
    let fault = |change: fn(&mut AlgorithmConfig)| {
        let mut cfg = AlgorithmConfig::legacy();
        change(&mut cfg);
        cfg.validate().unwrap_err()
    };
    assert_eq!(fault(|c| c.sample_rate_hz = 22_051), ConfigError::SampleRate(22_051));
    assert_eq!(fault(|c| c.fft.window_size = 0), ConfigError::WindowSize);
    assert_eq!(fault(|c| c.fft.window_size = 3000), ConfigError::WindowSize);
    assert_eq!(fault(|c| c.fft.hop_size = 0), ConfigError::HopSize);
    assert_eq!(fault(|c| c.fft.hop_size = 4096), ConfigError::HopSize);
    assert_eq!(fault(|c| c.peaks.density_peaks_per_second = Some(999)), ConfigError::Density);
    assert_eq!(fault(|c| c.peaks.density_peaks_per_second = Some(200_001)), ConfigError::Density);
    assert_eq!(
        fault(|c| c.peaks.band_quotas = Some(vec![500_000, 498_999])),
        ConfigError::BandQuotas
    );
    assert_eq!(fault(|c| c.landmarks.dt_min_frames = 0), ConfigError::ZeroDtMin);
    assert_eq!(fault(|c| c.landmarks.dt_max_frames = 0), ConfigError::DtOrder);
    assert_eq!(
        ConfigError::SampleRate(7).describe(),
        "unusual sample rate 7 Hz; use one of [8000, 11025, 16000, 22050] or a kHz multiple"
    );
    assert_eq!(ConfigError::DtOrder.describe(), "landmarks.dt_max_frames < dt_min_frames");
    let mut cfg = AlgorithmConfig::legacy();
    cfg.sample_rate_hz = 48_000;
    cfg.peaks.density_peaks_per_second = Some(200_000);
    cfg.peaks.band_quotas = Some(vec![500_000, 500_900]);
    assert!(cfg.validate().is_ok());
}

#[test]
fn landmark_geometry_follows_the_configuration() {
    let mut cfg = AlgorithmConfig::legacy();
    cfg.fft.window_size = 4096;
    cfg.fft.hop_size = 512;
    let lm = LandmarkV2Config::from(&cfg);
    assert_eq!((lm.fft_window, lm.hop, lm.freq_bands), (4096, 512, 256));
    assert_eq!(lm.peaks, LandmarkV2Config::default().peaks);
}
