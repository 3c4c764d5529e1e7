//! Algorithm configuration: one structure for every knob.
//!
//! [`AlgorithmConfig::legacy`] holds the parameters of the first-generation
//! engine, the baseline that every change is measured against. Fractions are
//! whole numbers of small units: magnitudes and densities in thousandths,
//! levels and quotas in millionths.
use vstd::arithmetic::power2::{lemma_pow2_strictly_increases, lemma_pow2_unfold, pow2};
use vstd::prelude::*;

use crate::framing::is_pow2;
use crate::ids::{decimal, decimal_digits};
use crate::text::{chars_of, string_of};

verus! {

/// The number of log-spaced bands in production. Ingestion, the browser
/// engine and the matcher must all use it: hashes of different band counts
/// never collide.
pub const OPERATING_FREQ_BANDS: u16 = 512;

/// Candidate sample rates for benchmarking.
pub const BENCHMARK_SAMPLE_RATES_HZ: [u32; 4] = [8_000, 11_025, 16_000, 22_050];

/// Candidate fanouts per anchor for benchmarking.
pub const BENCHMARK_FANOUTS: [usize; 5] = [5, 8, 10, 12, 15];

/// The candidate sample rates.
pub open spec fn benchmark_sample_rates() -> Seq<u32> {
    BENCHMARK_SAMPLE_RATES_HZ@
}

#[derive(Debug, Clone, Copy, PartialEq, Eq, Structural)]
pub enum WindowType {
    Hann,
}

#[derive(Debug, Clone, Copy, PartialEq, Eq, Structural)]
pub struct FftConfig {
    pub window_size: usize,
    pub hop_size: usize,
    pub window_type: WindowType,
}

/// Peak extraction parameters. An optional one that is absent is not active.
#[derive(Debug, PartialEq, Eq)]
pub struct PeakConfig {
    pub neighborhood_time_radius: usize,
    pub neighborhood_freq_radius: usize,
    /// In thousandths.
    pub min_magnitude_threshold: u32,
    /// Prominence above the local noise floor, in millionths of a decibel.
    pub min_prominence: Option<i64>,
    /// Peaks per second of audio, in thousandths.
    pub density_peaks_per_second: Option<u64>,
    /// Share of each log-spaced band, in millionths.
    pub band_quotas: Option<Vec<u32>>,
}

#[derive(Debug, Clone, Copy, PartialEq, Eq, Structural)]
pub struct LandmarkConfig {
    pub dt_min_frames: usize,
    pub dt_max_frames: usize,
    pub df_abs_max_bins: usize,
    /// Targets paired with each anchor.
    pub fanout: usize,
}

#[derive(Debug, PartialEq, Eq)]
pub struct AlgorithmConfig {
    /// Sample rate after normalization.
    pub sample_rate_hz: u32,
    pub fft: FftConfig,
    pub peaks: PeakConfig,
    pub landmarks: LandmarkConfig,
}

pub open spec fn default_fft() -> FftConfig {
    FftConfig { window_size: 2048, hop_size: 1024, window_type: WindowType::Hann }
}

pub open spec fn default_peak_config() -> PeakConfig {
    PeakConfig {
        neighborhood_time_radius: 2,
        neighborhood_freq_radius: 5,
        min_magnitude_threshold: 2000,
        min_prominence: None,
        density_peaks_per_second: None,
        band_quotas: None,
    }
}

pub open spec fn default_landmarks() -> LandmarkConfig {
    LandmarkConfig { dt_min_frames: 1, dt_max_frames: 50, df_abs_max_bins: 200, fanout: 5 }
}

impl Default for FftConfig {
    fn default() -> (c: Self)
        ensures
            c == default_fft(),
    {
        FftConfig { window_size: 2048, hop_size: 1024, window_type: WindowType::Hann }
    }
}

impl Default for PeakConfig {
    fn default() -> (c: Self)
        ensures
            c == default_peak_config(),
    {
        PeakConfig {
            neighborhood_time_radius: 2,
            neighborhood_freq_radius: 5,
            min_magnitude_threshold: 2000,
            min_prominence: None,
            density_peaks_per_second: None,
            band_quotas: None,
        }
    }
}

impl Default for LandmarkConfig {
    fn default() -> (c: Self)
        ensures
            c == default_landmarks(),
    {
        LandmarkConfig { dt_min_frames: 1, dt_max_frames: 50, df_abs_max_bins: 200, fanout: 5 }
    }
}

impl Default for AlgorithmConfig {
    fn default() -> (c: Self)
        ensures
            c == legacy_config(),
    {
        AlgorithmConfig::legacy()
    }
}

/// The parameters of the first-generation engine.
pub open spec fn legacy_config() -> AlgorithmConfig {
    AlgorithmConfig {
        sample_rate_hz: 22_050,
        fft: default_fft(),
        peaks: default_peak_config(),
        landmarks: default_landmarks(),
    }
}

/// What is wrong with a configuration.
#[derive(Debug, Clone, Copy, PartialEq, Eq, Structural)]
pub enum ConfigError {
    SampleRate(u32),
    WindowSize,
    HopSize,
    Density,
    BandQuotas,
    ZeroDtMin,
    DtOrder,
}

/// Sum of the quotas.
pub open spec fn quota_sum(q: Seq<u32>) -> int
    decreases q.len(),
{
    if q.len() == 0 {
        0
    } else {
        quota_sum(q.drop_last()) + q.last()
    }
}

/// A rate that benchmarks use, or a whole number of kilohertz.
pub open spec fn sample_rate_ok(rate: u32) -> bool {
    benchmark_sample_rates().contains(rate) || rate % 1000 == 0
}

/// The density is absent, or between one and 200 peaks per second.
pub open spec fn density_ok(c: AlgorithmConfig) -> bool {
    c.peaks.density_peaks_per_second matches Some(d) ==> 1000 <= d <= 200_000
}

/// The quotas are absent, or sum to one within a thousandth.
pub open spec fn quotas_ok(c: AlgorithmConfig) -> bool {
    c.peaks.band_quotas matches Some(q) ==> 999_000 <= quota_sum(q@) <= 1_001_000
}

/// The first thing that is wrong, if any.
pub open spec fn first_fault(c: AlgorithmConfig) -> Option<ConfigError> {
    if !sample_rate_ok(c.sample_rate_hz) {
        Some(ConfigError::SampleRate(c.sample_rate_hz))
    } else if !is_pow2(c.fft.window_size as int) {
        Some(ConfigError::WindowSize)
    } else if c.fft.hop_size == 0 || c.fft.hop_size > c.fft.window_size {
        Some(ConfigError::HopSize)
    } else if !density_ok(c) {
        Some(ConfigError::Density)
    } else if !quotas_ok(c) {
        Some(ConfigError::BandQuotas)
    } else if c.landmarks.dt_min_frames == 0 {
        Some(ConfigError::ZeroDtMin)
    } else if c.landmarks.dt_max_frames < c.landmarks.dt_min_frames {
        Some(ConfigError::DtOrder)
    } else {
        None
    }
}

proof fn lemma_not_pow2(n: int, k: nat)
    requires
        pow2(k) < n < pow2(k + 1),
    ensures
        !is_pow2(n),
{
    if is_pow2(n) {
        let e = choose|e: nat| n == #[trigger] pow2(e);
        if e < k {
            lemma_pow2_strictly_increases(e, k);
        } else if e > k + 1 {
            lemma_pow2_strictly_increases(k + 1, e);
        }
    }
}

/// Whether a size is a power of two.
pub fn is_power_of_two(n: usize) -> (r: bool)
    ensures
        r == is_pow2(n as int),
{
    if n == 0 {
        proof {
            if is_pow2(0) {
                let e = choose|e: nat| 0 == #[trigger] pow2(e);
                vstd::arithmetic::power2::lemma_pow2_pos(e);
            }
        }
        return false;
    }
    let mut p: usize = 1;
    let ghost mut k: nat = 0;
    proof {
        vstd::arithmetic::power2::lemma2_to64();
    }
    while p <= n / 2
        invariant
            1 <= p <= n,
            p == pow2(k),
        decreases n - p,
    {
        p = 2 * p;
        proof {
            lemma_pow2_unfold(k + 1);
            k = k + 1;
        }
    }
    proof {
        if p != n {
            lemma_pow2_unfold(k + 1);
            lemma_not_pow2(n as int, k);
        }
    }
    p == n
}

/// Sum of the quotas, as far as it fits.
fn sum_quotas(q: &Vec<u32>) -> (sum: u128)
    ensures
        sum == quota_sum(q@),
{
    let mut sum: u128 = 0;
    let mut i: usize = 0;
    assert(q@.take(0) =~= Seq::<u32>::empty());
    while i < q.len()
        invariant
            i <= q.len(),
            sum == quota_sum(q@.take(i as int)),
            sum <= i * 0xffff_ffff,
        decreases q.len() - i,
    {
        assert(q@.take(i + 1).drop_last() =~= q@.take(i as int));
        assert(i * 0xffff_ffff <= 0xffff_ffff_ffff_ffff * 0xffff_ffff) by (nonlinear_arith)
            requires
                i <= 0xffff_ffff_ffff_ffff,
        ;
        sum = sum + q[i] as u128;
        i = i + 1;
    }
    assert(q@.take(i as int) =~= q@);
    sum
}

impl AlgorithmConfig {
    /// The parameters of the first-generation engine.
    pub fn legacy() -> (c: Self)
        ensures
            c == legacy_config(),
    {
        AlgorithmConfig {
            sample_rate_hz: 22_050,
            fft: FftConfig::default(),
            peaks: PeakConfig::default(),
            landmarks: LandmarkConfig::default(),
        }
    }

    /// Frames of audio per second at the configured geometry, as numerator
    /// and denominator.
    pub fn frames_per_second(&self) -> (r: (u32, usize))
        ensures
            r == (self.sample_rate_hz, self.fft.hop_size),
    {
        (self.sample_rate_hz, self.fft.hop_size)
    }

    /// Checks a configuration before use.
    pub fn validate(&self) -> (r: Result<(), ConfigError>)
        ensures
            r is Ok <==> first_fault(*self) is None,
            r matches Err(e) ==> first_fault(*self) == Some(e),
    {
        let rate: u32 = self.sample_rate_hz;
        let known: bool = rate == 8_000 || rate == 11_025 || rate == 16_000 || rate == 22_050;
        proof {
            let rates = benchmark_sample_rates();
            assert(rates[0] == 8_000 && rates[1] == 11_025 && rates[2] == 16_000 && rates[3]
                == 22_050);
            assert(known == rates.contains(rate));
        }
        if !known && rate % 1000 != 0 {
            return Err(ConfigError::SampleRate(rate));
        }
        if !is_power_of_two(self.fft.window_size) {
            return Err(ConfigError::WindowSize);
        }
        if self.fft.hop_size == 0 || self.fft.hop_size > self.fft.window_size {
            return Err(ConfigError::HopSize);
        }
        if let Some(d) = self.peaks.density_peaks_per_second {
            if d < 1000 || d > 200_000 {
                return Err(ConfigError::Density);
            }
        }
        if let Some(q) = &self.peaks.band_quotas {
            let sum: u128 = sum_quotas(q);
            if sum < 999_000 || sum > 1_001_000 {
                return Err(ConfigError::BandQuotas);
            }
        }
        if self.landmarks.dt_min_frames == 0 {
            return Err(ConfigError::ZeroDtMin);
        }
        if self.landmarks.dt_max_frames < self.landmarks.dt_min_frames {
            return Err(ConfigError::DtOrder);
        }
        Ok(())
    }
}

/// The words of an error.
pub open spec fn config_error_words(e: ConfigError) -> Seq<char> {
    match e {
        ConfigError::SampleRate(rate) => "unusual sample rate "@ + decimal(rate as nat)
            + " Hz; use one of [8000, 11025, 16000, 22050] or a kHz multiple"@,
        ConfigError::WindowSize => "fft.window_size must be a power of two"@,
        ConfigError::HopSize => "fft.hop_size must be in (0, window_size]"@,
        ConfigError::Density => "density_peaks_per_second outside plausible range 1..=200"@,
        ConfigError::BandQuotas => "band_quotas must sum to 1.0"@,
        ConfigError::ZeroDtMin => "landmarks.dt_min_frames must be >= 1"@,
        ConfigError::DtOrder => "landmarks.dt_max_frames < dt_min_frames"@,
    }
}

impl ConfigError {
    /// The error in words.
    pub fn describe(&self) -> (s: String)
        ensures
            s@ == config_error_words(*self),
    {
        match self {
            ConfigError::SampleRate(rate) => {
                let mut cs: Vec<char> = chars_of("unusual sample rate ");
                let mut digits: Vec<char> = decimal_digits(*rate as u64);
                let mut end: Vec<char> = chars_of(
                    " Hz; use one of [8000, 11025, 16000, 22050] or a kHz multiple",
                );
                cs.append(&mut digits);
                cs.append(&mut end);
                string_of(&cs)
            },
            ConfigError::WindowSize => "fft.window_size must be a power of two".to_owned(),
            ConfigError::HopSize => "fft.hop_size must be in (0, window_size]".to_owned(),
            ConfigError::Density =>
                "density_peaks_per_second outside plausible range 1..=200".to_owned(),
            ConfigError::BandQuotas => "band_quotas must sum to 1.0".to_owned(),
            ConfigError::ZeroDtMin => "landmarks.dt_min_frames must be >= 1".to_owned(),
            ConfigError::DtOrder => "landmarks.dt_max_frames < dt_min_frames".to_owned(),
        }
    }
}

/// The parameters of the first-generation engine are valid.
pub proof fn law_legacy_config_is_valid()
    ensures
        first_fault(legacy_config()) is None,
{
    vstd::arithmetic::power2::lemma2_to64();
    assert(is_pow2(2048)) by {
        assert(pow2(11) == 2048);
    }
    assert(benchmark_sample_rates()[3] == 22_050);
}

/// A configuration is valid exactly if its rate is one of four or a whole
/// number of kilohertz, its window a power of two, its hop within the window,
/// its density between 1 and 200 peaks per second and its quotas summing to
/// one within a thousandth where they are given, and its time span not empty.
/// What is wrong is told in this order.
pub proof fn law_valid_configurations(c: AlgorithmConfig)
    ensures
        ({
            let r = c.sample_rate_hz;
            let rate = r == 8_000 || r == 11_025 || r == 16_000 || r == 22_050 || r % 1000 == 0;
            let window = is_pow2(c.fft.window_size as int);
            let hop = 1 <= c.fft.hop_size <= c.fft.window_size;
            let density = c.peaks.density_peaks_per_second is Some ==> 1000
                <= c.peaks.density_peaks_per_second->0 <= 200_000;
            let quotas = c.peaks.band_quotas is Some ==> 999_000 <= quota_sum(
                c.peaks.band_quotas->0@,
            ) <= 1_001_000;
            let least = c.landmarks.dt_min_frames >= 1;
            let span = c.landmarks.dt_min_frames <= c.landmarks.dt_max_frames;
            &&& first_fault(c) is None <==> rate && window && hop && density && quotas && least
                && span
            &&& !rate ==> first_fault(c) == Some(ConfigError::SampleRate(r))
            &&& rate && !window ==> first_fault(c) == Some(ConfigError::WindowSize)
            &&& rate && window && !hop ==> first_fault(c) == Some(ConfigError::HopSize)
            &&& rate && window && hop && !density ==> first_fault(c) == Some(ConfigError::Density)
            &&& rate && window && hop && density && !quotas ==> first_fault(c) == Some(
                ConfigError::BandQuotas,
            )
            &&& rate && window && hop && density && quotas && !least ==> first_fault(c) == Some(
                ConfigError::ZeroDtMin,
            )
            &&& rate && window && hop && density && quotas && least && !span ==> first_fault(c)
                == Some(ConfigError::DtOrder)
        }),
{
    let rates = benchmark_sample_rates();
    let r = c.sample_rate_hz;
    assert(rates[0] == 8_000 && rates[1] == 11_025 && rates[2] == 16_000 && rates[3] == 22_050);
    assert(rates.contains(r) <==> r == 8_000 || r == 11_025 || r == 16_000 || r == 22_050);
}

/// Quotas are summed one by one.
pub proof fn law_quotas_are_summed(q: Seq<u32>, x: u32)
    ensures
        quota_sum(Seq::<u32>::empty()) == 0,
        quota_sum(q.push(x)) == quota_sum(q) + x,
{
    assert(q.push(x).drop_last() =~= q);
}

/// The parameters of the first-generation engine.
pub proof fn law_legacy_parameters()
    ensures
        ({
            let c = legacy_config();
            &&& c.sample_rate_hz == 22_050
            &&& c.fft.window_size == 2048
            &&& c.fft.hop_size == 1024
            &&& c.peaks.neighborhood_time_radius == 2
            &&& c.peaks.neighborhood_freq_radius == 5
            &&& c.peaks.min_magnitude_threshold == 2000
            &&& c.peaks.min_prominence is None
            &&& c.peaks.density_peaks_per_second is None
            &&& c.peaks.band_quotas is None
            &&& c.landmarks.dt_min_frames == 1
            &&& c.landmarks.dt_max_frames == 50
            &&& c.landmarks.df_abs_max_bins == 200
            &&& c.landmarks.fanout == 5
        }),
        OPERATING_FREQ_BANDS == 512,
{
}

/// The errors in words.
pub proof fn law_config_errors_in_words(rate: u32)
    ensures
        config_error_words(ConfigError::SampleRate(rate)) == "unusual sample rate "@ + decimal(
            rate as nat,
        ) + " Hz; use one of [8000, 11025, 16000, 22050] or a kHz multiple"@,
        config_error_words(ConfigError::WindowSize) == "fft.window_size must be a power of two"@,
        config_error_words(ConfigError::HopSize) == "fft.hop_size must be in (0, window_size]"@,
        config_error_words(ConfigError::Density)
            == "density_peaks_per_second outside plausible range 1..=200"@,
        config_error_words(ConfigError::BandQuotas) == "band_quotas must sum to 1.0"@,
        config_error_words(ConfigError::ZeroDtMin) == "landmarks.dt_min_frames must be >= 1"@,
        config_error_words(ConfigError::DtOrder) == "landmarks.dt_max_frames < dt_min_frames"@,
{
}

} // verus!
