//! The fingerprinting engine that every frontend shares: spectrogram frames
//! in, binary batches out.
use vstd::prelude::*;

use crate::config::OPERATING_FREQ_BANDS;
use crate::ids::{decimal, decimal_digits};
use crate::landmark::{
    finalized, is_band_map, peak_frames, production_peaks, stream_fingerprints, zone_fits,
    Fingerprint32, LandmarkStreamer, LandmarkV2Config, TIME_LIMIT,
};
use crate::peaks::Cell;
use crate::sfp::{encode_batch, encodes, engine_fingerprint_version};
use crate::text::{chars_of, string_of};
use crate::version::{version_of, EngineId, FingerprintVersion};

verus! {

/// Configuration of the production engine, on both sides of a query.
pub open spec fn operating_config() -> LandmarkV2Config {
    LandmarkV2Config {
        fft_window: 2048,
        hop: 1024,
        peaks: production_peaks(),
        fanout: 8,
        dt_min: 1,
        dt_max: 50,
        freq_bands: OPERATING_FREQ_BANDS,
    }
}

/// Configuration of the production engine.
pub fn operating_point() -> (cfg: LandmarkV2Config)
    ensures
        cfg == operating_config(),
        zone_fits(cfg),
{
    LandmarkV2Config { freq_bands: OPERATING_FREQ_BANDS, ..LandmarkV2Config::default() }
}

/// Incremental fingerprinter. Feed spectrogram frames, pull batches at any
/// time, and once more after the end of the stream.
pub struct FingerprintEngine {
    inner: LandmarkStreamer,
    sample_rate_hz: u32,
    cfg: LandmarkV2Config,
}

impl FingerprintEngine {
    /// The stream behind the engine.
    pub closed spec fn stream(&self) -> LandmarkStreamer {
        self.inner
    }

    pub closed spec fn sample_rate(&self) -> u32 {
        self.sample_rate_hz
    }

    /// Fingerprints that wait for the next batch.
    pub open spec fn waiting(&self) -> Seq<Fingerprint32> {
        self.stream().waiting()
    }

    pub closed spec fn wf(&self) -> bool {
        self.inner.wf() && self.inner.config() == self.cfg
    }

    pub fn new(sample_rate_hz: u32, cfg: LandmarkV2Config) -> (e: Self)
        requires
            zone_fits(cfg),
            cfg.fft_window < 0x1000_0000_0000_0000,
        ensures
            e.wf(),
            e.sample_rate() == sample_rate_hz,
            e.stream().config() == cfg,
            e.stream().bins() == cfg.fft_window / 2 + 1,
            e.stream().frames().len() == 0,
            e.stream().drained().len() == 0,
            e.waiting().len() == 0,
            !e.stream().is_finished(),
            is_band_map(e.stream().bands(), e.stream().bins(), cfg.freq_bands),
    {
        FingerprintEngine { inner: LandmarkStreamer::new(&cfg), sample_rate_hz, cfg }
    }

    pub fn config(&self) -> (cfg: &LandmarkV2Config)
        requires
            self.wf(),
        ensures
            *cfg == self.stream().config(),
    {
        &self.cfg
    }

    /// Feeds one spectrogram frame.
    pub fn process_frame(&mut self, frame: &[Cell])
        requires
            old(self).wf(),
            !old(self).stream().is_finished(),
            frame.len() == old(self).stream().bins(),
            old(self).stream().frames().len() < TIME_LIMIT,
        ensures
            final(self).wf(),
            final(self).sample_rate() == old(self).sample_rate(),
            final(self).stream().config() == old(self).stream().config(),
            final(self).stream().bins() == old(self).stream().bins(),
            final(self).stream().bands() == old(self).stream().bands(),
            final(self).stream().drained() == old(self).stream().drained(),
            !final(self).stream().is_finished(),
            final(self).stream().frames() == old(self).stream().frames().push(frame@),
            final(self).stream().produced() == finalized(
                old(self).stream().config(),
                old(self).stream().bands(),
                peak_frames(
                    old(self).stream().config().peaks,
                    final(self).stream().frames(),
                    final(self).stream().frames().len() as int,
                ),
            ),
    {
        self.inner.process_frame(frame);
    }

    /// Moves the fingerprints finalized so far into `out`, as a batch.
    pub fn take_batch(&mut self, out: &mut Vec<u8>)
        requires
            old(self).wf(),
        ensures
            final(self).wf(),
            final(self).sample_rate() == old(self).sample_rate(),
            final(self).stream().config() == old(self).stream().config(),
            final(self).stream().bins() == old(self).stream().bins(),
            final(self).stream().bands() == old(self).stream().bands(),
            final(self).stream().frames() == old(self).stream().frames(),
            final(self).stream().is_finished() == old(self).stream().is_finished(),
            final(self).stream().produced() == old(self).stream().produced(),
            final(self).stream().drained() == old(self).stream().drained() + old(self).waiting(),
            final(self).waiting().len() == 0,
            encodes(final(out)@, old(self).waiting(), old(self).sample_rate()),
    {
        let mut fps: Vec<Fingerprint32> = Vec::new();
        self.inner.drain_into(&mut fps);
        assert(fps@ =~= old(self).waiting());
        encode_batch(&fps, self.sample_rate_hz, out);
    }

    /// Ends the stream; one more batch follows.
    pub fn finish(&mut self)
        requires
            old(self).wf(),
            !old(self).stream().is_finished(),
        ensures
            final(self).wf(),
            final(self).sample_rate() == old(self).sample_rate(),
            final(self).stream().config() == old(self).stream().config(),
            final(self).stream().bins() == old(self).stream().bins(),
            final(self).stream().bands() == old(self).stream().bands(),
            final(self).stream().frames() == old(self).stream().frames(),
            final(self).stream().drained() == old(self).stream().drained(),
            final(self).stream().is_finished(),
            final(self).stream().produced() == stream_fingerprints(
                old(self).stream().config(),
                old(self).stream().bands(),
                old(self).stream().frames(),
            ),
    {
        self.inner.finish();
    }
}

/// Name of the engine for diagnostics.
pub fn engine_name() -> (s: String)
    ensures
        s@ == "landmark-v2/32-bit fp v"@ + decimal(
            version_of(EngineId::LandmarkV2).major as nat,
        ) + "."@ + decimal(version_of(EngineId::LandmarkV2).minor as nat),
{
    let v: FingerprintVersion = engine_fingerprint_version();
    let mut cs: Vec<char> = chars_of("landmark-v2/32-bit fp v");
    let mut major: Vec<char> = decimal_digits(v.major as u64);
    let mut dot: Vec<char> = chars_of(".");
    let mut minor: Vec<char> = decimal_digits(v.minor as u64);
    cs.append(&mut major);
    cs.append(&mut dot);
    cs.append(&mut minor);
    string_of(&cs)
}

/// The parameters of the production engine.
pub proof fn law_operating_parameters()
    ensures
        operating_config().fft_window == 2048,
        operating_config().hop == 1024,
        operating_config().fanout == 8,
        operating_config().dt_min == 1,
        operating_config().dt_max == 50,
        operating_config().freq_bands == 512,
        operating_config().peaks == production_peaks(),
{
}

} // verus!
