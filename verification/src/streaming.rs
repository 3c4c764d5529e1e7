//! From samples to fingerprints: a [`FrameStreamer`] and a
//! [`LandmarkStreamer`] in step.
//!
//! Samples go to the first in chunks of any size; every full frame is turned
//! into a spectrogram frame and goes to the second; finished fingerprints are
//! drained at any time. The transform between the two is left open: what is
//! stated here holds of every transform that depends on its frame alone.
use vstd::prelude::*;

use crate::framing::{frame_at, frame_count, law_chunking_does_not_change_frames, FrameStreamer};
use crate::landmark::{
    anchors, clipped, in_anchor_order, is_band_map, law_band_maps_agree,
    law_fingerprints_come_in_anchor_order, law_targets_stay_in_zone, stream_fingerprints,
    stream_peaks, Fingerprint32, LandmarkStreamer, LandmarkV2Config,
};
use crate::peaks::Cell;

verus! {

/// The spectrogram of a signal: the transform of each of its full frames.
pub open spec fn spectrogram(
    transform: spec_fn(Seq<u32>) -> Seq<Cell>,
    samples: Seq<u32>,
    window: int,
    hop: int,
) -> Seq<Seq<Cell>> {
    Seq::new(
        frame_count(samples.len() as int, window, hop) as nat,
        |i: int| transform(frame_at(samples, window, hop, i)),
    )
}

/// A stream on its way: both streamers, and what was drained so far.
pub struct SampleStream {
    pub framer: FrameStreamer,
    pub landmarks: LandmarkStreamer,
    pub got: Vec<Fingerprint32>,
}

impl SampleStream {
    /// Nothing has been fed yet.
    pub open spec fn is_fresh(&self) -> bool {
        &&& self.framer.fed().len() == 0
        &&& self.framer.emitted() == 0
        &&& 0 < self.framer.hop() <= self.framer.window()
        &&& self.landmarks.frames().len() == 0
        &&& self.landmarks.drained().len() == 0
        &&& self.landmarks.waiting().len() == 0
        &&& !self.landmarks.is_finished()
        &&& self.got@.len() == 0
    }

    /// The fixed parts of the two are as before.
    pub open spec fn same_setup(&self, other: &Self) -> bool {
        &&& self.framer.window() == other.framer.window()
        &&& self.framer.hop() == other.framer.hop()
        &&& self.landmarks.config() == other.landmarks.config()
        &&& self.landmarks.bands() == other.landmarks.bands()
    }

    /// Frames that are complete and were not handed out yet.
    pub open spec fn frames_due(&self) -> int {
        frame_count(self.framer.fed().len() as int, self.framer.window(), self.framer.hop())
            - self.framer.emitted()
    }

    /// Both streamers agree with the samples fed.
    spec fn in_step(&self, transform: spec_fn(Seq<u32>) -> Seq<Cell>) -> bool {
        let (samples, w, h) = (self.framer.fed(), self.framer.window(), self.framer.hop());
        &&& 0 < h <= w
        &&& self.frames_due() >= 0
        &&& self.landmarks.frames() == spectrogram(transform, samples, w, h).take(
            self.framer.emitted() as int,
        )
        &&& self.got@ == self.landmarks.drained()
        &&& self.landmarks.is_finished() ==> {
            &&& self.frames_due() == 0
            &&& self.landmarks.produced() == stream_fingerprints(
                self.landmarks.config(),
                self.landmarks.bands(),
                self.landmarks.frames(),
            )
        }
    }
}

/// One more chunk is fed.
pub open spec fn feeds(a: SampleStream, b: SampleStream) -> bool {
    &&& !a.landmarks.is_finished()
    &&& b.same_setup(&a)
    &&& exists|chunk: Seq<u32>| b.framer.fed() == #[trigger] (a.framer.fed() + chunk)
    &&& b.framer.emitted() == a.framer.emitted()
    &&& b.landmarks == a.landmarks
    &&& b.got == a.got
}

/// The next full frame is transformed and handed on.
pub open spec fn passes_frame(
    a: SampleStream,
    b: SampleStream,
    transform: spec_fn(Seq<u32>) -> Seq<Cell>,
) -> bool {
    let i = a.framer.emitted();
    &&& !a.landmarks.is_finished()
    &&& !b.landmarks.is_finished()
    &&& b.same_setup(&a)
    &&& a.frames_due() > 0
    &&& b.framer.fed() == a.framer.fed()
    &&& b.framer.emitted() == i + 1
    &&& b.landmarks.frames() == a.landmarks.frames().push(
        transform(frame_at(a.framer.fed(), a.framer.window(), a.framer.hop(), i as int)),
    )
    &&& b.landmarks.drained() == a.landmarks.drained()
    &&& b.got == a.got
}

/// What is finished is drained.
pub open spec fn drains(a: SampleStream, b: SampleStream) -> bool {
    &&& b.framer == a.framer
    &&& b.same_setup(&a)
    &&& b.landmarks.frames() == a.landmarks.frames()
    &&& b.landmarks.is_finished() == a.landmarks.is_finished()
    &&& b.landmarks.drained() == a.landmarks.drained() + a.landmarks.waiting()
    &&& b.landmarks.waiting().len() == 0
    &&& b.landmarks.produced() == a.landmarks.produced()
    &&& b.got@ == a.got@ + a.landmarks.waiting()
}

/// The stream ends; every full frame has been handed on.
pub open spec fn ends(a: SampleStream, b: SampleStream) -> bool {
    &&& !a.landmarks.is_finished()
    &&& a.frames_due() == 0
    &&& b.framer == a.framer
    &&& b.same_setup(&a)
    &&& b.landmarks.is_finished()
    &&& b.landmarks.frames() == a.landmarks.frames()
    &&& b.landmarks.drained() == a.landmarks.drained()
    &&& b.landmarks.produced() == stream_fingerprints(
        a.landmarks.config(),
        a.landmarks.bands(),
        a.landmarks.frames(),
    )
    &&& b.got == a.got
}

/// Any one of these steps.
pub open spec fn advances(
    a: SampleStream,
    b: SampleStream,
    transform: spec_fn(Seq<u32>) -> Seq<Cell>,
) -> bool {
    feeds(a, b) || passes_frame(a, b, transform) || drains(a, b) || ends(a, b)
}

/// More samples leave the complete frames as they are.
proof fn lemma_spectrogram_grows(
    transform: spec_fn(Seq<u32>) -> Seq<Cell>,
    samples: Seq<u32>,
    chunk: Seq<u32>,
    window: int,
    hop: int,
    n: int,
)
    requires
        0 < hop <= window,
        0 <= n <= frame_count(samples.len() as int, window, hop),
    ensures
        n <= frame_count((samples + chunk).len() as int, window, hop),
        spectrogram(transform, samples + chunk, window, hop).take(n) == spectrogram(
            transform,
            samples,
            window,
            hop,
        ).take(n),
{
    let none = Seq::<u32>::empty();
    assert(samples + none =~= samples);
    if n > 0 {
        law_chunking_does_not_change_frames(samples, none, chunk, window, hop, n - 1);
    } else if samples.len() + chunk.len() >= window {
        let m = samples.len() + chunk.len() - window;
        assert(m / hop >= 0) by (nonlinear_arith)
            requires
                m >= 0,
                hop > 0,
        ;
    }
    let (a, b) = (
        spectrogram(transform, samples + chunk, window, hop).take(n),
        spectrogram(transform, samples, window, hop).take(n),
    );
    assert forall|i: int| 0 <= i < n implies a[i] == b[i] by {
        law_chunking_does_not_change_frames(samples, none, chunk, window, hop, i);
    }
    assert(a =~= b);
}

/// Every step keeps the streamers in step.
proof fn lemma_stays_in_step(
    a: SampleStream,
    b: SampleStream,
    transform: spec_fn(Seq<u32>) -> Seq<Cell>,
)
    requires
        a.in_step(transform),
        advances(a, b, transform),
    ensures
        b.in_step(transform),
        b.same_setup(&a),
{
    let (samples, w, h) = (a.framer.fed(), a.framer.window(), a.framer.hop());
    let n = a.framer.emitted() as int;
    if feeds(a, b) {
        let chunk = choose|chunk: Seq<u32>|
            b.framer.fed() == #[trigger] (a.framer.fed() + chunk);
        lemma_spectrogram_grows(transform, samples, chunk, w, h, n);
    } else if passes_frame(a, b, transform) {
        let all = spectrogram(transform, samples, w, h);
        assert(all.take(n + 1) =~= all.take(n).push(all[n]));
    }
}

/// Fingerprints do not depend on how a signal is cut into chunks, nor on when
/// they are drained: whatever steps lead to the end of a stream, what was
/// drained, with a last drain at the end, is what one pass over the
/// spectrogram of all samples gives. Along it the anchor times do not
/// decrease, and the time distance in each hash lies in the target zone.
pub proof fn law_streaming_equals_batch(
    states: Seq<SampleStream>,
    transform: spec_fn(Seq<u32>) -> Seq<Cell>,
    cfg: LandmarkV2Config,
    bins: usize,
    bands: Seq<u16>,
)
    requires
        states.len() > 0,
        states[0].is_fresh(),
        states[0].landmarks.config() == cfg,
        is_band_map(states[0].landmarks.bands(), bins, cfg.freq_bands),
        is_band_map(bands, bins, cfg.freq_bands),
        forall|i: int|
            0 <= i < states.len() - 1 ==> #[trigger] advances(states[i], states[i + 1], transform),
        states.last().landmarks.is_finished(),
        states.last().landmarks.waiting().len() == 0,
    ensures
        states.last().got@ == stream_fingerprints(
            cfg,
            bands,
            spectrogram(
                transform,
                states.last().framer.fed(),
                states[0].framer.window(),
                states[0].framer.hop(),
            ),
        ),
        states.last().landmarks.frames().len() <= u32::MAX ==> in_anchor_order(
            states.last().got@,
        ),
        forall|i: int|
            0 <= i < states.last().got@.len() ==> clipped(cfg.dt_min as int) <= (
            #[trigger] states.last().got@[i]).hash % 256 <= clipped(cfg.dt_max as int),
{
    let last = states.last();
    lemma_run_stays_in_step(states, transform, states.len() - 1);
    let all = spectrogram(
        transform,
        last.framer.fed(),
        last.framer.window(),
        last.framer.hop(),
    );
    assert(all.take(all.len() as int) =~= all);
    law_band_maps_agree(states[0].landmarks.bands(), bands, bins, cfg.freq_bands);
    assert(last.landmarks.produced() =~= last.got@);
    if all.len() <= u32::MAX {
        law_fingerprints_come_in_anchor_order(cfg, bands, all);
    }
    let frames = stream_peaks(cfg.peaks, all);
    law_targets_stay_in_zone(cfg, bands, frames, anchors(bands, frames).len() as int);
}

proof fn lemma_run_stays_in_step(
    states: Seq<SampleStream>,
    transform: spec_fn(Seq<u32>) -> Seq<Cell>,
    n: int,
)
    requires
        0 <= n < states.len(),
        states[0].is_fresh(),
        forall|i: int|
            0 <= i < states.len() - 1 ==> #[trigger] advances(states[i], states[i + 1], transform),
    ensures
        states[n].in_step(transform),
        states[n].same_setup(&states[0]),
    decreases n,
{
    if n > 0 {
        lemma_run_stays_in_step(states, transform, n - 1);
        assert(advances(states[n - 1], states[n - 1 + 1], transform));
        lemma_stays_in_step(states[n - 1], states[n], transform);
    } else {
        let s = states[0];
        assert(s.landmarks.frames() =~= spectrogram(
            transform,
            s.framer.fed(),
            s.framer.window(),
            s.framer.hop(),
        ).take(0));
        assert(s.got@ =~= s.landmarks.drained());
    }
}

} // verus!
