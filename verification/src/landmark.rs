//! Landmark fingerprinting: streaming, with constant memory.
//!
//! [`LandmarkStreamer`] feeds spectrogram frames to the peak detector, then
//! pairs anchors with targets chosen from a bounded window of later peaks.
//! Anchors finalize once their whole target zone has arrived, so memory does
//! not grow with the stream. The batch [`fingerprint`] is a thin wrapper over
//! one streamer pass.
//!
//! Target score: half the band distance plus up to 64 points of strength,
//! where strength is the target's prominence above its own frame's noise
//! floor, saturating at 60 dB. Scores are kept in units that make them whole
//! numbers.
use vstd::prelude::*;

use crate::bands::{is_band, law_band_is_unique, BandTable};
use crate::config::AlgorithmConfig;
use crate::hash::{pack_hash32, packed_hash32};
use crate::peaks::{
    amplified, candidates, decided, decided_range, frames_of, gain_fits, keeps_order,
    law_density_is_capped, law_peaks_ignore_gain, lemma_flat_floor, lemma_peak_bins, lemma_range_bins, uniform, Cell, Peak,
    PeakStreamer, PeaksV2Config,
};
use std::collections::VecDeque;

verus! {

/// A 32-bit pair fingerprint with its anchor time in frames.
#[derive(Debug, Clone, Copy, PartialEq, Eq, Structural)]
pub struct Fingerprint32 {
    pub hash: u32,
    pub anchor_time: u32,
}

/// Geometry and pairing parameters.
#[derive(Debug, Clone, Copy, PartialEq, Eq, Structural)]
pub struct LandmarkV2Config {
    pub fft_window: usize,
    pub hop: usize,
    pub peaks: PeaksV2Config,
    /// Targets per anchor.
    pub fanout: usize,
    /// Target zone bounds in frames.
    pub dt_min: usize,
    pub dt_max: usize,
    /// Number of log-spaced frequency bands.
    pub freq_bands: u16,
}

/// The production peak detector: background suppression over about four
/// seconds, and a guard against spectral dust.
pub open spec fn production_peaks() -> PeaksV2Config {
    PeaksV2Config {
        background_min_window_frames: 86,
        background_margin: 6_000_000,
        relative_floor: 35_000_000,
        ..crate::peaks::default_peaks()
    }
}

impl Default for LandmarkV2Config {
    fn default() -> (c: Self)
        ensures
            c == (LandmarkV2Config {
                fft_window: 2048,
                hop: 1024,
                peaks: production_peaks(),
                fanout: 8,
                dt_min: 1,
                dt_max: 50,
                freq_bands: 256,
            }),
    {
        let peaks = PeaksV2Config {
            background_min_window_frames: 86,
            background_margin: 6_000_000,
            relative_floor: 35_000_000,
            ..PeaksV2Config::default()
        };
        LandmarkV2Config {
            fft_window: 2048,
            hop: 1024,
            peaks,
            fanout: 8,
            dt_min: 1,
            dt_max: 50,
            freq_bands: 256,
        }
    }
}

impl From<&AlgorithmConfig> for LandmarkV2Config {
    /// The production parameters with the configured geometry.
    fn from(c: &AlgorithmConfig) -> (r: Self) {
        LandmarkV2Config {
            fft_window: c.fft.window_size,
            hop: c.fft.hop_size,
            ..LandmarkV2Config::default()
        }
    }
}

impl vstd::std_specs::convert::FromSpecImpl<&AlgorithmConfig> for LandmarkV2Config {
    open spec fn obeys_from_spec() -> bool {
        true
    }

    open spec fn from_spec(c: &AlgorithmConfig) -> Self {
        LandmarkV2Config {
            fft_window: c.fft.window_size,
            hop: c.fft.hop_size,
            peaks: production_peaks(),
            fanout: 8,
            dt_min: 1,
            dt_max: 50,
            freq_bands: 256,
        }
    }
}

/// Largest frame count and zone bound: sums of two stay in range.
pub const TIME_LIMIT: u64 = 0x3fff_ffff_ffff_ffff;

/// The peaks that arrived together, and when.
pub struct PeakFrame {
    pub time: u64,
    pub peaks: Seq<Peak>,
}

/// A peak waiting for its targets.
#[derive(Debug, Clone, Copy, PartialEq, Eq, Structural)]
pub struct PendingAnchor {
    pub time_idx: u64,
    pub f1q: u16,
}

/// A target as an anchor sees it.
#[derive(Debug, Clone, Copy, PartialEq, Eq, Structural)]
pub struct Target {
    pub slot: usize,
    pub score: u64,
    pub f2q: u16,
    pub dt: u8,
}

/// Strength in millionths of a decibel, between zero and 60 dB.
pub open spec fn strength(prominence: i64) -> int {
    if prominence < 0 {
        0
    } else if prominence > 60_000_000 {
        60_000_000
    } else {
        prominence as int
    }
}

/// Distance of two bands.
pub open spec fn band_distance(a: u16, b: u16) -> int {
    if a >= b {
        a - b
    } else {
        b - a
    }
}

/// Score of a target in units of one 120-millionth of a point: half the band
/// distance, plus 64 points at full strength.
pub open spec fn target_score(f1q: u16, f2q: u16, prominence: i64) -> int {
    60_000_000 * band_distance(f1q, f2q) + 128 * strength(prominence)
}

/// Frames in the target zone.
pub open spec fn zone_width(cfg: LandmarkV2Config) -> int {
    if cfg.dt_max >= cfg.dt_min {
        cfg.dt_max - cfg.dt_min + 1
    } else {
        1
    }
}

/// Temporal slots of the zone: one target is taken from each.
pub open spec fn slot_count(cfg: LandmarkV2Config) -> int {
    if cfg.fanout == 0 {
        1
    } else if cfg.fanout <= zone_width(cfg) {
        cfg.fanout as int
    } else {
        zone_width(cfg)
    }
}

/// Slot of a target `dt` frames behind its anchor: the zone is cut into
/// stretches of equal width, and the last slot takes what is left.
pub open spec fn slot_of(cfg: LandmarkV2Config, dt: int) -> int {
    let step = zone_width(cfg) / slot_count(cfg);
    let s = (dt - cfg.dt_min) / step;
    if s < slot_count(cfg) {
        s
    } else {
        slot_count(cfg) - 1
    }
}

/// The frame lies in the target zone of the anchor.
pub open spec fn in_zone(cfg: LandmarkV2Config, a: PendingAnchor, time: u64) -> bool {
    a.time_idx + cfg.dt_min <= time <= a.time_idx + cfg.dt_max
}

/// A peak as a target.
pub open spec fn target_of(
    cfg: LandmarkV2Config,
    bands: Seq<u16>,
    a: PendingAnchor,
    time: u64,
    p: Peak,
) -> Target {
    let dt = time - a.time_idx;
    let f2q = bands[p.freq_bin_idx as int];
    Target {
        slot: slot_of(cfg, dt) as usize,
        score: target_score(a.f1q, f2q, p.prominence) as u64,
        f2q,
        dt: if dt < 255 {
            dt as u8
        } else {
            255
        },
    }
}

/// The targets of one frame.
pub open spec fn frame_targets(
    cfg: LandmarkV2Config,
    bands: Seq<u16>,
    a: PendingAnchor,
    f: PeakFrame,
) -> Seq<Target> {
    if in_zone(cfg, a, f.time) {
        f.peaks.map_values(|p: Peak| target_of(cfg, bands, a, f.time, p))
    } else {
        Seq::empty()
    }
}

/// All targets of an anchor, in order of arrival.
pub open spec fn targets(
    cfg: LandmarkV2Config,
    bands: Seq<u16>,
    a: PendingAnchor,
    frames: Seq<PeakFrame>,
) -> Seq<Target>
    decreases frames.len(),
{
    if frames.len() == 0 {
        Seq::empty()
    } else {
        targets(cfg, bands, a, frames.drop_last()) + frame_targets(cfg, bands, a, frames.last())
    }
}

/// The best target of a slot: the highest score, the first of equal ones.
pub open spec fn best_target(ts: Seq<Target>, slot: int) -> Option<Target>
    decreases ts.len(),
{
    if ts.len() == 0 {
        None
    } else {
        let rest = best_target(ts.drop_last(), slot);
        let t = ts.last();
        if t.slot == slot && (rest is None || t.score > rest->0.score) {
            Some(t)
        } else {
            rest
        }
    }
}

/// The fingerprints of the first `slots` slots.
pub open spec fn slot_fingerprints(a: PendingAnchor, ts: Seq<Target>, slots: int) -> Seq<
    Fingerprint32,
>
    decreases slots,
{
    if slots <= 0 {
        Seq::empty()
    } else {
        let rest = slot_fingerprints(a, ts, slots - 1);
        match best_target(ts, slots - 1) {
            Some(t) => rest.push(
                Fingerprint32 {
                    hash: packed_hash32(a.f1q, t.f2q, t.dt) as u32,
                    anchor_time: a.time_idx as u32,
                },
            ),
            None => rest,
        }
    }
}

/// The fingerprints of an anchor.
pub open spec fn anchor_fingerprints(
    cfg: LandmarkV2Config,
    bands: Seq<u16>,
    a: PendingAnchor,
    frames: Seq<PeakFrame>,
) -> Seq<Fingerprint32> {
    slot_fingerprints(a, targets(cfg, bands, a, frames), slot_count(cfg))
}

/// The anchors of one frame.
pub open spec fn frame_anchors(bands: Seq<u16>, f: PeakFrame) -> Seq<PendingAnchor> {
    f.peaks.map_values(
        |p: Peak| PendingAnchor { time_idx: f.time, f1q: bands[p.freq_bin_idx as int] },
    )
}

/// All anchors, in order of arrival.
pub open spec fn anchors(bands: Seq<u16>, frames: Seq<PeakFrame>) -> Seq<PendingAnchor>
    decreases frames.len(),
{
    if frames.len() == 0 {
        Seq::empty()
    } else {
        anchors(bands, frames.drop_last()) + frame_anchors(bands, frames.last())
    }
}

/// The fingerprints of the first `n` anchors, in order.
pub open spec fn fingerprints_upto(
    cfg: LandmarkV2Config,
    bands: Seq<u16>,
    frames: Seq<PeakFrame>,
    n: int,
) -> Seq<Fingerprint32>
    decreases n,
{
    if n <= 0 {
        Seq::empty()
    } else {
        fingerprints_upto(cfg, bands, frames, n - 1) + anchor_fingerprints(
            cfg,
            bands,
            anchors(bands, frames)[n - 1],
            frames,
        )
    }
}

/// All fingerprints of the given peaks, anchor by anchor.
pub open spec fn landmarks(cfg: LandmarkV2Config, bands: Seq<u16>, frames: Seq<PeakFrame>) -> Seq<
    Fingerprint32,
> {
    fingerprints_upto(cfg, bands, frames, anchors(bands, frames).len() as int)
}

/// The peaks that come out while the first `n` spectrogram frames are fed,
/// each lot labelled with the frame that brought it out.
pub open spec fn peak_frames(cfg: PeaksV2Config, log: Seq<Seq<Cell>>, n: int) -> Seq<PeakFrame>
    decreases n,
{
    if n <= 0 {
        Seq::empty()
    } else {
        let rest = peak_frames(cfg, log, n - 1);
        let peaks = decided(cfg, log.take(n), n - 1 - cfg.time_radius);
        if n > cfg.time_radius && peaks.len() > 0 {
            rest.push(PeakFrame { time: (n - 1) as u64, peaks })
        } else {
            rest
        }
    }
}

/// The peaks of a whole stream: those that came out on the way, and those
/// that its end flushes, labelled with the number of frames.
pub open spec fn stream_peaks(cfg: PeaksV2Config, log: Seq<Seq<Cell>>) -> Seq<PeakFrame> {
    let n = log.len() as int;
    let on_the_way = peak_frames(cfg, log, n);
    let from = if n > cfg.time_radius {
        n - cfg.time_radius
    } else {
        0
    };
    let tail = decided_range(cfg, log, from, n);
    if tail.len() > 0 {
        on_the_way.push(PeakFrame { time: n as u64, peaks: tail })
    } else {
        on_the_way
    }
}

/// All fingerprints of a stream of spectrogram frames.
pub open spec fn stream_fingerprints(
    cfg: LandmarkV2Config,
    bands: Seq<u16>,
    log: Seq<Seq<Cell>>,
) -> Seq<Fingerprint32> {
    landmarks(cfg, bands, stream_peaks(cfg.peaks, log))
}

/// A lot of peaks as the streamer holds it.
struct HeldFrame {
    time: u64,
    peaks: Vec<Peak>,
}

/// What the held frames are.
spec fn lots(frames: Seq<HeldFrame>) -> Seq<PeakFrame> {
    frames.map_values(|f: HeldFrame| PeakFrame { time: f.time, peaks: f.peaks@ })
}

/// Times ascend, and every peak has a band.
spec fn history_ok(history: Seq<PeakFrame>, bins: int) -> bool {
    &&& forall|i: int, j: int|
        #![trigger history[i], history[j]]
        0 <= i < j < history.len() ==> history[i].time < history[j].time
    &&& forall|i: int| 0 <= i < history.len() ==> has_bands((#[trigger] history[i]).peaks, bins)
    &&& forall|i: int| 0 <= i < history.len() ==> (#[trigger] history[i]).time <= TIME_LIMIT
}

spec fn has_bands(peaks: Seq<Peak>, bins: int) -> bool {
    forall|k: int| 0 <= k < peaks.len() ==> (#[trigger] peaks[k]).freq_bin_idx < bins
}

proof fn lemma_targets_concat(
    cfg: LandmarkV2Config,
    bands: Seq<u16>,
    a: PendingAnchor,
    f: Seq<PeakFrame>,
    g: Seq<PeakFrame>,
)
    ensures
        targets(cfg, bands, a, f + g) == targets(cfg, bands, a, f) + targets(cfg, bands, a, g),
    decreases g.len(),
{
    if g.len() == 0 {
        assert(f + g =~= f);
        assert(targets(cfg, bands, a, f) + targets(cfg, bands, a, g) =~= targets(
            cfg,
            bands,
            a,
            f,
        ));
    } else {
        assert((f + g).drop_last() =~= f + g.drop_last());
        lemma_targets_concat(cfg, bands, a, f, g.drop_last());
        assert(targets(cfg, bands, a, f + g) =~= targets(cfg, bands, a, f) + targets(
            cfg,
            bands,
            a,
            g,
        ));
    }
}

/// Frames outside the zone give no targets.
proof fn lemma_targets_outside(
    cfg: LandmarkV2Config,
    bands: Seq<u16>,
    a: PendingAnchor,
    f: Seq<PeakFrame>,
)
    requires
        forall|k: int| 0 <= k < f.len() ==> !in_zone(cfg, a, (#[trigger] f[k]).time),
    ensures
        targets(cfg, bands, a, f).len() == 0,
    decreases f.len(),
{
    if f.len() > 0 {
        let t = f.drop_last();
        assert forall|k: int| 0 <= k < t.len() implies !in_zone(
            cfg,
            a,
            (#[trigger] t[k]).time,
        ) by {
            assert(t[k] == f[k]);
        }
        lemma_targets_outside(cfg, bands, a, t);
        assert(!in_zone(cfg, a, f[f.len() - 1].time));
    }
}

/// A frame past the zone does not change an anchor's fingerprints.
proof fn lemma_later_frames_do_not_matter(
    cfg: LandmarkV2Config,
    bands: Seq<u16>,
    a: PendingAnchor,
    frames: Seq<PeakFrame>,
    f: PeakFrame,
)
    requires
        f.time > a.time_idx + cfg.dt_max,
    ensures
        anchor_fingerprints(cfg, bands, a, frames.push(f)) == anchor_fingerprints(
            cfg,
            bands,
            a,
            frames,
        ),
{
    assert(frames.push(f).drop_last() =~= frames);
    assert(targets(cfg, bands, a, frames.push(f)) =~= targets(cfg, bands, a, frames));
}

/// More frames only add anchors.
proof fn lemma_anchors_push(bands: Seq<u16>, frames: Seq<PeakFrame>, f: PeakFrame)
    ensures
        anchors(bands, frames.push(f)) == anchors(bands, frames) + frame_anchors(bands, f),
{
    assert(frames.push(f).drop_last() =~= frames);
}

/// Every anchor stands at the time of one of the frames.
proof fn lemma_anchor_times(bands: Seq<u16>, frames: Seq<PeakFrame>, bound: int)
    requires
        forall|k: int| 0 <= k < frames.len() ==> (#[trigger] frames[k]).time <= bound,
    ensures
        forall|k: int|
            0 <= k < anchors(bands, frames).len() ==> (
            #[trigger] anchors(bands, frames)[k]).time_idx <= bound,
    decreases frames.len(),
{
    if frames.len() > 0 {
        let t = frames.drop_last();
        assert forall|k: int| 0 <= k < t.len() implies (#[trigger] t[k]).time <= bound by {
            assert(t[k] == frames[k]);
        }
        lemma_anchor_times(bands, t, bound);
        assert(frames[frames.len() - 1].time <= bound);
        let all = anchors(bands, frames);
        let rest = anchors(bands, t);
        assert forall|k: int| 0 <= k < all.len() implies (#[trigger] all[k]).time_idx <= bound by {
            if k < rest.len() {
                assert(all[k] == rest[k]);
            }
        }
    }
}

/// Later anchors do not stand before earlier ones.
proof fn lemma_anchors_ascend(bands: Seq<u16>, frames: Seq<PeakFrame>, bins: int)
    requires
        history_ok(frames, bins),
    ensures
        forall|i: int, j: int|
            #![trigger anchors(bands, frames)[i], anchors(bands, frames)[j]]
            0 <= i <= j < anchors(bands, frames).len() ==> anchors(bands, frames)[i].time_idx
                <= anchors(bands, frames)[j].time_idx,
    decreases frames.len(),
{
    if frames.len() > 0 {
        let t = frames.drop_last();
        let last = frames[frames.len() - 1];
        assert(history_ok(t, bins)) by {
            assert forall|i: int, j: int|
                #![trigger t[i], t[j]]
                0 <= i < j < t.len() implies t[i].time < t[j].time by {
                assert(frames[i].time < frames[j].time);
            }
            assert forall|i: int| 0 <= i < t.len() implies has_bands(
                (#[trigger] t[i]).peaks,
                bins,
            ) by {
                assert(t[i] == frames[i]);
            }
            assert forall|i: int| 0 <= i < t.len() implies (#[trigger] t[i]).time
                <= TIME_LIMIT by {
                assert(t[i] == frames[i]);
            }
        }
        lemma_anchors_ascend(bands, t, bins);
        assert forall|k: int| 0 <= k < t.len() implies (#[trigger] t[k]).time <= last.time by {
            assert(frames[k].time < frames[frames.len() - 1].time);
        }
        lemma_anchor_times(bands, t, last.time as int);
        let all = anchors(bands, frames);
        let rest = anchors(bands, t);
        assert forall|i: int, j: int|
            #![trigger all[i], all[j]]
            0 <= i <= j < all.len() implies all[i].time_idx <= all[j].time_idx by {
            if j < rest.len() {
                assert(all[i] == rest[i] && all[j] == rest[j]);
            } else if i < rest.len() {
                assert(all[i] == rest[i]);
            }
        }
    }
}

/// What was finalized stays as it is when a frame past all those zones
/// arrives.
proof fn lemma_finalized_stays(
    cfg: LandmarkV2Config,
    bands: Seq<u16>,
    frames: Seq<PeakFrame>,
    f: PeakFrame,
    n: int,
)
    requires
        0 <= n <= anchors(bands, frames).len(),
        forall|k: int|
            0 <= k < n ==> f.time > (#[trigger] anchors(bands, frames)[k]).time_idx + cfg.dt_max,
    ensures
        fingerprints_upto(cfg, bands, frames.push(f), n) == fingerprints_upto(
            cfg,
            bands,
            frames,
            n,
        ),
    decreases n,
{
    if n > 0 {
        lemma_finalized_stays(cfg, bands, frames, f, n - 1);
        lemma_anchors_push(bands, frames, f);
        let a = anchors(bands, frames)[n - 1];
        assert(anchors(bands, frames.push(f))[n - 1] == a);
        lemma_later_frames_do_not_matter(cfg, bands, a, frames, f);
    }
}

/// How many anchors, from the first on, have their whole zone behind them
/// at `now`.
pub open spec fn ready_count(cfg: LandmarkV2Config, waiting: Seq<PendingAnchor>, now: int) -> int
    decreases waiting.len(),
{
    if waiting.len() == 0 {
        0
    } else {
        let r = ready_count(cfg, waiting.drop_last(), now);
        if r == waiting.len() - 1 && waiting.last().time_idx + cfg.dt_max <= now {
            waiting.len() as int
        } else {
            r
        }
    }
}

/// Time of the last lot of peaks.
pub open spec fn last_time(frames: Seq<PeakFrame>) -> int {
    if frames.len() == 0 {
        0
    } else {
        frames.last().time as int
    }
}

/// The fingerprints that are final once the given peaks have arrived.
pub open spec fn finalized(cfg: LandmarkV2Config, bands: Seq<u16>, frames: Seq<PeakFrame>) -> Seq<
    Fingerprint32,
> {
    let n = if frames.len() == 0 {
        0
    } else {
        ready_count(cfg, anchors(bands, frames), last_time(frames))
    };
    fingerprints_upto(cfg, bands, frames, n)
}

proof fn lemma_ready_count(cfg: LandmarkV2Config, waiting: Seq<PendingAnchor>, now: int, n: int)
    requires
        0 <= n <= waiting.len(),
        forall|k: int| 0 <= k < n ==> (#[trigger] waiting[k]).time_idx + cfg.dt_max <= now,
        n < waiting.len() ==> waiting[n].time_idx + cfg.dt_max > now,
    ensures
        ready_count(cfg, waiting, now) == n,
    decreases waiting.len(),
{
    if waiting.len() > 0 {
        let rest = waiting.drop_last();
        if n == waiting.len() {
            assert forall|k: int| 0 <= k < n - 1 implies (#[trigger] rest[k]).time_idx + cfg.dt_max
                <= now by {
                assert(rest[k] == waiting[k]);
            }
            lemma_ready_count(cfg, rest, now, n - 1);
            assert(waiting[n - 1].time_idx + cfg.dt_max <= now);
        } else {
            assert forall|k: int| 0 <= k < n implies (#[trigger] rest[k]).time_idx + cfg.dt_max
                <= now by {
                assert(rest[k] == waiting[k]);
            }
            lemma_ready_count(cfg, rest, now, n);
        }
    }
}

/// More anchors take nothing from the ready ones.
proof fn lemma_ready_grows(
    cfg: LandmarkV2Config,
    waiting: Seq<PendingAnchor>,
    more: Seq<PendingAnchor>,
    now: int,
)
    ensures
        ready_count(cfg, waiting, now) <= ready_count(cfg, waiting + more, now),
        ready_count(cfg, waiting, now) <= waiting.len(),
    decreases waiting.len() + more.len(),
{
    if more.len() > 0 {
        let all = waiting + more;
        lemma_ready_grows(cfg, waiting, more.drop_last(), now);
        assert(all.drop_last() =~= waiting + more.drop_last());
        lemma_ready_grows(cfg, waiting + more.drop_last(), Seq::empty(), now);
    } else {
        assert(waiting + more =~= waiting);
        if waiting.len() > 0 {
            lemma_ready_grows(cfg, waiting.drop_last(), more, now);
        }
    }
}

/// Anchors wait only for the frames of their zone: no more of them than
/// peaks fit in so many frames.
proof fn lemma_few_wait(
    cfg: LandmarkV2Config,
    bands: Seq<u16>,
    frames: Seq<PeakFrame>,
    bins: int,
    now: int,
)
    requires
        history_ok(frames, bins),
        forall|k: int|
            0 <= k < frames.len() ==> (#[trigger] frames[k]).peaks.len()
                <= cfg.peaks.max_peaks_per_frame,
    ensures
        anchors(bands, frames).len() - ready_count(cfg, anchors(bands, frames), now)
            <= cfg.peaks.max_peaks_per_frame * if frames.len() > 0 && frames.last().time
            + cfg.dt_max > now {
            frames.last().time + cfg.dt_max - now
        } else {
            0
        },
    decreases frames.len(),
{
    let cap = cfg.peaks.max_peaks_per_frame as int;
    let all = anchors(bands, frames);
    assert(cap * 0 == 0);
    if frames.len() > 0 {
        let rest = frames.drop_last();
        let f = frames.last();
        let late = f.time + cfg.dt_max - now;
        if late <= 0 {
            assert forall|k: int| 0 <= k < frames.len() implies (#[trigger] frames[k]).time
                <= f.time by {
                if k < frames.len() - 1 {
                    assert(frames[k].time < frames[frames.len() - 1].time);
                }
            }
            lemma_anchor_times(bands, frames, f.time as int);
            lemma_ready_count(cfg, all, now, all.len() as int);
        } else {
            assert forall|k: int| 0 <= k < rest.len() implies (#[trigger] rest[k]).peaks.len()
                <= cap by {
                assert(rest[k] == frames[k]);
            }
            assert(history_ok(rest, bins)) by {
                assert forall|i: int, j: int|
                    #![trigger rest[i], rest[j]]
                    0 <= i < j < rest.len() implies rest[i].time < rest[j].time by {
                    assert(frames[i].time < frames[j].time);
                }
                assert forall|i: int| 0 <= i < rest.len() implies has_bands(
                    (#[trigger] rest[i]).peaks,
                    bins,
                ) && rest[i].time <= TIME_LIMIT by {
                    assert(rest[i] == frames[i]);
                }
            }
            lemma_few_wait(cfg, bands, rest, bins, now);
            lemma_ready_grows(cfg, anchors(bands, rest), frame_anchors(bands, f), now);
            assert(frames[frames.len() - 1].peaks.len() <= cap);
            let before = if rest.len() > 0 && rest.last().time + cfg.dt_max > now {
                rest.last().time + cfg.dt_max - now
            } else {
                0
            };
            assert(before + 1 <= late) by {
                if rest.len() > 0 {
                    assert(frames[rest.len() - 1].time < frames[frames.len() - 1].time);
                }
            }
            assert(cap * before + cap <= cap * late) by (nonlinear_arith)
                requires
                    before + 1 <= late,
                    cap >= 0,
            ;
        }
    }
}

/// Density control holds for every lot that comes out on the way.
proof fn lemma_lots_are_capped(cfg: PeaksV2Config, log: Seq<Seq<Cell>>, n: int)
    ensures
        forall|k: int|
            0 <= k < peak_frames(cfg, log, n).len() ==> (#[trigger] peak_frames(
                cfg,
                log,
                n,
            )[k]).peaks.len() <= cfg.max_peaks_per_frame,
    decreases n,
{
    if n > 0 {
        lemma_lots_are_capped(cfg, log, n - 1);
        law_density_is_capped(cfg, log.take(n), n - 1 - cfg.time_radius);
        let rest = peak_frames(cfg, log, n - 1);
        let all = peak_frames(cfg, log, n);
        assert forall|k: int| 0 <= k < all.len() implies (#[trigger] all[k]).peaks.len()
            <= cfg.max_peaks_per_frame by {
            if k < rest.len() {
                assert(all[k] == rest[k]);
            }
        }
    }
}

/// Earlier labels do not depend on later frames.
proof fn lemma_peak_frames_push(cfg: PeaksV2Config, log: Seq<Seq<Cell>>, f: Seq<Cell>, n: int)
    requires
        n <= log.len(),
    ensures
        peak_frames(cfg, log.push(f), n) == peak_frames(cfg, log, n),
    decreases n,
{
    if n > 0 {
        lemma_peak_frames_push(cfg, log, f, n - 1);
        assert(log.push(f).take(n) =~= log.take(n));
    }
}

/// The zone's bounds can be added to any frame time.
pub open spec fn zone_fits(cfg: LandmarkV2Config) -> bool {
    &&& cfg.dt_min < TIME_LIMIT
    &&& cfg.dt_max < TIME_LIMIT
    &&& cfg.dt_max < usize::MAX
}

/// Every held peak has a band.
spec fn held_ok(frames: Seq<HeldFrame>, bins: int) -> bool {
    forall|i: int| 0 <= i < frames.len() ==> has_bands((#[trigger] frames[i]).peaks@, bins)
}

fn abs_diff(a: u16, b: u16) -> (d: u16)
    ensures
        d == band_distance(a, b),
{
    if a >= b {
        a - b
    } else {
        b - a
    }
}

/// A peak of a frame in the zone, as the anchor sees it.
fn see_target(
    cfg: &LandmarkV2Config,
    bands: &BandTable,
    a: &PendingAnchor,
    time: u64,
    p: &Peak,
    slots: usize,
    step: usize,
) -> (t: Target)
    requires
        bands.wf(),
        p.freq_bin_idx < bands.total_bins,
        in_zone(*cfg, *a, time),
        cfg.dt_max < TIME_LIMIT,
        slots == slot_count(*cfg),
        step == zone_width(*cfg) / slot_count(*cfg),
        step > 0,
    ensures
        t == target_of(*cfg, bands.table@, *a, time, *p),
        t.slot < slots,
{
    let dt: u64 = time - a.time_idx;
    let f2q: u16 = bands.band(p.freq_bin_idx);
    let d: u16 = abs_diff(f2q, a.f1q);
    let raw: i64 = p.prominence;
    let strong: u64 = if raw < 0 {
        0
    } else if raw > 60_000_000 {
        60_000_000
    } else {
        raw as u64
    };
    let s: usize = (dt as usize - cfg.dt_min) / step;
    assert(s == (dt - cfg.dt_min) / (step as int) && 0 <= s);
    Target {
        slot: if s < slots {
            s
        } else {
            slots - 1
        },
        score: 60_000_000 * (d as u64) + 128 * strong,
        f2q,
        dt: if dt < 255 {
            dt as u8
        } else {
            255
        },
    }
}

/// The best target of each slot.
fn best_slots(
    cfg: &LandmarkV2Config,
    bands: &BandTable,
    a: &PendingAnchor,
    frames: &VecDeque<HeldFrame>,
) -> (best: Vec<Option<Target>>)
    requires
        bands.wf(),
        held_ok(frames@, bands.total_bins as int),
        zone_fits(*cfg),
        a.time_idx <= TIME_LIMIT,
    ensures
        best.len() == slot_count(*cfg),
        forall|i: int|
            0 <= i < best.len() ==> #[trigger] best[i] == best_target(
                targets(*cfg, bands.table@, *a, lots(frames@)),
                i,
            ),
{
    let width: usize = if cfg.dt_max >= cfg.dt_min {
        cfg.dt_max - cfg.dt_min + 1
    } else {
        1
    };
    let slots: usize = if cfg.fanout == 0 {
        1
    } else if cfg.fanout <= width {
        cfg.fanout
    } else {
        width
    };
    let step: usize = width / slots;
    assert(step >= 1) by (nonlinear_arith)
        requires
            1 <= slots <= width,
            step == width / slots,
    ;
    let mut best: Vec<Option<Target>> = Vec::new();
    let mut i: usize = 0;
    while i < slots
        invariant
            i <= slots,
            best.len() == i,
            forall|k: int| 0 <= k < i ==> #[trigger] best[k] is None,
        decreases slots - i,
    {
        best.push(None);
        i = i + 1;
    }
    let lo: u64 = a.time_idx + cfg.dt_min as u64;
    let hi: u64 = a.time_idx + cfg.dt_max as u64;
    let mut n: usize = 0;
    let ghost all = lots(frames@);
    assert(all.take(0) =~= Seq::<PeakFrame>::empty());
    while n < frames.len()
        invariant
            bands.wf(),
            held_ok(frames@, bands.total_bins as int),
            cfg.dt_max < TIME_LIMIT,
            lo == a.time_idx + cfg.dt_min,
            hi == a.time_idx + cfg.dt_max,
            slots == slot_count(*cfg),
            step == zone_width(*cfg) / slot_count(*cfg),
            step > 0,
            n <= frames.len(),
            all == lots(frames@),
            best.len() == slots,
            forall|i: int|
                0 <= i < slots ==> #[trigger] best[i] == best_target(
                    targets(*cfg, bands.table@, *a, all.take(n as int)),
                    i,
                ),
        decreases frames.len() - n,
    {
        let ghost before = targets(*cfg, bands.table@, *a, all.take(n as int));
        proof {
            assert(all.take(n + 1).drop_last() =~= all.take(n as int));
            assert(all.take(n + 1).last() == all[n as int]);
        }
        let held = &frames[n];
        if lo <= held.time && held.time <= hi {
            let mut k: usize = 0;
            let ghost here = frame_targets(*cfg, bands.table@, *a, all[n as int]);
            assert(before + here.take(0) =~= before);
            assert(has_bands(held.peaks@, bands.total_bins as int));
            while k < held.peaks.len()
                invariant
                    bands.wf(),
                    has_bands(held.peaks@, bands.total_bins as int),
                    cfg.dt_max < TIME_LIMIT,
                    in_zone(*cfg, *a, held.time),
                    slots == slot_count(*cfg),
                    step == zone_width(*cfg) / slot_count(*cfg),
                    step > 0,
                    k <= held.peaks.len(),
                    here.len() == held.peaks.len(),
                    forall|j: int|
                        0 <= j < here.len() ==> #[trigger] here[j] == target_of(
                            *cfg,
                            bands.table@,
                            *a,
                            held.time,
                            held.peaks[j],
                        ),
                    best.len() == slots,
                    forall|i: int|
                        0 <= i < slots ==> #[trigger] best[i] == best_target(
                            before + here.take(k as int),
                            i,
                        ),
                decreases held.peaks.len() - k,
            {
                let t: Target = see_target(cfg, bands, a, held.time, &held.peaks[k], slots, step);
                proof {
                    assert(here[k as int] == t);
                    let longer = before + here.take(k + 1);
                    assert(longer.drop_last() =~= before + here.take(k as int));
                    assert(longer.last() == t);
                }
                let better: bool = match best[t.slot] {
                    Some(b) => t.score > b.score,
                    None => true,
                };
                if better {
                    best.set(t.slot, Some(t));
                }
                k = k + 1;
            }
            assert(here.take(k as int) =~= here);
        } else {
            assert(before + frame_targets(*cfg, bands.table@, *a, all[n as int]) =~= before);
        }
        n = n + 1;
    }
    assert(all.take(n as int) =~= all);
    best
}

/// Picks the best target of each slot and packs one fingerprint for each.
fn emit_for_anchor(
    cfg: &LandmarkV2Config,
    bands: &BandTable,
    a: &PendingAnchor,
    frames: &VecDeque<HeldFrame>,
    out: &mut Vec<Fingerprint32>,
)
    requires
        bands.wf(),
        held_ok(frames@, bands.total_bins as int),
        zone_fits(*cfg),
        a.time_idx <= TIME_LIMIT,
    ensures
        final(out)@ == old(out)@ + anchor_fingerprints(*cfg, bands.table@, *a, lots(frames@)),
{
    let best: Vec<Option<Target>> = best_slots(cfg, bands, a, frames);
    let ghost ts = targets(*cfg, bands.table@, *a, lots(frames@));
    let ghost start = out@;
    let mut i: usize = 0;
    assert(start + slot_fingerprints(*a, ts, 0) =~= start);
    while i < best.len()
        invariant
            i <= best.len(),
            forall|k: int| 0 <= k < best.len() ==> #[trigger] best[k] == best_target(ts, k),
            out@ == start + slot_fingerprints(*a, ts, i as int),
        decreases best.len() - i,
    {
        if let Some(t) = best[i] {
            let hash: u32 = pack_hash32(a.f1q, t.f2q, t.dt).0;
            out.push(Fingerprint32 { hash, anchor_time: trim_time(a.time_idx) });
        }
        i = i + 1;
        assert(out@ =~= start + slot_fingerprints(*a, ts, i as int));
    }
}

/// The low 32 bits.
#[verifier::truncate]
fn trim_time(t: u64) -> (r: u32)
    ensures
        r == t as u32,
{
    t as u32
}

/// Times of distinct frames spread out.
proof fn lemma_spread(history: Seq<PeakFrame>, from: int, bins: int)
    requires
        history_ok(history, bins),
        0 <= from < history.len(),
    ensures
        history.last().time >= history[from].time + (history.len() - 1 - from),
    decreases history.len() - from,
{
    if from + 1 < history.len() {
        lemma_spread(history, from + 1, bins);
        assert(history[from].time < history[from + 1].time);
    }
}

/// Streaming landmark fingerprinter.
///
/// Feed spectrogram frames in order; finished fingerprints come out in order
/// of their anchors. [`Self::finish`] after the last frame flushes the peak
/// detector's lookahead and finalizes the anchors near the end of the stream
/// with whatever target frames exist.
pub struct LandmarkStreamer {
    cfg: LandmarkV2Config,
    peaks: PeakStreamer,
    bands: BandTable,
    /// Peak frames that a pending anchor may still need.
    frames: VecDeque<HeldFrame>,
    /// Anchors whose target zone is not complete, in order.
    anchors: VecDeque<PendingAnchor>,
    /// Fingerprints finalized but not yet drained.
    pending: Vec<Fingerprint32>,
    /// Spectrogram frames seen.
    fed: u64,
    finished: bool,
    /// All peak frames so far.
    history: Ghost<Seq<PeakFrame>>,
    /// How many anchors are final.
    done: Ghost<int>,
    drained: Ghost<Seq<Fingerprint32>>,
}

impl LandmarkStreamer {
    /// The spectrogram frames so far.
    pub closed spec fn frames(&self) -> Seq<Seq<Cell>> {
        self.peaks.frames()
    }

    pub closed spec fn config(&self) -> LandmarkV2Config {
        self.cfg
    }

    /// Bins of a spectrogram frame.
    pub closed spec fn bins(&self) -> usize {
        self.bands.total_bins
    }

    /// Band of each bin.
    pub closed spec fn bands(&self) -> Seq<u16> {
        self.bands.table@
    }

    /// The fingerprints that were handed out.
    pub closed spec fn drained(&self) -> Seq<Fingerprint32> {
        self.drained@
    }

    /// The fingerprints that wait to be drained.
    pub closed spec fn waiting(&self) -> Seq<Fingerprint32> {
        self.pending@
    }

    /// All fingerprints that are final.
    pub open spec fn produced(&self) -> Seq<Fingerprint32> {
        self.drained() + self.waiting()
    }

    /// The stream has been closed.
    pub closed spec fn is_finished(&self) -> bool {
        self.finished
    }

    /// Peak frames and anchors that the streamer keeps.
    pub closed spec fn kept(&self) -> (nat, nat) {
        (self.frames@.len(), self.anchors@.len())
    }

    /// Deques, ghost history and fingerprints agree.
    spec fn in_step(&self) -> bool {
        let cut = self.history@.len() - self.frames@.len();
        let all = anchors(self.bands.table@, self.history@);
        &&& zone_fits(self.cfg)
        &&& self.bands.wf()
        &&& self.bands.bands == self.cfg.freq_bands
        &&& history_ok(self.history@, self.bands.total_bins as int)
        &&& cut >= 0
        &&& lots(self.frames@) == self.history@.skip(cut)
        &&& 0 <= self.done@ <= all.len()
        &&& self.anchors@ == all.skip(self.done@)
        &&& forall|k: int, j: int|
            #![trigger self.history@[k], self.anchors@[j]]
            0 <= k < cut && 0 <= j < self.anchors@.len() ==> self.history@[k].time
                < self.anchors@[j].time_idx + self.cfg.dt_min
        &&& self.drained@ + self.pending@ == fingerprints_upto(
            self.cfg,
            self.bands.table@,
            self.history@,
            self.done@,
        )
    }

    /// The final anchors have their whole zone behind them.
    spec fn settled(&self) -> bool {
        forall|k: int|
            0 <= k < self.done@ ==> (#[trigger] anchors(
                self.bands.table@,
                self.history@,
            )[k]).time_idx + self.cfg.dt_max <= last_time(self.history@)
    }

    /// The streamer agrees with the frames it has seen.
    pub closed spec fn wf(&self) -> bool {
        let log = self.peaks.frames();
        &&& self.in_step()
        &&& self.peaks.wf()
        &&& self.peaks.config() == self.cfg.peaks
        &&& self.peaks.bins() == self.bands.total_bins
        &&& self.bands.total_bins > 0
        &&& self.fed == log.len()
        &&& log.len() <= TIME_LIMIT
        &&& self.finished ==> self.history@ == stream_peaks(self.cfg.peaks, log) && self.done@
            == anchors(self.bands.table@, self.history@).len()
        &&& !self.finished ==> {
            &&& self.history@ == peak_frames(self.cfg.peaks, log, log.len() as int)
            &&& self.peaks.emitted() == if log.len() > self.cfg.peaks.time_radius {
                log.len() - self.cfg.peaks.time_radius
            } else {
                0
            }
            &&& self.history@.len() > 0 ==> self.history@.last().time < log.len()
            &&& self.done@ == if self.history@.len() == 0 {
                0
            } else {
                ready_count(
                    self.cfg,
                    anchors(self.bands.table@, self.history@),
                    last_time(self.history@),
                )
            }
            &&& self.frames@.len() <= self.cfg.dt_max
            &&& self.settled()
        }
    }

    /// The anchors that wait are bounded by the zone, whatever the length of
    /// the stream.
    proof fn lemma_few_anchors_wait(&self)
        requires
            self.wf(),
            !self.finished,
        ensures
            self.anchors@.len() <= self.cfg.dt_max * self.cfg.peaks.max_peaks_per_frame,
    {
        let log = self.peaks.frames();
        let (zone, cap) = (self.cfg.dt_max as int, self.cfg.peaks.max_peaks_per_frame as int);
        lemma_lots_are_capped(self.cfg.peaks, log, log.len() as int);
        lemma_few_wait(
            self.cfg,
            self.bands.table@,
            self.history@,
            self.bands.total_bins as int,
            last_time(self.history@),
        );
        assert(cap * zone == zone * cap && cap * 0 == 0 && 0 <= zone * cap) by (nonlinear_arith)
            requires
                zone >= 0,
                cap >= 0,
        ;
    }

    pub fn new(cfg: &LandmarkV2Config) -> (s: Self)
        requires
            zone_fits(*cfg),
            cfg.fft_window < 0x1000_0000_0000_0000,
        ensures
            s.wf(),
            s.config() == *cfg,
            s.bins() == cfg.fft_window / 2 + 1,
            s.frames().len() == 0,
            s.drained().len() == 0,
            s.waiting().len() == 0,
            !s.is_finished(),
            is_band_map(s.bands(), s.bins(), cfg.freq_bands),
    {
        let total_bins: usize = cfg.fft_window / 2 + 1;
        let s = LandmarkStreamer {
            cfg: *cfg,
            peaks: PeakStreamer::new(total_bins, cfg.peaks),
            bands: BandTable::new(total_bins, cfg.freq_bands),
            frames: VecDeque::new(),
            anchors: VecDeque::new(),
            pending: Vec::new(),
            fed: 0,
            finished: false,
            history: Ghost(Seq::empty()),
            done: Ghost(0),
            drained: Ghost(Seq::empty()),
        };
        proof {
            assert(lots(s.frames@) =~= s.history@.skip(0));
            assert(s.anchors@ =~= anchors(s.bands.table@, s.history@).skip(0));
            assert(s.drained@ + s.pending@ =~= Seq::<Fingerprint32>::empty());
        }
        s
    }

    /// Feeds one spectrogram frame. Finalized fingerprints pile up inside:
    /// drain them at any time, the result is the same.
    pub fn process_frame(&mut self, frame: &[Cell])
        requires
            old(self).wf(),
            !old(self).is_finished(),
            frame.len() == old(self).bins(),
            old(self).frames().len() < TIME_LIMIT,
        ensures
            final(self).wf(),
            final(self).config() == old(self).config(),
            final(self).bins() == old(self).bins(),
            final(self).bands() == old(self).bands(),
            final(self).drained() == old(self).drained(),
            !final(self).is_finished(),
            final(self).frames() == old(self).frames().push(frame@),
            final(self).produced() == finalized(
                old(self).config(),
                old(self).bands(),
                peak_frames(
                    old(self).config().peaks,
                    final(self).frames(),
                    final(self).frames().len() as int,
                ),
            ),
            final(self).kept().0 <= old(self).config().dt_max,
            final(self).kept().1 <= old(self).config().dt_max * old(
                self,
            ).config().peaks.max_peaks_per_frame,
    {
        let ghost log = self.peaks.frames().push(frame@);
        let ghost n = log.len() as int;
        let ghost t = self.peaks.emitted() as int;
        let mut lot: Vec<Peak> = Vec::new();
        self.peaks.process_frame(frame, &mut lot);
        let label: u64 = self.fed;
        self.fed = self.fed + 1;
        proof {
            lemma_peak_frames_push(self.cfg.peaks, old(self).peaks.frames(), frame@, n - 1);
            assert(log.take(n) =~= log);
            self.peaks.lemma_uniform();
            if n > self.cfg.peaks.time_radius {
                assert(t == n - 1 - self.cfg.peaks.time_radius);
                lemma_peak_bins(self.cfg.peaks, log, t);
            }
        }
        if lot.len() > 0 {
            self.ingest_frame(label, lot);
        }
        proof {
            self.lemma_few_anchors_wait();
        }
    }

    /// Ends the stream: flushes the peaks still undecided and finalizes
    /// every anchor left, with the target frames there are.
    pub fn finish(&mut self)
        requires
            old(self).wf(),
            !old(self).is_finished(),
        ensures
            final(self).wf(),
            final(self).config() == old(self).config(),
            final(self).bins() == old(self).bins(),
            final(self).bands() == old(self).bands(),
            final(self).frames() == old(self).frames(),
            final(self).drained() == old(self).drained(),
            final(self).is_finished(),
            final(self).produced() == stream_fingerprints(
                old(self).config(),
                old(self).bands(),
                old(self).frames(),
            ),
            final(self).kept() == (0nat, 0nat),
    {
        let ghost log = self.peaks.frames();
        let ghost n = log.len() as int;
        let ghost from = self.peaks.emitted() as int;
        let mut lot: Vec<Peak> = Vec::new();
        proof {
            self.peaks.lemma_uniform();
            lemma_range_bins(self.cfg.peaks, log, from, n, self.bands.total_bins as int);
        }
        self.peaks.finish(&mut lot);
        if lot.len() > 0 {
            let label: u64 = self.fed;
            self.ingest_frame(label, lot);
        }
        assert(self.history@ == stream_peaks(self.cfg.peaks, log));
        while self.anchors.len() > 0
            invariant
                self.in_step(),
                self.cfg == old(self).cfg,
                self.bands == old(self).bands,
                self.peaks.wf(),
                self.peaks.config() == old(self).peaks.config(),
                self.peaks.bins() == old(self).peaks.bins(),
                self.peaks.frames() == log,
                self.fed == old(self).fed,
                self.drained == old(self).drained,
                self.history@ == stream_peaks(self.cfg.peaks, log),
            decreases self.anchors@.len(),
        {
            self.emit_front();
        }
        self.frames.clear();
        self.finished = true;
        proof {
            assert(lots(self.frames@) =~= self.history@.skip(self.history@.len() as int));
        }
    }

    /// Moves all finalized fingerprints to the end of `out`.
    pub fn drain_into(&mut self, out: &mut Vec<Fingerprint32>)
        requires
            old(self).wf(),
        ensures
            final(self).wf(),
            final(self).config() == old(self).config(),
            final(self).bins() == old(self).bins(),
            final(self).bands() == old(self).bands(),
            final(self).frames() == old(self).frames(),
            final(self).is_finished() == old(self).is_finished(),
            final(self).kept() == old(self).kept(),
            final(out)@ == old(out)@ + old(self).waiting(),
            final(self).waiting().len() == 0,
            final(self).drained() == old(self).drained() + old(self).waiting(),
            final(self).produced() == old(self).produced(),
    {
        proof {
            self.drained@ = self.drained@ + self.pending@;
        }
        out.append(&mut self.pending);
        assert(self.drained@ + self.pending@ =~= old(self).drained@ + old(self).pending@);
    }

    /// Finalizes the first pending anchor.
    fn emit_front(&mut self)
        requires
            old(self).in_step(),
            old(self).anchors@.len() > 0,
        ensures
            final(self).in_step(),
            final(self).cfg == old(self).cfg,
            final(self).peaks == old(self).peaks,
            final(self).bands == old(self).bands,
            final(self).fed == old(self).fed,
            final(self).finished == old(self).finished,
            final(self).drained == old(self).drained,
            final(self).history == old(self).history,
            final(self).frames == old(self).frames,
            final(self).done@ == old(self).done@ + 1,
    {
        let ghost history = self.history@;
        let ghost cut = history.len() - self.frames@.len();
        let ghost all = anchors(self.bands.table@, history);
        let a: PendingAnchor = self.anchors[0];
        proof {
            assert(a == all[self.done@]);
            assert forall|k: int| 0 <= k < history.len() implies (#[trigger] history[k]).time
                <= TIME_LIMIT by {}
            lemma_anchor_times(self.bands.table@, history, TIME_LIMIT as int);
            let dropped = history.take(cut);
            assert(history =~= dropped + history.skip(cut));
            assert forall|k: int| 0 <= k < dropped.len() implies !in_zone(
                self.cfg,
                a,
                (#[trigger] dropped[k]).time,
            ) by {
                assert(history[k].time < self.anchors@[0].time_idx + self.cfg.dt_min);
            }
            lemma_targets_outside(self.cfg, self.bands.table@, a, dropped);
            lemma_targets_concat(self.cfg, self.bands.table@, a, dropped, history.skip(cut));
            assert(targets(self.cfg, self.bands.table@, a, history) =~= targets(
                self.cfg,
                self.bands.table@,
                a,
                lots(self.frames@),
            ));
            assert forall|i: int| 0 <= i < self.frames@.len() implies has_bands(
                (#[trigger] self.frames@[i]).peaks@,
                self.bands.total_bins as int,
            ) by {
                assert(lots(self.frames@)[i] == history[cut + i]);
            }
        }
        emit_for_anchor(&self.cfg, &self.bands, &a, &self.frames, &mut self.pending);
        self.anchors.pop_front();
        proof {
            self.done@ = self.done@ + 1;
            assert(self.anchors@ =~= all.skip(self.done@));
            assert(self.drained@ + self.pending@ =~= fingerprints_upto(
                self.cfg,
                self.bands.table@,
                history,
                self.done@,
            ));
            assert forall|k: int, j: int|
                #![trigger self.history@[k], self.anchors@[j]]
                0 <= k < cut && 0 <= j < self.anchors@.len() implies self.history@[k].time
                < self.anchors@[j].time_idx + self.cfg.dt_min by {
                assert(self.anchors@[j] == old(self).anchors@[j + 1]);
                assert(old(self).history@[k] == history[k]);
            }
        }
    }

    /// Opens the anchors of a new lot of peaks, and holds it.
    fn take_in(&mut self, time: u64, peaks: Vec<Peak>)
        requires
            old(self).in_step(),
            old(self).settled(),
            time <= TIME_LIMIT,
            old(self).history@.len() > 0 ==> old(self).history@.last().time < time,
            has_bands(peaks@, old(self).bands.total_bins as int),
        ensures
            final(self).in_step(),
            final(self).settled(),
            final(self).cfg == old(self).cfg,
            final(self).peaks == old(self).peaks,
            final(self).bands == old(self).bands,
            final(self).fed == old(self).fed,
            final(self).finished == old(self).finished,
            final(self).drained == old(self).drained,
            final(self).done == old(self).done,
            final(self).history@ == old(self).history@.push(PeakFrame { time, peaks: peaks@ }),
    {
        let ghost history = self.history@;
        let ghost f = PeakFrame { time, peaks: peaks@ };
        let ghost bands = self.bands.table@;
        let ghost start = self.anchors@;
        let ghost new = frame_anchors(bands, f);
        let mut k: usize = 0;
        assert(start + new.take(0) =~= start);
        while k < peaks.len()
            invariant
                k <= peaks.len(),
                self.bands.wf(),
                has_bands(peaks@, self.bands.total_bins as int),
                bands == self.bands.table@,
                f == (PeakFrame { time, peaks: peaks@ }),
                new == frame_anchors(bands, f),
                self.anchors@ == start + new.take(k as int),
                self.cfg == old(self).cfg,
                self.peaks == old(self).peaks,
                self.bands == old(self).bands,
                self.fed == old(self).fed,
                self.finished == old(self).finished,
                self.drained == old(self).drained,
                self.pending == old(self).pending,
                self.frames == old(self).frames,
                self.done == old(self).done,
                self.history == old(self).history,
            decreases peaks.len() - k,
        {
            let f1q: u16 = self.bands.band(peaks[k].freq_bin_idx);
            self.anchors.push_back(PendingAnchor { time_idx: time, f1q });
            k = k + 1;
            assert(self.anchors@ =~= start + new.take(k as int)) by {
                assert(new[k - 1] == (PendingAnchor { time_idx: time, f1q }));
            }
        }
        assert(new.take(k as int) =~= new);
        let ghost cut = history.len() - self.frames@.len();
        self.frames.push_back(HeldFrame { time, peaks });
        proof {
            self.history@ = history.push(f);
            let all = anchors(bands, history);
            lemma_anchors_push(bands, history, f);
            assert(self.anchors@ =~= (all + new).skip(self.done@));
            assert(lots(self.frames@) =~= self.history@.skip(cut)) by {
                assert(self.history@.skip(cut) =~= history.skip(cut).push(f));
                assert(lots(self.frames@) =~= lots(old(self).frames@).push(f));
            }
            assert forall|k: int| 0 <= k < self.done@ implies f.time > (
            #[trigger] all[k]).time_idx + self.cfg.dt_max by {
                assert(history.len() > 0);
            }
            lemma_finalized_stays(self.cfg, bands, history, f, self.done@);
            assert forall|k: int, j: int|
                #![trigger self.history@[k], self.anchors@[j]]
                0 <= k < cut && 0 <= j < self.anchors@.len() implies self.history@[k].time
                < self.anchors@[j].time_idx + self.cfg.dt_min by {
                assert(self.history@[k] == history[k]);
                if j < start.len() {
                    assert(self.anchors@[j] == start[j]);
                } else {
                    assert(self.anchors@[j] == new[j - start.len()]);
                    assert(history[k].time <= history.last().time);
                }
            }
            assert(history_ok(self.history@, self.bands.total_bins as int)) by {
                let h = self.history@;
                assert forall|i: int, j: int|
                    #![trigger h[i], h[j]]
                    0 <= i < j < h.len() implies h[i].time < h[j].time by {
                    assert(h[i] == history[i]);
                    if j < history.len() {
                        assert(h[j] == history[j]);
                    } else {
                        assert(history[i].time <= history.last().time);
                    }
                }
                assert forall|i: int| 0 <= i < h.len() implies has_bands(
                    (#[trigger] h[i]).peaks,
                    self.bands.total_bins as int,
                ) by {
                    if i < history.len() {
                        assert(h[i] == history[i]);
                    }
                }
                assert forall|i: int| 0 <= i < h.len() implies (#[trigger] h[i]).time
                    <= TIME_LIMIT by {
                    if i < history.len() {
                        assert(h[i] == history[i]);
                    }
                }
            }
            assert forall|k: int| 0 <= k < self.done@ implies (#[trigger] anchors(
                self.bands.table@,
                self.history@,
            )[k]).time_idx + self.cfg.dt_max <= last_time(self.history@) by {
                assert(anchors(bands, self.history@)[k] == all[k]);
            }
        }
    }

    /// Registers a lot of peaks, opens new anchors, and finalizes every
    /// anchor whose target zone is now behind.
    fn ingest_frame(&mut self, time: u64, peaks: Vec<Peak>)
        requires
            old(self).in_step(),
            old(self).settled(),
            time <= TIME_LIMIT,
            old(self).history@.len() > 0 ==> old(self).history@.last().time < time,
            has_bands(peaks@, old(self).bands.total_bins as int),
        ensures
            final(self).in_step(),
            final(self).settled(),
            final(self).cfg == old(self).cfg,
            final(self).peaks == old(self).peaks,
            final(self).bands == old(self).bands,
            final(self).fed == old(self).fed,
            final(self).finished == old(self).finished,
            final(self).drained == old(self).drained,
            final(self).history@ == old(self).history@.push(PeakFrame { time, peaks: peaks@ }),
            final(self).done@ == ready_count(
                final(self).cfg,
                anchors(final(self).bands.table@, final(self).history@),
                time as int,
            ),
            final(self).frames@.len() <= final(self).cfg.dt_max,
    {
        self.take_in(time, peaks);
        let ghost history = self.history@;
        let ghost all = anchors(self.bands.table@, history);
        proof {
            lemma_anchor_times(self.bands.table@, history, TIME_LIMIT as int);
        }
        while self.anchors.len() > 0 && self.anchors[0].time_idx + self.cfg.dt_max as u64 <= time
            invariant
                self.in_step(),
                self.settled(),
                time <= TIME_LIMIT,
                self.cfg == old(self).cfg,
                self.peaks == old(self).peaks,
                self.bands == old(self).bands,
                self.fed == old(self).fed,
                self.finished == old(self).finished,
                self.drained == old(self).drained,
                history == self.history@,
                history.len() > 0,
                last_time(history) == time,
                all == anchors(self.bands.table@, history),
                forall|k: int| 0 <= k < all.len() ==> (#[trigger] all[k]).time_idx <= TIME_LIMIT,
                forall|k: int|
                    0 <= k < self.anchors@.len() ==> (#[trigger] self.anchors@[k]).time_idx
                        <= TIME_LIMIT,
            decreases self.anchors@.len(),
        {
            assert(self.anchors@[0] == all[self.done@]);
            let ghost before = self.done@;
            self.emit_front();
            assert forall|k: int| 0 <= k < self.done@ implies (#[trigger] all[k]).time_idx
                + self.cfg.dt_max <= last_time(self.history@) by {
                if k < before {
                    assert(anchors(self.bands.table@, history)[k].time_idx + self.cfg.dt_max
                        <= time);
                }
            }
            assert forall|k: int| 0 <= k < self.anchors@.len() implies (
            #[trigger] self.anchors@[k]).time_idx <= TIME_LIMIT by {
                assert(self.anchors@[k] == all[self.done@ + k]);
            }
        }
        proof {
            if self.anchors@.len() > 0 {
                assert(self.anchors@[0] == all[self.done@]);
            }
            lemma_ready_count(self.cfg, all, time as int, self.done@);
        }
        self.drop_frames();
        proof {
            let cut = history.len() - self.frames@.len();
            if self.frames@.len() > 0 {
                assert(lots(self.frames@)[0] == history[cut]);
                lemma_spread(history, cut, self.bands.total_bins as int);
            }
        }
    }

    /// Drops the frames that no pending or future anchor can reach.
    fn drop_frames(&mut self)
        requires
            old(self).in_step(),
        ensures
            final(self).in_step(),
            final(self).cfg == old(self).cfg,
            final(self).peaks == old(self).peaks,
            final(self).bands == old(self).bands,
            final(self).fed == old(self).fed,
            final(self).finished == old(self).finished,
            final(self).drained == old(self).drained,
            final(self).pending == old(self).pending,
            final(self).history == old(self).history,
            final(self).done == old(self).done,
            final(self).anchors@.len() == 0 ==> final(self).frames@.len() == 0,
            final(self).anchors@.len() > 0 && final(self).frames@.len() > 0
                ==> final(self).frames@[0].time >= final(self).anchors@[0].time_idx + old(
                self,
            ).cfg.dt_min,
    {
        if self.anchors.len() == 0 {
            self.frames.clear();
            assert(lots(self.frames@) =~= self.history@.skip(self.history@.len() as int));
            return;
        }
        let ghost history = self.history@;
        let ghost all = anchors(self.bands.table@, history);
        proof {
            assert(self.anchors@[0] == all[self.done@]);
            lemma_anchor_times(self.bands.table@, history, TIME_LIMIT as int);
            lemma_anchors_ascend(self.bands.table@, history, self.bands.total_bins as int);
        }
        let horizon: u64 = self.anchors[0].time_idx + self.cfg.dt_min as u64;
        while self.frames.len() > 0 && self.frames[0].time < horizon
            invariant
                self.in_step(),
                self.cfg == old(self).cfg,
                self.peaks == old(self).peaks,
                self.bands == old(self).bands,
                self.fed == old(self).fed,
                self.finished == old(self).finished,
                self.drained == old(self).drained,
                self.pending == old(self).pending,
                self.history == old(self).history,
                self.done == old(self).done,
                self.anchors@.len() > 0,
                history == self.history@,
                all == anchors(self.bands.table@, history),
                horizon == self.anchors@[0].time_idx + self.cfg.dt_min,
                forall|i: int, j: int|
                    #![trigger all[i], all[j]]
                    0 <= i <= j < all.len() ==> all[i].time_idx <= all[j].time_idx,
            decreases self.frames@.len(),
        {
            let ghost cut = history.len() - self.frames@.len();
            let ghost before = self.frames@;
            assert(lots(before)[0] == history[cut]);
            self.frames.pop_front();
            proof {
                assert(lots(self.frames@) =~= history.skip(cut + 1)) by {
                    assert forall|i: int| 0 <= i < self.frames@.len() implies lots(
                        self.frames@,
                    )[i] == history.skip(cut + 1)[i] by {
                        assert(self.frames@[i] == before[i + 1]);
                        assert(lots(before)[i + 1] == history.skip(cut)[i + 1]);
                    }
                }
                assert forall|k: int, j: int|
                    #![trigger self.history@[k], self.anchors@[j]]
                    0 <= k < cut + 1 && 0 <= j < self.anchors@.len() implies self.history@[k].time
                    < self.anchors@[j].time_idx + self.cfg.dt_min by {
                    if k == cut {
                        assert(self.anchors@[0] == all[self.done@]);
                        assert(self.anchors@[j] == all[self.done@ + j]);
                    }
                }
            }
        }
    }
}

/// The bands of a spectrum, one for each bin.
pub open spec fn is_band_map(bands: Seq<u16>, total_bins: usize, freq_bands: u16) -> bool {
    &&& bands.len() == total_bins
    &&& forall|b: int|
        0 <= b < total_bins ==> is_band(b as usize, total_bins, freq_bands, #[trigger] bands[b])
}

/// Fingerprints a whole spectrogram in one pass.
pub fn fingerprint(frames: &[Vec<Cell>], cfg: &LandmarkV2Config) -> (out: Vec<Fingerprint32>)
    requires
        zone_fits(*cfg),
        cfg.fft_window < 0x1000_0000_0000_0000,
        frames.len() <= TIME_LIMIT,
        forall|t: int|
            0 <= t < frames.len() ==> (#[trigger] frames[t]).len() == cfg.fft_window / 2 + 1,
    ensures
        exists|bands: Seq<u16>|
            #[trigger] is_band_map(bands, (cfg.fft_window / 2 + 1) as usize, cfg.freq_bands)
                && out@ == stream_fingerprints(*cfg, bands, frames_of(frames@)),
{
    let mut s = LandmarkStreamer::new(cfg);
    let ghost log = frames_of(frames@);
    let mut t: usize = 0;
    assert(log.take(0) =~= Seq::<Seq<Cell>>::empty());
    while t < frames.len()
        invariant
            t <= frames.len(),
            frames.len() <= TIME_LIMIT,
            log == frames_of(frames@),
            forall|k: int|
                0 <= k < frames.len() ==> (#[trigger] frames[k]).len() == cfg.fft_window / 2 + 1,
            s.wf(),
            !s.is_finished(),
            s.config() == *cfg,
            s.bins() == cfg.fft_window / 2 + 1,
            is_band_map(s.bands(), s.bins(), cfg.freq_bands),
            s.frames() == log.take(t as int),
            s.drained().len() == 0,
        decreases frames.len() - t,
    {
        s.process_frame(frames[t].as_slice());
        t = t + 1;
        assert(s.frames() =~= log.take(t as int));
    }
    assert(log.take(t as int) =~= log);
    s.finish();
    let mut out: Vec<Fingerprint32> = Vec::new();
    s.drain_into(&mut out);
    proof {
        assert(out@ =~= s.drained());
        assert(s.produced() =~= s.drained());
        assert(is_band_map(s.bands(), (cfg.fft_window / 2 + 1) as usize, cfg.freq_bands));
    }
    out
}

/// The bands of a spectrum are determined by its size and their number.
pub proof fn law_band_maps_agree(a: Seq<u16>, b: Seq<u16>, total_bins: usize, freq_bands: u16)
    requires
        is_band_map(a, total_bins, freq_bands),
        is_band_map(b, total_bins, freq_bands),
    ensures
        a == b,
{
    assert forall|i: int| 0 <= i < total_bins implies a[i] == b[i] by {
        law_band_is_unique(i as usize, total_bins, freq_bands, a[i], b[i]);
    }
    assert(a =~= b);
}

/// The peaks of both stand in the same bins with the same prominence.
spec fn same_places(a: Seq<Peak>, b: Seq<Peak>) -> bool {
    &&& a.len() == b.len()
    &&& forall|i: int|
        0 <= i < a.len() ==> (#[trigger] a[i]).freq_bin_idx == b[i].freq_bin_idx && a[i].prominence
            == b[i].prominence
}

spec fn same_lots(a: Seq<PeakFrame>, b: Seq<PeakFrame>) -> bool {
    &&& a.len() == b.len()
    &&& forall|i: int|
        0 <= i < a.len() ==> (#[trigger] a[i]).time == b[i].time && same_places(
            a[i].peaks,
            b[i].peaks,
        )
}

proof fn lemma_same_targets(
    cfg: LandmarkV2Config,
    bands: Seq<u16>,
    at: PendingAnchor,
    a: Seq<PeakFrame>,
    b: Seq<PeakFrame>,
)
    requires
        same_lots(a, b),
    ensures
        targets(cfg, bands, at, a) == targets(cfg, bands, at, b),
    decreases a.len(),
{
    if a.len() > 0 {
        let n = a.len() - 1;
        assert(same_lots(a.drop_last(), b.drop_last())) by {
            assert forall|i: int| 0 <= i < n implies (#[trigger] a.drop_last()[i]).time
                == b.drop_last()[i].time && same_places(
                a.drop_last()[i].peaks,
                b.drop_last()[i].peaks,
            ) by {
                assert(a[i].time == b[i].time);
            }
        }
        lemma_same_targets(cfg, bands, at, a.drop_last(), b.drop_last());
        assert(a[n].time == b[n].time);
        assert(frame_targets(cfg, bands, at, a[n]) =~= frame_targets(cfg, bands, at, b[n]));
    }
}

proof fn lemma_same_anchors(bands: Seq<u16>, a: Seq<PeakFrame>, b: Seq<PeakFrame>)
    requires
        same_lots(a, b),
    ensures
        anchors(bands, a) == anchors(bands, b),
    decreases a.len(),
{
    if a.len() > 0 {
        let n = a.len() - 1;
        assert(same_lots(a.drop_last(), b.drop_last())) by {
            assert forall|i: int| 0 <= i < n implies (#[trigger] a.drop_last()[i]).time
                == b.drop_last()[i].time && same_places(
                a.drop_last()[i].peaks,
                b.drop_last()[i].peaks,
            ) by {
                assert(a[i].time == b[i].time);
            }
        }
        lemma_same_anchors(bands, a.drop_last(), b.drop_last());
        assert(a[n].time == b[n].time);
        assert(frame_anchors(bands, a[n]) =~= frame_anchors(bands, b[n]));
    }
}

proof fn lemma_same_landmarks(
    cfg: LandmarkV2Config,
    bands: Seq<u16>,
    a: Seq<PeakFrame>,
    b: Seq<PeakFrame>,
    n: int,
)
    requires
        same_lots(a, b),
    ensures
        fingerprints_upto(cfg, bands, a, n) == fingerprints_upto(cfg, bands, b, n),
    decreases n,
{
    if n > 0 {
        lemma_same_landmarks(cfg, bands, a, b, n - 1);
        lemma_same_anchors(bands, a, b);
        lemma_same_targets(cfg, bands, anchors(bands, a)[n - 1], a, b);
    }
}

proof fn lemma_amplified_take(log: Seq<Seq<Cell>>, f: spec_fn(i32) -> i32, gain: int, n: int)
    requires
        0 <= n <= log.len(),
    ensures
        amplified(log, f, gain).take(n) == amplified(log.take(n), f, gain),
{
    assert(amplified(log, f, gain).take(n) =~= amplified(log.take(n), f, gain));
}

/// What the gain law asks of a recording.
pub open spec fn gain_ok(log: Seq<Seq<Cell>>, f: spec_fn(i32) -> i32, gain: int, bins: int) -> bool {
    &&& uniform(log, bins)
    &&& 0 < bins <= usize::MAX
    &&& keeps_order(f)
    &&& forall|k: int| 0 <= k < log.len() ==> gain_fits(#[trigger] log[k], gain)
}

proof fn lemma_decided_same(
    cfg: PeaksV2Config,
    log: Seq<Seq<Cell>>,
    f: spec_fn(i32) -> i32,
    gain: int,
    bins: int,
    t: int,
)
    requires
        cfg.absolute_floor == i64::MIN,
        gain_ok(log, f, gain, bins),
        0 <= t < log.len(),
    ensures
        same_places(decided(cfg, amplified(log, f, gain), t), decided(cfg, log, t)),
{
    assert(log[t].len() == bins);
    law_peaks_ignore_gain(cfg, log, f, gain, t);
}

proof fn lemma_gain_take(log: Seq<Seq<Cell>>, f: spec_fn(i32) -> i32, gain: int, bins: int, n: int)
    requires
        gain_ok(log, f, gain, bins),
        0 <= n <= log.len(),
    ensures
        gain_ok(log.take(n), f, gain, bins),
{
    let t = log.take(n);
    assert forall|k: int| 0 <= k < t.len() implies (#[trigger] t[k]).len() == bins by {
        assert(t[k] == log[k]);
    }
    assert forall|k: int| 0 <= k < t.len() implies gain_fits(#[trigger] t[k], gain) by {
        assert(t[k] == log[k]);
    }
}

proof fn lemma_peak_frames_same(
    cfg: PeaksV2Config,
    log: Seq<Seq<Cell>>,
    f: spec_fn(i32) -> i32,
    gain: int,
    bins: int,
    n: int,
)
    requires
        cfg.absolute_floor == i64::MIN,
        gain_ok(log, f, gain, bins),
        n <= log.len(),
    ensures
        same_lots(peak_frames(cfg, amplified(log, f, gain), n), peak_frames(cfg, log, n)),
    decreases n,
{
    if n > 0 {
        lemma_peak_frames_same(cfg, log, f, gain, bins, n - 1);
        if n > cfg.time_radius {
            lemma_gain_take(log, f, gain, bins, n);
            lemma_amplified_take(log, f, gain, n);
            lemma_decided_same(cfg, log.take(n), f, gain, bins, n - 1 - cfg.time_radius);
        }
    }
}

proof fn lemma_range_same(
    cfg: PeaksV2Config,
    log: Seq<Seq<Cell>>,
    f: spec_fn(i32) -> i32,
    gain: int,
    bins: int,
    from: int,
    to: int,
)
    requires
        cfg.absolute_floor == i64::MIN,
        gain_ok(log, f, gain, bins),
        0 <= from,
        to <= log.len(),
    ensures
        same_places(
            decided_range(cfg, amplified(log, f, gain), from, to),
            decided_range(cfg, log, from, to),
        ),
    decreases to - from,
{
    if from < to {
        lemma_range_same(cfg, log, f, gain, bins, from, to - 1);
        lemma_decided_same(cfg, log, f, gain, bins, to - 1);
        let a = decided_range(cfg, amplified(log, f, gain), from, to - 1);
        let b = decided_range(cfg, log, from, to - 1);
        let x = decided(cfg, amplified(log, f, gain), to - 1);
        let y = decided(cfg, log, to - 1);
        assert forall|i: int| 0 <= i < (a + x).len() implies (#[trigger] (a + x)[i]).freq_bin_idx
            == (b + y)[i].freq_bin_idx && (a + x)[i].prominence == (b + y)[i].prominence by {
            if i < a.len() {
                assert(a[i].freq_bin_idx == b[i].freq_bin_idx);
            } else {
                assert(x[i - a.len()].freq_bin_idx == y[i - a.len()].freq_bin_idx);
            }
        }
    }
}

/// Loudness does not matter: an amplified recording has the same
/// fingerprints, as long as no absolute floor is set and every level still
/// fits.
pub proof fn law_fingerprints_ignore_gain(
    cfg: LandmarkV2Config,
    bands: Seq<u16>,
    log: Seq<Seq<Cell>>,
    f: spec_fn(i32) -> i32,
    gain: int,
    bins: int,
)
    requires
        cfg.peaks.absolute_floor == i64::MIN,
        gain_ok(log, f, gain, bins),
    ensures
        stream_fingerprints(cfg, bands, amplified(log, f, gain)) == stream_fingerprints(
            cfg,
            bands,
            log,
        ),
{
    let n = log.len() as int;
    let from = if n > cfg.peaks.time_radius {
        n - cfg.peaks.time_radius
    } else {
        0
    };
    let loud = amplified(log, f, gain);
    lemma_peak_frames_same(cfg.peaks, log, f, gain, bins, n);
    lemma_range_same(cfg.peaks, log, f, gain, bins, from, n);
    let a = stream_peaks(cfg.peaks, loud);
    let b = stream_peaks(cfg.peaks, log);
    assert(same_lots(a, b));
    lemma_same_anchors(bands, a, b);
    lemma_same_landmarks(cfg, bands, a, b, anchors(bands, a).len() as int);
}

proof fn lemma_flat_frame(cfg: PeaksV2Config, log: Seq<Seq<Cell>>, t: int, upto: int)
    requires
        cfg.min_prominence > 0,
        0 <= t < log.len(),
        is_flat(log[t]),
        upto <= log[t].len(),
    ensures
        candidates(cfg, log, t, upto).len() == 0,
    decreases upto,
{
    if upto > 0 {
        lemma_flat_frame(cfg, log, t, upto - 1);
        lemma_flat_floor(log[t], upto - 1);
    }
}

/// All cells have one level.
pub open spec fn is_flat(frame: Seq<Cell>) -> bool {
    forall|i: int, j: int|
        0 <= i < frame.len() && 0 <= j < frame.len() ==> (#[trigger] frame[i]).level == (
        #[trigger] frame[j]).level
}

proof fn lemma_flat_decided(cfg: PeaksV2Config, log: Seq<Seq<Cell>>, t: int)
    requires
        cfg.min_prominence > 0,
        0 <= t < log.len(),
        is_flat(log[t]),
    ensures
        decided(cfg, log, t).len() == 0,
{
    lemma_flat_frame(cfg, log, t, log[t].len() as int);
    reveal(Seq::filter);
}

proof fn lemma_flat_range(cfg: PeaksV2Config, log: Seq<Seq<Cell>>, from: int, to: int)
    requires
        cfg.min_prominence > 0,
        forall|k: int| 0 <= k < log.len() ==> is_flat(#[trigger] log[k]),
        0 <= from,
        to <= log.len(),
    ensures
        decided_range(cfg, log, from, to).len() == 0,
    decreases to - from,
{
    if from < to {
        lemma_flat_range(cfg, log, from, to - 1);
        lemma_flat_decided(cfg, log, to - 1);
    }
}

proof fn lemma_flat_peak_frames(cfg: PeaksV2Config, log: Seq<Seq<Cell>>, n: int)
    requires
        cfg.min_prominence > 0,
        forall|k: int| 0 <= k < log.len() ==> is_flat(#[trigger] log[k]),
        n <= log.len(),
    ensures
        peak_frames(cfg, log, n).len() == 0,
    decreases n,
{
    if n > 0 {
        lemma_flat_peak_frames(cfg, log, n - 1);
        if n > cfg.time_radius {
            let t = n - 1 - cfg.time_radius;
            assert(log.take(n)[t] == log[t]);
            lemma_flat_decided(cfg, log.take(n), t);
        }
    }
}

/// Silence has no fingerprints: where every frame is level, nothing stands
/// out of it.
pub proof fn law_silence_yields_nothing(
    cfg: LandmarkV2Config,
    bands: Seq<u16>,
    log: Seq<Seq<Cell>>,
)
    requires
        cfg.peaks.min_prominence > 0,
        forall|k: int| 0 <= k < log.len() ==> is_flat(#[trigger] log[k]),
    ensures
        stream_fingerprints(cfg, bands, log).len() == 0,
{
    let n = log.len() as int;
    lemma_flat_peak_frames(cfg.peaks, log, n);
    let from = if n > cfg.peaks.time_radius {
        n - cfg.peaks.time_radius
    } else {
        0
    };
    lemma_flat_range(cfg.peaks, log, from, n);
}

/// A time distance as a hash holds it.
pub open spec fn clipped(dt: int) -> int {
    if dt < 255 {
        dt
    } else {
        255
    }
}

spec fn dt_in_zone(cfg: LandmarkV2Config, dt: u8) -> bool {
    clipped(cfg.dt_min as int) <= dt <= clipped(cfg.dt_max as int)
}

proof fn lemma_target_zone(
    cfg: LandmarkV2Config,
    bands: Seq<u16>,
    a: PendingAnchor,
    frames: Seq<PeakFrame>,
)
    ensures
        forall|i: int|
            0 <= i < targets(cfg, bands, a, frames).len() ==> dt_in_zone(
                cfg,
                (#[trigger] targets(cfg, bands, a, frames)[i]).dt,
            ),
    decreases frames.len(),
{
    if frames.len() > 0 {
        let rest = targets(cfg, bands, a, frames.drop_last());
        let all = targets(cfg, bands, a, frames);
        lemma_target_zone(cfg, bands, a, frames.drop_last());
        assert forall|i: int| 0 <= i < all.len() implies dt_in_zone(cfg, (#[trigger] all[i]).dt) by {
            if i < rest.len() {
                assert(all[i] == rest[i]);
            }
        }
    }
}

proof fn lemma_best_is_a_target(ts: Seq<Target>, slot: int)
    ensures
        best_target(ts, slot) matches Some(t) ==> ts.contains(t),
    decreases ts.len(),
{
    if ts.len() > 0 {
        lemma_best_is_a_target(ts.drop_last(), slot);
        if let Some(t) = best_target(ts, slot) {
            if t == ts.last() {
                assert(ts[ts.len() - 1] == t);
            } else {
                let i = ts.drop_last().index_of(t);
                assert(ts[i] == t);
            }
        }
    }
}

spec fn hash_in_zone(cfg: LandmarkV2Config, hash: u32) -> bool {
    clipped(cfg.dt_min as int) <= hash % 256 <= clipped(cfg.dt_max as int)
}

proof fn lemma_slots_zone(cfg: LandmarkV2Config, a: PendingAnchor, ts: Seq<Target>, slots: int)
    requires
        forall|i: int| 0 <= i < ts.len() ==> dt_in_zone(cfg, (#[trigger] ts[i]).dt),
    ensures
        forall|i: int|
            0 <= i < slot_fingerprints(a, ts, slots).len() ==> hash_in_zone(
                cfg,
                (#[trigger] slot_fingerprints(a, ts, slots)[i]).hash,
            ),
        slot_fingerprints(a, ts, slots).len() <= if slots > 0 {
            slots
        } else {
            0
        },
    decreases slots,
{
    if slots > 0 {
        lemma_slots_zone(cfg, a, ts, slots - 1);
        lemma_best_is_a_target(ts, slots - 1);
        let rest = slot_fingerprints(a, ts, slots - 1);
        let all = slot_fingerprints(a, ts, slots);
        assert forall|i: int| 0 <= i < all.len() implies hash_in_zone(
            cfg,
            (#[trigger] all[i]).hash,
        ) by {
            if i < rest.len() {
                assert(all[i] == rest[i]);
            } else {
                let t = best_target(ts, slots - 1)->0;
                let k = ts.index_of(t);
                assert(dt_in_zone(cfg, ts[k].dt));
            }
        }
    }
}

/// Every fingerprint pairs its anchor with a target of the zone: the time
/// distance in its hash lies within the zone's bounds.
pub proof fn law_targets_stay_in_zone(
    cfg: LandmarkV2Config,
    bands: Seq<u16>,
    frames: Seq<PeakFrame>,
    n: int,
)
    ensures
        forall|i: int|
            0 <= i < fingerprints_upto(cfg, bands, frames, n).len() ==> clipped(cfg.dt_min as int)
                <= (#[trigger] fingerprints_upto(cfg, bands, frames, n)[i]).hash % 256 <= clipped(
                cfg.dt_max as int,
            ),
    decreases n,
{
    if n > 0 {
        law_targets_stay_in_zone(cfg, bands, frames, n - 1);
        let a = anchors(bands, frames)[n - 1];
        lemma_target_zone(cfg, bands, a, frames);
        lemma_slots_zone(cfg, a, targets(cfg, bands, a, frames), slot_count(cfg));
        let rest = fingerprints_upto(cfg, bands, frames, n - 1);
        let all = fingerprints_upto(cfg, bands, frames, n);
        let own = anchor_fingerprints(cfg, bands, a, frames);
        assert forall|i: int| 0 <= i < all.len() implies clipped(cfg.dt_min as int) <= (
        #[trigger] all[i]).hash % 256 <= clipped(cfg.dt_max as int) by {
            if i < rest.len() {
                assert(all[i] == rest[i]);
            } else {
                assert(all[i] == own[i - rest.len()]);
                assert(hash_in_zone(cfg, own[i - rest.len()].hash));
            }
        }
    }
}

/// An anchor has at most one fingerprint for each slot.
pub proof fn law_fanout_is_capped(
    cfg: LandmarkV2Config,
    bands: Seq<u16>,
    a: PendingAnchor,
    frames: Seq<PeakFrame>,
)
    ensures
        anchor_fingerprints(cfg, bands, a, frames).len() <= slot_count(cfg),
{
    lemma_target_zone(cfg, bands, a, frames);
    lemma_slots_zone(cfg, a, targets(cfg, bands, a, frames), slot_count(cfg));
}

/// The labels of peaks on the way ascend, below the number of frames.
proof fn lemma_peak_times(cfg: PeaksV2Config, log: Seq<Seq<Cell>>, n: int)
    requires
        n <= log.len(),
        log.len() <= TIME_LIMIT,
    ensures
        forall|i: int, j: int|
            #![trigger peak_frames(cfg, log, n)[i], peak_frames(cfg, log, n)[j]]
            0 <= i < j < peak_frames(cfg, log, n).len() ==> peak_frames(cfg, log, n)[i].time
                < peak_frames(cfg, log, n)[j].time,
        forall|i: int|
            0 <= i < peak_frames(cfg, log, n).len() ==> (#[trigger] peak_frames(
                cfg,
                log,
                n,
            )[i]).time < n,
    decreases n,
{
    if n > 0 {
        lemma_peak_times(cfg, log, n - 1);
        let rest = peak_frames(cfg, log, n - 1);
        let all = peak_frames(cfg, log, n);
        assert forall|i: int| 0 <= i < all.len() implies (#[trigger] all[i]).time < n by {
            if i < rest.len() {
                assert(all[i] == rest[i]);
            }
        }
        assert forall|i: int, j: int|
            #![trigger all[i], all[j]]
            0 <= i < j < all.len() implies all[i].time < all[j].time by {
            assert(all[i] == rest[i]);
            if j < rest.len() {
                assert(all[j] == rest[j]);
            }
        }
    }
}

/// All fingerprints of an anchor carry its time.
proof fn lemma_slot_times(a: PendingAnchor, ts: Seq<Target>, slots: int)
    ensures
        forall|i: int|
            0 <= i < slot_fingerprints(a, ts, slots).len() ==> (#[trigger] slot_fingerprints(
                a,
                ts,
                slots,
            )[i]).anchor_time == a.time_idx as u32,
    decreases slots,
{
    if slots > 0 {
        lemma_slot_times(a, ts, slots - 1);
        let rest = slot_fingerprints(a, ts, slots - 1);
        let all = slot_fingerprints(a, ts, slots);
        assert forall|i: int| 0 <= i < all.len() implies (#[trigger] all[i]).anchor_time
            == a.time_idx as u32 by {
            if i < rest.len() {
                assert(all[i] == rest[i]);
            }
        }
    }
}

/// The fingerprints are in order of their anchors.
pub open spec fn in_anchor_order(fps: Seq<Fingerprint32>) -> bool {
    forall|i: int, j: int|
        #![trigger fps[i], fps[j]]
        0 <= i < j < fps.len() ==> fps[i].anchor_time <= fps[j].anchor_time
}

proof fn lemma_upto_in_order(
    cfg: LandmarkV2Config,
    bands: Seq<u16>,
    frames: Seq<PeakFrame>,
    n: int,
)
    requires
        n <= anchors(bands, frames).len(),
        history_ok(frames, usize::MAX + 1),
        forall|k: int| 0 <= k < frames.len() ==> (#[trigger] frames[k]).time <= u32::MAX,
    ensures
        in_anchor_order(fingerprints_upto(cfg, bands, frames, n)),
        n > 0 ==> forall|i: int|
            0 <= i < fingerprints_upto(cfg, bands, frames, n).len() ==> (
            #[trigger] fingerprints_upto(cfg, bands, frames, n)[i]).anchor_time <= anchors(
                bands,
                frames,
            )[n - 1].time_idx,
    decreases n,
{
    if n > 0 {
        lemma_upto_in_order(cfg, bands, frames, n - 1);
        lemma_anchors_ascend(bands, frames, usize::MAX + 1);
        lemma_anchor_times(bands, frames, u32::MAX as int);
        let list = anchors(bands, frames);
        let a = list[n - 1];
        lemma_slot_times(a, targets(cfg, bands, a, frames), slot_count(cfg));
        let rest = fingerprints_upto(cfg, bands, frames, n - 1);
        let own = anchor_fingerprints(cfg, bands, a, frames);
        let all = fingerprints_upto(cfg, bands, frames, n);
        assert(all == rest + own);
        assert(a.time_idx <= u32::MAX);
        assert forall|i: int| 0 <= i < all.len() implies (#[trigger] all[i]).anchor_time
            <= a.time_idx by {
            if i < rest.len() {
                assert(all[i] == rest[i]);
                assert(n - 1 > 0);
                assert(list[n - 2].time_idx <= list[n - 1].time_idx);
            } else {
                assert(all[i] == own[i - rest.len()]);
            }
        }
        assert forall|i: int, j: int|
            #![trigger all[i], all[j]]
            0 <= i < j < all.len() implies all[i].anchor_time <= all[j].anchor_time by {
            if j < rest.len() {
                assert(all[i] == rest[i] && all[j] == rest[j]);
            } else {
                assert(all[j] == own[j - rest.len()]);
            }
        }
    }
}

/// Fingerprints come out in order of their anchors' times, in any stream
/// short enough for its times to fit.
pub proof fn law_fingerprints_come_in_anchor_order(
    cfg: LandmarkV2Config,
    bands: Seq<u16>,
    log: Seq<Seq<Cell>>,
)
    requires
        log.len() <= u32::MAX,
    ensures
        in_anchor_order(stream_fingerprints(cfg, bands, log)),
{
    let n = log.len() as int;
    lemma_peak_times(cfg.peaks, log, n);
    let frames = stream_peaks(cfg.peaks, log);
    let rest = peak_frames(cfg.peaks, log, n);
    assert forall|i: int, j: int|
        #![trigger frames[i], frames[j]]
        0 <= i < j < frames.len() implies frames[i].time < frames[j].time by {
        assert(frames[i] == rest[i]);
        if j < rest.len() {
            assert(frames[j] == rest[j]);
        }
    }
    assert forall|i: int| 0 <= i < frames.len() implies has_bands(
        (#[trigger] frames[i]).peaks,
        usize::MAX + 1,
    ) by {}
    assert forall|i: int| 0 <= i < frames.len() implies (#[trigger] frames[i]).time
        <= u32::MAX by {
        if i < rest.len() {
            assert(frames[i] == rest[i]);
        }
    }
    lemma_upto_in_order(cfg, bands, frames, anchors(bands, frames).len() as int);
}

// ---- what is fingerprinted ----

/// Frames from lot `i` of peaks to lot `j`.
pub open spec fn distance(frames: Seq<PeakFrame>, i: int, j: int) -> int {
    frames[j].time - frames[i].time
}

/// Peak `c` of lot `j` is a target of peak `p` of lot `i`: it comes at least
/// `dt_min` and at most `dt_max` frames later.
pub open spec fn is_pair(
    cfg: LandmarkV2Config,
    frames: Seq<PeakFrame>,
    i: int,
    p: int,
    j: int,
    c: int,
) -> bool {
    &&& 0 <= i < frames.len() && 0 <= p < frames[i].peaks.len()
    &&& 0 <= j < frames.len() && 0 <= c < frames[j].peaks.len()
    &&& cfg.dt_min <= distance(frames, i, j) <= cfg.dt_max
}

/// Which stretch of the zone a distance falls in: the zone is cut into as many
/// stretches of equal width as targets are wanted, at most one per frame, and
/// the last one takes what is left.
pub open spec fn stretch(cfg: LandmarkV2Config, dt: int) -> int {
    let width = cfg.dt_max - cfg.dt_min + 1;
    let wanted = if cfg.fanout < 1 {
        1
    } else if cfg.fanout > width {
        width
    } else {
        cfg.fanout as int
    };
    let s = (dt - cfg.dt_min) / (width / wanted);
    if s > wanted - 1 {
        wanted - 1
    } else {
        s
    }
}

/// How good a target is: half a point for each band between the two, and 64
/// points for 60 dB above the noise floor, in units of a 120-millionth.
pub open spec fn merit(bands: Seq<u16>, anchor: Peak, target: Peak) -> int {
    let (a, b) = (bands[anchor.freq_bin_idx as int], bands[target.freq_bin_idx as int]);
    let apart = if a > b {
        a - b
    } else {
        b - a
    };
    let strong = if target.prominence > 60_000_000 {
        60_000_000
    } else if target.prominence > 0 {
        target.prominence as int
    } else {
        0
    };
    60_000_000 * apart + 128 * strong
}

/// The fingerprint of a pair: the anchor's band in the top twelve bits, the
/// target's band in the next twelve, the distance in the last eight, and the
/// anchor's time.
pub open spec fn is_print_of(
    fp: Fingerprint32,
    bands: Seq<u16>,
    frames: Seq<PeakFrame>,
    i: int,
    p: int,
    j: int,
    c: int,
) -> bool {
    let dt = distance(frames, i, j);
    &&& fp.hash as int / 0x10_0000 == bands[frames[i].peaks[p].freq_bin_idx as int] as int % 0x1000
    &&& fp.hash as int / 0x100 % 0x1000 == bands[frames[j].peaks[c].freq_bin_idx as int] as int
        % 0x1000
    &&& fp.hash as int % 0x100 == if dt > 255 {
        255
    } else {
        dt
    }
    &&& fp.anchor_time == frames[i].time as int % 0x1_0000_0000
}

/// Fingerprint `fp` stands for a pair than which the stretch holds no better
/// target.
pub open spec fn stands_for_best(
    cfg: LandmarkV2Config,
    bands: Seq<u16>,
    frames: Seq<PeakFrame>,
    fp: Fingerprint32,
    i: int,
    p: int,
    j: int,
    c: int,
) -> bool {
    &&& is_pair(cfg, frames, i, p, j, c)
    &&& is_print_of(fp, bands, frames, i, p, j, c)
    &&& forall|k: int, d: int| #[trigger]
        is_pair(cfg, frames, i, p, k, d) && stretch(cfg, distance(frames, i, k)) == stretch(
            cfg,
            distance(frames, i, j),
        ) ==> merit(bands, frames[i].peaks[p], frames[k].peaks[d]) <= merit(
            bands,
            frames[i].peaks[p],
            frames[j].peaks[c],
        )
}

/// The zone is a stretch of frames that lie ahead.
pub open spec fn zone_ahead(cfg: LandmarkV2Config) -> bool {
    cfg.dt_min <= cfg.dt_max && zone_fits(cfg)
}

proof fn lemma_stretch(cfg: LandmarkV2Config, dt: int)
    requires
        zone_ahead(cfg),
        cfg.dt_min <= dt <= cfg.dt_max,
    ensures
        stretch(cfg, dt) == slot_of(cfg, dt),
        0 <= slot_of(cfg, dt) < slot_count(cfg),
        slot_of(cfg, dt) as usize == slot_of(cfg, dt),
{
    let (w, n) = (zone_width(cfg), slot_count(cfg));
    assert(w / n >= 1) by (nonlinear_arith)
        requires
            1 <= n <= w,
    ;
    let (x, step) = (dt - cfg.dt_min, w / n);
    assert(0 <= x / step) by (nonlinear_arith)
        requires
            x >= 0,
            step >= 1,
    ;
}

/// Target `m` of an anchor is a peak of the zone.
proof fn lemma_target_is_peak(
    cfg: LandmarkV2Config,
    bands: Seq<u16>,
    a: PendingAnchor,
    frames: Seq<PeakFrame>,
    m: int,
) -> (jc: (int, int))
    requires
        0 <= m < targets(cfg, bands, a, frames).len(),
    ensures
        0 <= jc.0 < frames.len(),
        0 <= jc.1 < frames[jc.0].peaks.len(),
        a.time_idx + cfg.dt_min <= frames[jc.0].time <= a.time_idx + cfg.dt_max,
        targets(cfg, bands, a, frames)[m] == target_of(
            cfg,
            bands,
            a,
            frames[jc.0].time,
            frames[jc.0].peaks[jc.1],
        ),
    decreases frames.len(),
{
    let rest = frames.drop_last();
    let before = targets(cfg, bands, a, rest);
    if m < before.len() {
        lemma_target_is_peak(cfg, bands, a, rest, m)
    } else {
        (frames.len() - 1, m - before.len())
    }
}

/// Every peak of the zone is a target.
proof fn lemma_peak_is_target(
    cfg: LandmarkV2Config,
    bands: Seq<u16>,
    a: PendingAnchor,
    frames: Seq<PeakFrame>,
    j: int,
    c: int,
) -> (m: int)
    requires
        0 <= j < frames.len(),
        0 <= c < frames[j].peaks.len(),
        a.time_idx + cfg.dt_min <= frames[j].time <= a.time_idx + cfg.dt_max,
    ensures
        0 <= m < targets(cfg, bands, a, frames).len(),
        targets(cfg, bands, a, frames)[m] == target_of(
            cfg,
            bands,
            a,
            frames[j].time,
            frames[j].peaks[c],
        ),
    decreases frames.len(),
{
    let rest = frames.drop_last();
    let before = targets(cfg, bands, a, rest);
    if j < rest.len() {
        let m = lemma_peak_is_target(cfg, bands, a, rest, j, c);
        assert(targets(cfg, bands, a, frames)[m] == before[m]);
        m
    } else {
        before.len() + c
    }
}

/// The best target of a slot is one of them, and none is better.
proof fn lemma_best_of_slot(ts: Seq<Target>, slot: int) -> (m: int)
    ensures
        best_target(ts, slot) is None ==> forall|k: int|
            0 <= k < ts.len() ==> (#[trigger] ts[k]).slot != slot,
        best_target(ts, slot) matches Some(t) ==> {
            &&& 0 <= m < ts.len()
            &&& ts[m] == t
            &&& t.slot == slot
            &&& forall|k: int|
                0 <= k < ts.len() && (#[trigger] ts[k]).slot == slot ==> ts[k].score <= t.score
        },
    decreases ts.len(),
{
    if ts.len() == 0 {
        0
    } else {
        let rest = ts.drop_last();
        let m = lemma_best_of_slot(rest, slot);
        let t = ts.last();
        assert(ts[ts.len() - 1] == t);
        assert forall|k: int| 0 <= k < rest.len() implies #[trigger] ts[k] == rest[k] by {}
        if t.slot == slot && (best_target(rest, slot) is None || t.score > best_target(
            rest,
            slot,
        )->0.score) {
            ts.len() - 1
        } else {
            m
        }
    }
}

/// The fingerprint of a slot's best target.
spec fn slot_print(a: PendingAnchor, t: Target) -> Fingerprint32 {
    Fingerprint32 {
        hash: packed_hash32(a.f1q, t.f2q, t.dt) as u32,
        anchor_time: a.time_idx as u32,
    }
}

/// Every slot with a target has its fingerprint.
proof fn lemma_slot_has_print(a: PendingAnchor, ts: Seq<Target>, slots: int, s: int)
    requires
        0 <= s < slots,
        best_target(ts, s) is Some,
    ensures
        slot_fingerprints(a, ts, slots).contains(slot_print(a, best_target(ts, s)->0)),
    decreases slots,
{
    let all = slot_fingerprints(a, ts, slots);
    let fp = slot_print(a, best_target(ts, s)->0);
    if s < slots - 1 {
        lemma_slot_has_print(a, ts, slots - 1, s);
        let rest = slot_fingerprints(a, ts, slots - 1);
        let i = rest.index_of(fp);
        assert(all[i] == fp);
    } else {
        assert(all.last() == fp);
    }
}

/// Every fingerprint of an anchor is that of a slot.
proof fn lemma_print_has_slot(a: PendingAnchor, ts: Seq<Target>, slots: int, fp: Fingerprint32) -> (s:
    int)
    requires
        slot_fingerprints(a, ts, slots).contains(fp),
    ensures
        0 <= s < slots,
        best_target(ts, s) is Some,
        fp == slot_print(a, best_target(ts, s)->0),
    decreases slots,
{
    let all = slot_fingerprints(a, ts, slots);
    let k = all.index_of(fp);
    if slots <= 0 {
        0
    } else {
        let rest = slot_fingerprints(a, ts, slots - 1);
        if k < rest.len() {
            assert(rest[k] == fp);
            assert(rest.contains(fp));
            lemma_print_has_slot(a, ts, slots - 1, fp)
        } else {
            slots - 1
        }
    }
}

/// Anchor `p` of lot `i` is among all anchors.
proof fn lemma_anchor_index(bands: Seq<u16>, frames: Seq<PeakFrame>, i: int, p: int) -> (k: int)
    requires
        0 <= i < frames.len(),
        0 <= p < frames[i].peaks.len(),
    ensures
        0 <= k < anchors(bands, frames).len(),
        anchors(bands, frames)[k] == (PendingAnchor {
            time_idx: frames[i].time,
            f1q: bands[frames[i].peaks[p].freq_bin_idx as int],
        }),
    decreases frames.len(),
{
    let rest = frames.drop_last();
    let before = anchors(bands, rest);
    if i < rest.len() {
        let k = lemma_anchor_index(bands, rest, i, p);
        assert(anchors(bands, frames)[k] == before[k]);
        k
    } else {
        before.len() + p
    }
}

/// Every anchor is a peak of a lot.
proof fn lemma_anchor_is_peak(bands: Seq<u16>, frames: Seq<PeakFrame>, k: int) -> (ip: (int, int))
    requires
        0 <= k < anchors(bands, frames).len(),
    ensures
        0 <= ip.0 < frames.len(),
        0 <= ip.1 < frames[ip.0].peaks.len(),
        anchors(bands, frames)[k] == (PendingAnchor {
            time_idx: frames[ip.0].time,
            f1q: bands[frames[ip.0].peaks[ip.1].freq_bin_idx as int],
        }),
    decreases frames.len(),
{
    let rest = frames.drop_last();
    let before = anchors(bands, rest);
    if k < before.len() {
        lemma_anchor_is_peak(bands, rest, k)
    } else {
        (frames.len() - 1, k - before.len())
    }
}

/// The fingerprints of anchor `k` are among those of the first `n`.
proof fn lemma_anchor_contributes(
    cfg: LandmarkV2Config,
    bands: Seq<u16>,
    frames: Seq<PeakFrame>,
    n: int,
    k: int,
    fp: Fingerprint32,
)
    requires
        0 <= k < n,
        anchor_fingerprints(cfg, bands, anchors(bands, frames)[k], frames).contains(fp),
    ensures
        fingerprints_upto(cfg, bands, frames, n).contains(fp),
    decreases n,
{
    let all = fingerprints_upto(cfg, bands, frames, n);
    let rest = fingerprints_upto(cfg, bands, frames, n - 1);
    if k < n - 1 {
        lemma_anchor_contributes(cfg, bands, frames, n - 1, k, fp);
        let i = rest.index_of(fp);
        assert(all[i] == fp);
    } else {
        let own = anchor_fingerprints(cfg, bands, anchors(bands, frames)[k], frames);
        let i = own.index_of(fp);
        assert(all[rest.len() + i] == fp);
    }
}

/// Every fingerprint is that of an anchor.
proof fn lemma_print_has_anchor(
    cfg: LandmarkV2Config,
    bands: Seq<u16>,
    frames: Seq<PeakFrame>,
    n: int,
    fp: Fingerprint32,
) -> (k: int)
    requires
        fingerprints_upto(cfg, bands, frames, n).contains(fp),
    ensures
        0 <= k < n,
        anchor_fingerprints(cfg, bands, anchors(bands, frames)[k], frames).contains(fp),
    decreases n,
{
    let all = fingerprints_upto(cfg, bands, frames, n);
    let i = all.index_of(fp);
    if n <= 0 {
        0
    } else {
        let rest = fingerprints_upto(cfg, bands, frames, n - 1);
        if i < rest.len() {
            assert(rest[i] == fp);
            assert(rest.contains(fp));
            lemma_print_has_anchor(cfg, bands, frames, n - 1, fp)
        } else {
            let own = anchor_fingerprints(cfg, bands, anchors(bands, frames)[n - 1], frames);
            assert(own[i - rest.len()] == fp);
            n - 1
        }
    }
}

/// A slot's print stands for the best pair of its stretch.
proof fn lemma_print_stands(
    cfg: LandmarkV2Config,
    bands: Seq<u16>,
    frames: Seq<PeakFrame>,
    i: int,
    p: int,
    s: int,
) -> (jc: (int, int))
    requires
        zone_ahead(cfg),
        0 <= i < frames.len(),
        0 <= p < frames[i].peaks.len(),
        ({
            let a = PendingAnchor {
                time_idx: frames[i].time,
                f1q: bands[frames[i].peaks[p].freq_bin_idx as int],
            };
            best_target(targets(cfg, bands, a, frames), s) is Some
        }),
    ensures
        ({
            let a = PendingAnchor {
                time_idx: frames[i].time,
                f1q: bands[frames[i].peaks[p].freq_bin_idx as int],
            };
            let t = best_target(targets(cfg, bands, a, frames), s)->0;
            &&& stands_for_best(cfg, bands, frames, slot_print(a, t), i, p, jc.0, jc.1)
            &&& stretch(cfg, distance(frames, i, jc.0)) == s
        }),
{
    let a = PendingAnchor {
        time_idx: frames[i].time,
        f1q: bands[frames[i].peaks[p].freq_bin_idx as int],
    };
    let ts = targets(cfg, bands, a, frames);
    let t = best_target(ts, s)->0;
    let m = lemma_best_of_slot(ts, s);
    let (j, c) = lemma_target_is_peak(cfg, bands, a, frames, m);
    let dt = distance(frames, i, j);
    lemma_stretch(cfg, dt);
    let fp = slot_print(a, t);
    crate::hash::lemma_packed_fields(a.f1q, t.f2q, t.dt);
    lemma_low_word(a.time_idx);
    assert forall|k: int, d: int| #[trigger]
        is_pair(cfg, frames, i, p, k, d) && stretch(cfg, distance(frames, i, k)) == stretch(
            cfg,
            dt,
        ) implies merit(bands, frames[i].peaks[p], frames[k].peaks[d]) <= merit(
        bands,
        frames[i].peaks[p],
        frames[j].peaks[c],
    ) by {
        let l = lemma_peak_is_target(cfg, bands, a, frames, k, d);
        lemma_stretch(cfg, distance(frames, i, k));
        assert(ts[l].slot == s);
    }
    (j, c)
}

proof fn lemma_low_word(t: u64)
    ensures
        (t as u32) as int == t as int % 0x1_0000_0000,
{
    assert((t as u32) as u64 == t % 0x1_0000_0000) by (bit_vector);
}

/// Everything is fingerprinted, from the first second to the last: every pair
/// of a peak and a later peak of its target zone has a fingerprint with the
/// anchor's band and time, for a target of the same stretch of the zone that
/// is at least as good, and than which that stretch holds no better. And
/// nothing else is: every fingerprint stands for such a pair.
pub proof fn law_every_pair_is_fingerprinted(
    cfg: LandmarkV2Config,
    bands: Seq<u16>,
    log: Seq<Seq<Cell>>,
)
    requires
        zone_ahead(cfg),
    ensures
        forall|i: int, p: int, j: int, c: int| #[trigger]
            is_pair(cfg, stream_peaks(cfg.peaks, log), i, p, j, c) ==> has_best_print(
                cfg,
                bands,
                stream_peaks(cfg.peaks, log),
                stream_fingerprints(cfg, bands, log),
                i,
                p,
                stretch(cfg, distance(stream_peaks(cfg.peaks, log), i, j)),
            ),
        forall|fp: Fingerprint32| #[trigger]
            stream_fingerprints(cfg, bands, log).contains(fp) ==> exists|
                i: int,
                p: int,
                j: int,
                c: int,
            | #[trigger]
                stands_for_best(cfg, bands, stream_peaks(cfg.peaks, log), fp, i, p, j, c),
{
    let frames = stream_peaks(cfg.peaks, log);
    let fps = stream_fingerprints(cfg, bands, log);
    let n = anchors(bands, frames).len() as int;
    assert forall|i: int, p: int, j: int, c: int| #[trigger]
        is_pair(cfg, frames, i, p, j, c) implies has_best_print(
        cfg,
        bands,
        frames,
        fps,
        i,
        p,
        stretch(cfg, distance(frames, i, j)),
    ) by {
        let k = lemma_anchor_index(bands, frames, i, p);
        let a = anchors(bands, frames)[k];
        let ts = targets(cfg, bands, a, frames);
        let m = lemma_peak_is_target(cfg, bands, a, frames, j, c);
        let s = stretch(cfg, distance(frames, i, j));
        lemma_stretch(cfg, distance(frames, i, j));
        assert(ts[m].slot == s);
        lemma_best_of_slot(ts, s);
        lemma_slot_has_print(a, ts, slot_count(cfg), s);
        let fp = slot_print(a, best_target(ts, s)->0);
        lemma_anchor_contributes(cfg, bands, frames, n, k, fp);
        let (j2, c2) = lemma_print_stands(cfg, bands, frames, i, p, s);
        assert(stands_for_best(cfg, bands, frames, fp, i, p, j2, c2));
    }
    assert forall|fp: Fingerprint32| #[trigger] fps.contains(fp) implies exists|
        i: int,
        p: int,
        j: int,
        c: int,
    | #[trigger] stands_for_best(cfg, bands, frames, fp, i, p, j, c) by {
        let k = lemma_print_has_anchor(cfg, bands, frames, n, fp);
        let a = anchors(bands, frames)[k];
        let ts = targets(cfg, bands, a, frames);
        let s = lemma_print_has_slot(a, ts, slot_count(cfg), fp);
        let (i, p) = lemma_anchor_is_peak(bands, frames, k);
        let (j, c) = lemma_print_stands(cfg, bands, frames, i, p, s);
        assert(stands_for_best(cfg, bands, frames, fp, i, p, j, c));
    }
}

/// One of the fingerprints stands for the best target that peak `p` of lot `i`
/// has in a stretch of its zone.
pub open spec fn has_best_print(
    cfg: LandmarkV2Config,
    bands: Seq<u16>,
    frames: Seq<PeakFrame>,
    fps: Seq<Fingerprint32>,
    i: int,
    p: int,
    s: int,
) -> bool {
    exists|fp: Fingerprint32, j: int, c: int| #[trigger]
        stands_for_best(cfg, bands, frames, fp, i, p, j, c) && fps.contains(fp) && stretch(
            cfg,
            distance(frames, i, j),
        ) == s
}

/// The same lots, `d` frames later.
pub open spec fn delayed(frames: Seq<PeakFrame>, d: int) -> Seq<PeakFrame> {
    frames.map_values(
        |f: PeakFrame| PeakFrame { time: (f.time + d) as u64, peaks: f.peaks },
    )
}

/// The same fingerprints, `d` frames later.
pub open spec fn prints_delayed(fps: Seq<Fingerprint32>, d: int) -> Seq<Fingerprint32> {
    fps.map_values(
        |f: Fingerprint32|
            Fingerprint32 { hash: f.hash, anchor_time: (f.anchor_time + d) as u32 },
    )
}

/// When a passage is played does not matter: where all peaks come `d` frames
/// later, the fingerprints have the same hashes, in the same order, and every
/// anchor time is larger by `d`.
pub proof fn law_delays_shift_anchor_times(
    cfg: LandmarkV2Config,
    bands: Seq<u16>,
    frames: Seq<PeakFrame>,
    d: int,
)
    requires
        d >= 0,
        forall|k: int| 0 <= k < frames.len() ==> (#[trigger] frames[k]).time + d <= u32::MAX,
    ensures
        landmarks(cfg, bands, delayed(frames, d)) == prints_delayed(
            landmarks(cfg, bands, frames),
            d,
        ),
{
    lemma_anchors_delayed(bands, frames, d);
    lemma_upto_delayed(cfg, bands, frames, d, anchors(bands, frames).len() as int);
}

spec fn anchor_delayed(a: PendingAnchor, d: int) -> PendingAnchor {
    PendingAnchor { time_idx: (a.time_idx + d) as u64, f1q: a.f1q }
}

proof fn lemma_anchors_delayed(bands: Seq<u16>, frames: Seq<PeakFrame>, d: int)
    requires
        d >= 0,
        forall|k: int| 0 <= k < frames.len() ==> (#[trigger] frames[k]).time + d <= u32::MAX,
    ensures
        anchors(bands, delayed(frames, d)) == anchors(bands, frames).map_values(
            |a: PendingAnchor| anchor_delayed(a, d),
        ),
        forall|k: int|
            0 <= k < anchors(bands, frames).len() ==> (
            #[trigger] anchors(bands, frames)[k]).time_idx + d <= u32::MAX,
    decreases frames.len(),
{
    let g = |a: PendingAnchor| anchor_delayed(a, d);
    if frames.len() > 0 {
        let rest = frames.drop_last();
        assert forall|k: int| 0 <= k < rest.len() implies (#[trigger] rest[k]).time + d
            <= u32::MAX by {
            assert(rest[k] == frames[k]);
        }
        lemma_anchors_delayed(bands, rest, d);
        assert(delayed(frames, d).drop_last() =~= delayed(rest, d));
        let late = delayed(frames, d).last();
        assert(late == (PeakFrame {
            time: (frames[frames.len() - 1].time + d) as u64,
            peaks: frames[frames.len() - 1].peaks,
        }));
        assert(frame_anchors(bands, late) =~= frame_anchors(bands, frames.last()).map_values(g));
        assert(anchors(bands, delayed(frames, d)) =~= anchors(bands, frames).map_values(g));
        let before = anchors(bands, rest);
        assert forall|k: int| 0 <= k < anchors(bands, frames).len() implies (
        #[trigger] anchors(bands, frames)[k]).time_idx + d <= u32::MAX by {
            if k < before.len() {
                assert(before[k].time_idx + d <= u32::MAX);
            } else {
                assert(frames[frames.len() - 1].time + d <= u32::MAX);
            }
        }
    } else {
        assert(delayed(frames, d) =~= Seq::<PeakFrame>::empty());
        assert(anchors(bands, frames).map_values(g) =~= Seq::<PendingAnchor>::empty());
    }
}

proof fn lemma_targets_delayed(
    cfg: LandmarkV2Config,
    bands: Seq<u16>,
    a: PendingAnchor,
    frames: Seq<PeakFrame>,
    d: int,
)
    requires
        d >= 0,
        a.time_idx + d <= u32::MAX,
        forall|k: int| 0 <= k < frames.len() ==> (#[trigger] frames[k]).time + d <= u32::MAX,
    ensures
        targets(cfg, bands, anchor_delayed(a, d), delayed(frames, d)) == targets(
            cfg,
            bands,
            a,
            frames,
        ),
    decreases frames.len(),
{
    if frames.len() > 0 {
        let rest = frames.drop_last();
        assert forall|k: int| 0 <= k < rest.len() implies (#[trigger] rest[k]).time + d
            <= u32::MAX by {
            assert(rest[k] == frames[k]);
        }
        lemma_targets_delayed(cfg, bands, a, rest, d);
        assert(delayed(frames, d).drop_last() =~= delayed(rest, d));
        let f = frames[frames.len() - 1];
        let late = delayed(frames, d).last();
        assert(late.time == f.time + d && late.peaks == f.peaks);
        assert(frame_targets(cfg, bands, anchor_delayed(a, d), late) =~= frame_targets(
            cfg,
            bands,
            a,
            f,
        ));
    } else {
        assert(delayed(frames, d) =~= Seq::<PeakFrame>::empty());
    }
}

proof fn lemma_slots_delayed(a: PendingAnchor, ts: Seq<Target>, slots: int, d: int)
    requires
        d >= 0,
        a.time_idx + d <= u32::MAX,
    ensures
        slot_fingerprints(anchor_delayed(a, d), ts, slots) == prints_delayed(
            slot_fingerprints(a, ts, slots),
            d,
        ),
    decreases slots,
{
    if slots > 0 {
        lemma_slots_delayed(a, ts, slots - 1, d);
    }
    assert(slot_fingerprints(anchor_delayed(a, d), ts, slots) =~= prints_delayed(
        slot_fingerprints(a, ts, slots),
        d,
    ));
}

proof fn lemma_upto_delayed(
    cfg: LandmarkV2Config,
    bands: Seq<u16>,
    frames: Seq<PeakFrame>,
    d: int,
    n: int,
)
    requires
        d >= 0,
        n <= anchors(bands, frames).len(),
        forall|k: int| 0 <= k < frames.len() ==> (#[trigger] frames[k]).time + d <= u32::MAX,
    ensures
        fingerprints_upto(cfg, bands, delayed(frames, d), n) == prints_delayed(
            fingerprints_upto(cfg, bands, frames, n),
            d,
        ),
    decreases n,
{
    let all = prints_delayed(fingerprints_upto(cfg, bands, frames, n), d);
    if n > 0 {
        lemma_upto_delayed(cfg, bands, frames, d, n - 1);
        lemma_anchors_delayed(bands, frames, d);
        let a = anchors(bands, frames)[n - 1];
        assert(anchors(bands, delayed(frames, d))[n - 1] == anchor_delayed(a, d));
        lemma_targets_delayed(cfg, bands, a, frames, d);
        lemma_slots_delayed(a, targets(cfg, bands, a, frames), slot_count(cfg), d);
    }
    assert(fingerprints_upto(cfg, bands, delayed(frames, d), n) =~= all);
}

/// Peaks come out when the frames that can overrule them have arrived: lot by
/// lot, each labelled with the frame that brought it out, and at the end of
/// the stream those still undecided in one last lot. No lot is left out and
/// none is empty.
pub proof fn law_every_decided_frame_is_a_lot(cfg: PeaksV2Config, log: Seq<Seq<Cell>>)
    ensures
        forall|t: int|
            cfg.time_radius <= t < log.len() && (#[trigger] decided(
                cfg,
                log.take(t + 1),
                t - cfg.time_radius,
            )).len() > 0 ==> stream_peaks(cfg, log).contains(
                PeakFrame {
                    time: t as u64,
                    peaks: decided(cfg, log.take(t + 1), t - cfg.time_radius),
                },
            ),
        ({
            let n = log.len() as int;
            let from = if n > cfg.time_radius {
                n - cfg.time_radius
            } else {
                0
            };
            let tail = decided_range(cfg, log, from, n);
            tail.len() > 0 ==> stream_peaks(cfg, log).len() > 0 && stream_peaks(cfg, log).last()
                == (PeakFrame { time: n as u64, peaks: tail })
        }),
        forall|k: int|
            0 <= k < stream_peaks(cfg, log).len() ==> (#[trigger] stream_peaks(
                cfg,
                log,
            )[k]).peaks.len() > 0,
{
    let n = log.len() as int;
    let way = peak_frames(cfg, log, n);
    let all = stream_peaks(cfg, log);
    lemma_lots_are_there(cfg, log, n);
    assert forall|t: int|
        cfg.time_radius <= t < n && (#[trigger] decided(
            cfg,
            log.take(t + 1),
            t - cfg.time_radius,
        )).len() > 0 implies all.contains(
        PeakFrame { time: t as u64, peaks: decided(cfg, log.take(t + 1), t - cfg.time_radius) },
    ) by {
        let f = PeakFrame {
            time: t as u64,
            peaks: decided(cfg, log.take(t + 1), t - cfg.time_radius),
        };
        assert(way.contains(f));
        let i = way.index_of(f);
        assert(all[i] == f);
    }
    assert forall|k: int| 0 <= k < all.len() implies (#[trigger] all[k]).peaks.len() > 0 by {
        if k < way.len() {
            assert(all[k] == way[k]);
        }
    }
}

proof fn lemma_lots_are_there(cfg: PeaksV2Config, log: Seq<Seq<Cell>>, n: int)
    requires
        n <= log.len(),
    ensures
        forall|t: int|
            cfg.time_radius <= t < n && (#[trigger] decided(
                cfg,
                log.take(t + 1),
                t - cfg.time_radius,
            )).len() > 0 ==> peak_frames(cfg, log, n).contains(
                PeakFrame {
                    time: t as u64,
                    peaks: decided(cfg, log.take(t + 1), t - cfg.time_radius),
                },
            ),
        forall|k: int|
            0 <= k < peak_frames(cfg, log, n).len() ==> (#[trigger] peak_frames(
                cfg,
                log,
                n,
            )[k]).peaks.len() > 0,
    decreases n,
{
    if n > 0 {
        lemma_lots_are_there(cfg, log, n - 1);
        let rest = peak_frames(cfg, log, n - 1);
        let all = peak_frames(cfg, log, n);
        assert forall|t: int|
            cfg.time_radius <= t < n && (#[trigger] decided(
                cfg,
                log.take(t + 1),
                t - cfg.time_radius,
            )).len() > 0 implies all.contains(
            PeakFrame {
                time: t as u64,
                peaks: decided(cfg, log.take(t + 1), t - cfg.time_radius),
            },
        ) by {
            let f = PeakFrame {
                time: t as u64,
                peaks: decided(cfg, log.take(t + 1), t - cfg.time_radius),
            };
            if t < n - 1 {
                assert(rest.contains(f));
                let i = rest.index_of(f);
                assert(all[i] == f);
            } else {
                assert(all.last() == f);
            }
        }
        assert forall|k: int| 0 <= k < all.len() implies (#[trigger] all[k]).peaks.len() > 0 by {
            if k < rest.len() {
                assert(all[k] == rest[k]);
            }
        }
    }
}

/// No anchor has more fingerprints than the zone has stretches, over a whole
/// stream.
pub proof fn law_prints_are_capped(cfg: LandmarkV2Config, bands: Seq<u16>, frames: Seq<PeakFrame>)
    ensures
        landmarks(cfg, bands, frames).len() <= slot_count(cfg) * peaks_in(frames),
{
    lemma_anchor_count(bands, frames);
    lemma_upto_capped(cfg, bands, frames, anchors(bands, frames).len() as int);
}

/// Peaks of all lots.
pub open spec fn peaks_in(frames: Seq<PeakFrame>) -> nat
    decreases frames.len(),
{
    if frames.len() == 0 {
        0
    } else {
        peaks_in(frames.drop_last()) + frames.last().peaks.len()
    }
}

proof fn lemma_anchor_count(bands: Seq<u16>, frames: Seq<PeakFrame>)
    ensures
        anchors(bands, frames).len() == peaks_in(frames),
    decreases frames.len(),
{
    if frames.len() > 0 {
        lemma_anchor_count(bands, frames.drop_last());
    }
}

proof fn lemma_upto_capped(
    cfg: LandmarkV2Config,
    bands: Seq<u16>,
    frames: Seq<PeakFrame>,
    n: int,
)
    ensures
        n >= 0 ==> fingerprints_upto(cfg, bands, frames, n).len() <= slot_count(cfg) * n,
    decreases n,
{
    let c = slot_count(cfg);
    if n > 0 {
        lemma_upto_capped(cfg, bands, frames, n - 1);
        law_fanout_is_capped(cfg, bands, anchors(bands, frames)[n - 1], frames);
        assert(c * (n - 1) + c == c * n) by (nonlinear_arith);
    } else {
        assert(c * 0 == 0) by (nonlinear_arith);
    }
}

/// Fingerprints are final once the whole zone of their anchor has passed: of
/// the anchors in order of arrival, up to the first whose last target may
/// still come, each has brought its prints out, in order.
pub proof fn law_prints_are_final_once_their_zone_is_over(
    cfg: LandmarkV2Config,
    bands: Seq<u16>,
    frames: Seq<PeakFrame>,
)
    requires
        frames.len() > 0,
    ensures
        exists|n: int|
            {
                let all = anchors(bands, frames);
                &&& 0 <= n <= all.len()
                &&& forall|k: int|
                    0 <= k < n ==> (#[trigger] all[k]).time_idx + cfg.dt_max <= frames.last().time
                &&& n < all.len() ==> all[n].time_idx + cfg.dt_max > frames.last().time
                &&& finalized(cfg, bands, frames) == #[trigger] fingerprints_upto(
                    cfg,
                    bands,
                    frames,
                    n,
                )
            },
        landmarks(cfg, bands, frames) == fingerprints_upto(
            cfg,
            bands,
            frames,
            anchors(bands, frames).len() as int,
        ),
{
    let all = anchors(bands, frames);
    lemma_ready_are_over(cfg, all, frames.last().time as int);
    let n = ready_count(cfg, all, frames.last().time as int);
    assert(finalized(cfg, bands, frames) == fingerprints_upto(cfg, bands, frames, n));
}

proof fn lemma_ready_are_over(cfg: LandmarkV2Config, waiting: Seq<PendingAnchor>, now: int)
    ensures
        0 <= ready_count(cfg, waiting, now) <= waiting.len(),
        forall|k: int|
            0 <= k < ready_count(cfg, waiting, now) ==> (#[trigger] waiting[k]).time_idx
                + cfg.dt_max <= now,
        ready_count(cfg, waiting, now) < waiting.len() ==> waiting[ready_count(
            cfg,
            waiting,
            now,
        )].time_idx + cfg.dt_max > now,
    decreases waiting.len(),
{
    if waiting.len() > 0 {
        let rest = waiting.drop_last();
        lemma_ready_are_over(cfg, rest, now);
        assert forall|k: int| 0 <= k < ready_count(cfg, waiting, now) implies (
        #[trigger] waiting[k]).time_idx + cfg.dt_max <= now by {
            if k < rest.len() {
                assert(rest[k] == waiting[k]);
            }
        }
        let r = ready_count(cfg, rest, now);
        if r < rest.len() {
            assert(rest[r] == waiting[r]);
        }
    }
}

/// Anchors are the peaks, lot by lot, with the time of their lot and the band
/// of their bin; and prints come anchor by anchor.
pub proof fn law_every_peak_of_a_lot_is_an_anchor(
    cfg: LandmarkV2Config,
    bands: Seq<u16>,
    frames: Seq<PeakFrame>,
    f: PeakFrame,
    i: int,
    n: int,
)
    requires
        0 <= i < f.peaks.len(),
        0 <= n,
    ensures
        anchors(bands, Seq::<PeakFrame>::empty()).len() == 0,
        anchors(bands, frames.push(f)).len() == anchors(bands, frames).len() + f.peaks.len(),
        anchors(bands, frames.push(f))[anchors(bands, frames).len() + i] == (PendingAnchor {
            time_idx: f.time,
            f1q: bands[f.peaks[i].freq_bin_idx as int],
        }),
        fingerprints_upto(cfg, bands, frames, 0).len() == 0,
        fingerprints_upto(cfg, bands, frames, n + 1) == fingerprints_upto(cfg, bands, frames, n)
            + anchor_fingerprints(cfg, bands, anchors(bands, frames)[n], frames),
{
    assert(frames.push(f).drop_last() =~= frames);
}

/// The parameters of the production engine, and what a configuration of the
/// first generation changes of them: window and hop.
pub proof fn law_production_parameters(c: AlgorithmConfig)
    ensures
        ({
            let p = production_peaks();
            &&& p.time_radius == 2
            &&& p.freq_radius == 5
            &&& p.min_prominence == 8_000_000
            &&& p.absolute_floor == i64::MIN
            &&& p.max_peaks_per_frame == 8
            &&& p.background_min_window_frames == 86
            &&& p.background_margin == 6_000_000
            &&& p.relative_floor == 35_000_000
        }),
        ({
            let p = crate::peaks::default_peaks();
            &&& p.time_radius == 2
            &&& p.freq_radius == 5
            &&& p.min_prominence == 8_000_000
            &&& p.absolute_floor == i64::MIN
            &&& p.max_peaks_per_frame == 8
            &&& p.background_min_window_frames == 0
            &&& p.background_margin == 0
            &&& p.relative_floor == 0
        }),
        ({
            let l = <LandmarkV2Config as vstd::std_specs::convert::FromSpec<
                &AlgorithmConfig,
            >>::from_spec(&c);
            &&& l.fft_window == c.fft.window_size
            &&& l.hop == c.fft.hop_size
            &&& l.peaks == production_peaks()
            &&& l.fanout == 8
            &&& l.dt_min == 1
            &&& l.dt_max == 50
            &&& l.freq_bands == 256
        }),
{
}

} // verus!
