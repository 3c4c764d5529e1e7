//! The first-generation engine: peaks of a whole spectrogram, pair hashes in
//! 28 bits, and matching by offset histograms.
//!
//! Magnitudes are given as order keys: integers that compare as the
//! magnitudes do.
use vstd::prelude::*;

use crate::hash::{legacy_hash_value, pack_legacy_hash};
use crate::sort::{count_where, lemma_permuted_contains, ordered, sorted, Ranked};

verus! {

pub const TARGET_ZONE_DT_MIN_FRAMES: usize = 1;

pub const TARGET_ZONE_DT_MAX_FRAMES: usize = 50;

pub const TARGET_ZONE_DF_ABS_MAX_BINS: usize = 200;

pub const MAX_PAIRS_PER_ANCHOR: usize = 5;

/// Bits of a frequency in a hash.
pub const HASH_FREQ_BITS: u32 = 10;

/// Bits of a time distance in a hash.
pub const HASH_DELTA_TIME_BITS: u32 = 8;

/// Score below which a match is discarded.
pub const MIN_MATCH_SCORE: usize = 100;

/// Whether debug output is wanted.
#[derive(Debug, Clone, Copy, PartialEq, Eq, Structural)]
pub struct Verbosity {
    pub verbose: bool,
}

impl Default for Verbosity {
    /// Debug output is on until it is turned off.
    fn default() -> (v: Self)
        ensures
            v.verbose,
    {
        Verbosity { verbose: true }
    }
}

impl Verbosity {
    pub fn set_verbose(&mut self, verbose: bool)
        ensures
            final(self).verbose == verbose,
    {
        self.verbose = verbose;
    }

    pub fn is_verbose(&self) -> (r: bool)
        ensures
            r == self.verbose,
    {
        self.verbose
    }
}

// ---- peaks ----

/// A local maximum of the spectrogram.
#[derive(Debug, Clone, Copy, PartialEq, Eq, Structural)]
pub struct Peak {
    pub time_idx: usize,
    pub freq_bin_idx: usize,
}

/// Magnitudes of a spectrogram.
pub open spec fn rows_of(spectrogram: Seq<Vec<i32>>) -> Seq<Seq<i32>> {
    spectrogram.map_values(|r: Vec<i32>| r@)
}

/// The cell `(nt, nf)` does not stand in the way of `(t, f)`: it is smaller,
/// or as large and comes later.
pub open spec fn yields_to(s: Seq<Seq<i32>>, nt: int, nf: int, t: int, f: int) -> bool {
    s[nt][nf] < s[t][f] || (s[nt][nf] == s[t][f] && (nt > t || (nt == t && nf >= f)))
}

/// The cell `(nt, nf)` lies in the neighbourhood of `(t, f)`.
pub open spec fn is_near(nt: int, nf: int, t: int, f: int, rt: int, rf: int) -> bool {
    t - rt <= nt <= t + rt && f - rf <= nf <= f + rf
}

/// A cell is a peak: loud enough, and the first of the largest in its
/// neighbourhood.
pub open spec fn is_peak(
    s: Seq<Seq<i32>>,
    bins: int,
    rt: int,
    rf: int,
    min: i32,
    t: int,
    f: int,
) -> bool {
    &&& s[t][f] >= min
    &&& forall|nt: int, nf: int|
        0 <= nt < s.len() && 0 <= nf < bins && is_near(nt, nf, t, f, rt, rf) ==> #[trigger] yields_to(
            s,
            nt,
            nf,
            t,
            f,
        )
}

/// The peaks of frame `t` below bin `upto`, by bin.
pub open spec fn frame_peaks(
    s: Seq<Seq<i32>>,
    bins: int,
    rt: int,
    rf: int,
    min: i32,
    t: int,
    upto: int,
) -> Seq<Peak>
    decreases upto,
{
    if upto <= 0 {
        Seq::empty()
    } else {
        let rest = frame_peaks(s, bins, rt, rf, min, t, upto - 1);
        if is_peak(s, bins, rt, rf, min, t, upto - 1) {
            rest.push(Peak { time_idx: t as usize, freq_bin_idx: (upto - 1) as usize })
        } else {
            rest
        }
    }
}

/// The peaks of the first `upto` frames, by time and bin.
pub open spec fn spectrogram_peaks(
    s: Seq<Seq<i32>>,
    bins: int,
    rt: int,
    rf: int,
    min: i32,
    upto: int,
) -> Seq<Peak>
    decreases upto,
{
    if upto <= 0 {
        Seq::empty()
    } else {
        spectrogram_peaks(s, bins, rt, rf, min, upto - 1) + frame_peaks(
            s,
            bins,
            rt,
            rf,
            min,
            upto - 1,
            bins,
        )
    }
}

/// Frames are as wide as the first one, and window arithmetic stays in range.
pub open spec fn spectrogram_ok(s: Seq<Seq<i32>>, rt: int, rf: int) -> bool {
    &&& forall|i: int| 0 <= i < s.len() ==> (#[trigger] s[i]).len() >= s[0].len()
    &&& s.len() + rt < usize::MAX
    &&& s.len() > 0 ==> s[0].len() + rf < usize::MAX
}

fn window_start(at: usize, radius: usize) -> (r: usize)
    ensures
        r == if at >= radius {
            at - radius
        } else {
            0
        },
{
    if at >= radius {
        at - radius
    } else {
        0
    }
}

fn window_end(at: usize, radius: usize, limit: usize) -> (r: usize)
    requires
        at + radius < usize::MAX,
    ensures
        r == if at + radius + 1 <= limit {
            at + radius + 1
        } else {
            limit as int
        },
{
    let end: usize = at + radius + 1;
    if end <= limit {
        end
    } else {
        limit
    }
}

/// Nothing in the neighbourhood stands in the way of the cell.
fn leads(spectrogram: &[Vec<i32>], bins: usize, rt: usize, rf: usize, t: usize, f: usize) -> (r: bool)
    requires
        spectrogram_ok(rows_of(spectrogram@), rt as int, rf as int),
        t < spectrogram.len(),
        f < bins,
        bins == spectrogram[0].len(),
    ensures
        r == forall|nt: int, nf: int|
            0 <= nt < spectrogram.len() && 0 <= nf < bins && is_near(
                nt,
                nf,
                t as int,
                f as int,
                rt as int,
                rf as int,
            ) ==> #[trigger] yields_to(rows_of(spectrogram@), nt, nf, t as int, f as int),
{
    let ghost s = rows_of(spectrogram@);
    assert(s[t as int].len() >= s[0].len());
    let here: i32 = spectrogram[t][f];
    let t0: usize = window_start(t, rt);
    let t1: usize = window_end(t, rt, spectrogram.len());
    let f0: usize = window_start(f, rf);
    let f1: usize = window_end(f, rf, bins);
    let mut nt: usize = t0;
    while nt < t1
        invariant
            s == rows_of(spectrogram@),
            spectrogram_ok(s, rt as int, rf as int),
            bins == spectrogram[0].len(),
            t < spectrogram.len(),
            f < bins,
            here == s[t as int][f as int],
            t0 <= nt <= t1 <= spectrogram.len(),
            f0 <= f1 <= bins,
            t1 <= t + rt + 1,
            t0 >= t - rt,
            f1 <= f + rf + 1,
            f0 >= f - rf,
            forall|a: int, b: int|
                t0 <= a < nt && f0 <= b < f1 ==> #[trigger] yields_to(s, a, b, t as int, f as int),
        decreases t1 - nt,
    {
        let mut nf: usize = f0;
        assert(s[nt as int].len() >= s[0].len());
        while nf < f1
            invariant
                s == rows_of(spectrogram@),
                bins == spectrogram[0].len(),
                s[nt as int].len() >= bins,
                t < spectrogram.len(),
                f < bins,
                here == s[t as int][f as int],
                t0 <= nt < t1 <= spectrogram.len(),
                t1 <= t + rt + 1,
                t0 >= t - rt,
                f1 <= f + rf + 1,
                f0 >= f - rf,
                f0 <= nf <= f1 <= bins,
                forall|b: int|
                    f0 <= b < nf ==> #[trigger] yields_to(s, nt as int, b, t as int, f as int),
            decreases f1 - nf,
        {
            let there: i32 = spectrogram[nt][nf];
            if there > here || (there == here && (nt < t || (nt == t && nf < f))) {
                assert(is_near(nt as int, nf as int, t as int, f as int, rt as int, rf as int));
                assert(!yields_to(s, nt as int, nf as int, t as int, f as int));
                return false;
            }
            nf = nf + 1;
        }
        nt = nt + 1;
    }
    true
}

/// Finds the peaks of a spectrogram.
///
/// Of equal cells in one neighbourhood only the first, by time and bin,
/// counts.
pub fn find_peaks(
    spectrogram: &[Vec<i32>],
    neighborhood_time_radius: usize,
    neighborhood_freq_radius: usize,
    min_magnitude_threshold: i32,
) -> (peaks: Vec<Peak>)
    requires
        spectrogram_ok(
            rows_of(spectrogram@),
            neighborhood_time_radius as int,
            neighborhood_freq_radius as int,
        ),
    ensures
        spectrogram.len() == 0 ==> peaks@.len() == 0,
        spectrogram.len() > 0 ==> peaks@ == spectrogram_peaks(
            rows_of(spectrogram@),
            spectrogram[0].len() as int,
            neighborhood_time_radius as int,
            neighborhood_freq_radius as int,
            min_magnitude_threshold,
            spectrogram.len() as int,
        ),
{
    let mut peaks: Vec<Peak> = Vec::new();
    if spectrogram.len() == 0 {
        return peaks;
    }
    let bins: usize = spectrogram[0].len();
    let ghost s = rows_of(spectrogram@);
    let ghost rt = neighborhood_time_radius as int;
    let ghost rf = neighborhood_freq_radius as int;
    let min: i32 = min_magnitude_threshold;
    let mut t: usize = 0;
    while t < spectrogram.len()
        invariant
            s == rows_of(spectrogram@),
            rt == neighborhood_time_radius,
            rf == neighborhood_freq_radius,
            spectrogram_ok(s, rt, rf),
            spectrogram.len() > 0,
            bins == spectrogram[0].len(),
            t <= spectrogram.len(),
            peaks@ == spectrogram_peaks(s, bins as int, rt, rf, min, t as int),
        decreases spectrogram.len() - t,
    {
        let mut f: usize = 0;
        let ghost before = peaks@;
        assert(before + frame_peaks(s, bins as int, rt, rf, min, t as int, 0) =~= before);
        assert(s[t as int].len() >= s[0].len());
        while f < bins
            invariant
                s == rows_of(spectrogram@),
                rt == neighborhood_time_radius,
                rf == neighborhood_freq_radius,
                spectrogram_ok(s, rt, rf),
                bins == spectrogram[0].len(),
                t < spectrogram.len(),
                s[t as int].len() >= bins,
                f <= bins,
                peaks@ == before + frame_peaks(s, bins as int, rt, rf, min, t as int, f as int),
            decreases bins - f,
        {
            if spectrogram[t][f] >= min && leads(
                spectrogram,
                bins,
                neighborhood_time_radius,
                neighborhood_freq_radius,
                t,
                f,
            ) {
                peaks.push(Peak { time_idx: t, freq_bin_idx: f });
            }
            f = f + 1;
            assert(peaks@ =~= before + frame_peaks(
                s,
                bins as int,
                rt,
                rf,
                min,
                t as int,
                f as int,
            ));
        }
        t = t + 1;
    }
    peaks
}

/// Two peaks never lie in each other's neighbourhood: of equal cells only the
/// first is a peak.
pub proof fn law_peaks_are_apart(
    s: Seq<Seq<i32>>,
    bins: int,
    rt: int,
    rf: int,
    min: i32,
    t: int,
    f: int,
    u: int,
    g: int,
)
    requires
        0 <= t < s.len(),
        0 <= u < s.len(),
        0 <= f < bins,
        0 <= g < bins,
        is_peak(s, bins, rt, rf, min, t, f),
        is_peak(s, bins, rt, rf, min, u, g),
        t != u || f != g,
    ensures
        !is_near(u, g, t, f, rt, rf),
{
    if is_near(u, g, t, f, rt, rf) {
        assert(is_near(t, f, u, g, rt, rf));
        assert(yields_to(s, u, g, t, f));
        assert(yields_to(s, t, f, u, g));
    }
}

// ---- hashes ----

/// A pair hash with the time of its anchor.
#[derive(Debug, Clone, Copy, PartialEq, Eq, Structural)]
pub struct Fingerprint {
    pub hash: u64,
    pub anchor_time_idx: usize,
}

/// The target zone of an anchor.
#[derive(Debug, Clone, Copy, PartialEq, Eq, Structural)]
pub struct Zone {
    pub dt_min_frames: usize,
    pub dt_max_frames: usize,
    pub df_abs_max_bins: usize,
    pub max_pairs_per_anchor: usize,
}

/// Frames from `a` to `b`; zero where `b` is earlier.
pub open spec fn frames_between(a: Peak, b: Peak) -> int {
    if b.time_idx >= a.time_idx {
        b.time_idx - a.time_idx
    } else {
        0
    }
}

pub open spec fn bins_between(a: Peak, b: Peak) -> int {
    if b.freq_bin_idx >= a.freq_bin_idx {
        b.freq_bin_idx - a.freq_bin_idx
    } else {
        a.freq_bin_idx - b.freq_bin_idx
    }
}

/// `b` lies in the target zone of `a`.
pub open spec fn in_zone(zone: Zone, a: Peak, b: Peak) -> bool {
    zone.dt_min_frames <= frames_between(a, b) <= zone.dt_max_frames && bins_between(a, b)
        <= zone.df_abs_max_bins
}

/// The fingerprint of a pair.
pub open spec fn pair_fingerprint(a: Peak, b: Peak) -> Fingerprint {
    Fingerprint {
        hash: legacy_hash_value(
            a.freq_bin_idx as u64,
            b.freq_bin_idx as u64,
            frames_between(a, b) as u64,
        ) as u64,
        anchor_time_idx: a.time_idx,
    }
}

/// The first targets of anchor `i` below `upto`, as many as an anchor takes.
pub open spec fn anchor_pairs(zone: Zone, peaks: Seq<Peak>, i: int, upto: int) -> Seq<Fingerprint>
    decreases upto,
{
    if upto <= i + 1 || upto <= 0 {
        Seq::empty()
    } else {
        let rest = anchor_pairs(zone, peaks, i, upto - 1);
        if rest.len() < zone.max_pairs_per_anchor && in_zone(zone, peaks[i], peaks[upto - 1]) {
            rest.push(pair_fingerprint(peaks[i], peaks[upto - 1]))
        } else {
            rest
        }
    }
}

/// The fingerprints of the first `n` anchors.
pub open spec fn all_hashes(zone: Zone, peaks: Seq<Peak>, n: int) -> Seq<Fingerprint>
    decreases n,
{
    if n <= 0 {
        Seq::empty()
    } else {
        all_hashes(zone, peaks, n - 1) + anchor_pairs(zone, peaks, n - 1, peaks.len() as int)
    }
}

/// Once an anchor has all its pairs, later peaks do not matter.
proof fn lemma_full_anchor(zone: Zone, peaks: Seq<Peak>, i: int, from: int, upto: int)
    requires
        i + 1 <= from <= upto,
        0 <= i,
        anchor_pairs(zone, peaks, i, from).len() >= zone.max_pairs_per_anchor,
    ensures
        anchor_pairs(zone, peaks, i, upto) == anchor_pairs(zone, peaks, i, from),
    decreases upto,
{
    if from < upto {
        lemma_full_anchor(zone, peaks, i, from, upto - 1);
    }
}

/// Pairs each peak with the first later ones in its target zone.
pub fn create_hashes(
    peaks: &[Peak],
    dt_min_frames: usize,
    dt_max_frames: usize,
    df_abs_max_bins: usize,
    max_pairs_per_anchor: usize,
) -> (fingerprints: Vec<Fingerprint>)
    ensures
        fingerprints@ == all_hashes(
            Zone { dt_min_frames, dt_max_frames, df_abs_max_bins, max_pairs_per_anchor },
            peaks@,
            peaks.len() as int,
        ),
{
    let ghost zone = Zone { dt_min_frames, dt_max_frames, df_abs_max_bins, max_pairs_per_anchor };
    let mut fingerprints: Vec<Fingerprint> = Vec::new();
    let n: usize = peaks.len();
    let mut i: usize = 0;
    while i < n
        invariant
            i <= n,
            n == peaks.len(),
            zone == (Zone {
                dt_min_frames,
                dt_max_frames,
                df_abs_max_bins,
                max_pairs_per_anchor,
            }),
            fingerprints@ == all_hashes(zone, peaks@, i as int),
        decreases n - i,
    {
        let a: Peak = peaks[i];
        let ghost before = fingerprints@;
        let mut found: usize = 0;
        let mut j: usize = i + 1;
        assert(before + anchor_pairs(zone, peaks@, i as int, j as int) =~= before);
        while j < n && found < max_pairs_per_anchor
            invariant
                i < j <= n,
                n == peaks.len(),
                a == peaks[i as int],
                zone == (Zone {
                    dt_min_frames,
                    dt_max_frames,
                    df_abs_max_bins,
                    max_pairs_per_anchor,
                }),
                found <= j,
                found == anchor_pairs(zone, peaks@, i as int, j as int).len(),
                fingerprints@ == before + anchor_pairs(zone, peaks@, i as int, j as int),
            decreases n - j,
        {
            let b: Peak = peaks[j];
            let dt: usize = if b.time_idx >= a.time_idx {
                b.time_idx - a.time_idx
            } else {
                0
            };
            let df: usize = if b.freq_bin_idx >= a.freq_bin_idx {
                b.freq_bin_idx - a.freq_bin_idx
            } else {
                a.freq_bin_idx - b.freq_bin_idx
            };
            if dt >= dt_min_frames && dt <= dt_max_frames && df <= df_abs_max_bins {
                let hash: u64 = pack_legacy_hash(
                    a.freq_bin_idx as u64,
                    b.freq_bin_idx as u64,
                    dt as u64,
                );
                fingerprints.push(Fingerprint { hash, anchor_time_idx: a.time_idx });
                found = found + 1;
            }
            j = j + 1;
            assert(fingerprints@ =~= before + anchor_pairs(zone, peaks@, i as int, j as int));
        }
        proof {
            if j < n {
                lemma_full_anchor(zone, peaks@, i as int, j as int, n as int);
            }
        }
        i = i + 1;
    }
    fingerprints
}

/// An anchor never has more fingerprints than it may.
pub proof fn law_pairs_are_capped(zone: Zone, peaks: Seq<Peak>, i: int, upto: int)
    ensures
        anchor_pairs(zone, peaks, i, upto).len() <= zone.max_pairs_per_anchor,
    decreases upto,
{
    if upto > i + 1 && upto > 0 {
        law_pairs_are_capped(zone, peaks, i, upto - 1);
    }
}

// ---- matching ----

/// A song of the database.
#[derive(Debug)]
pub struct Song {
    pub id: u32,
    pub name: String,
    pub file_path: Option<String>,
}

/// The song that a query matches, and where.
#[derive(Debug, Clone, Copy, PartialEq, Eq, Structural)]
pub struct MatchResult {
    pub song_id: u32,
    /// Hashes that agree on the offset.
    pub score: usize,
    pub time_offset_in_song_frames: i64,
}

/// One stored fingerprint that shares a hash with the query.
#[derive(Debug, Clone, Copy, PartialEq, Eq, Structural)]
pub struct Hit {
    pub song: u32,
    /// Stored anchor time less query anchor time.
    pub delta: i64,
}

impl Ranked for Hit {
    open spec fn leq(a: Hit, b: Hit) -> bool {
        if a.song != b.song {
            a.song < b.song
        } else {
            a.delta <= b.delta
        }
    }

    proof fn total_order() {
    }

    fn is_leq(&self, other: &Hit) -> (r: bool) {
        if self.song != other.song {
            self.song < other.song
        } else {
            self.delta <= other.delta
        }
    }
}

pub open spec fn same_hit(h: Hit) -> spec_fn(Hit) -> bool {
    |x: Hit| x == h
}

/// How many hits agree with `h` on song and offset.
pub open spec fn votes_for(hits: Seq<Hit>, h: Hit) -> nat {
    count_where(hits, same_hit(h))
}

/// `h` has the most votes; of equal ones it is the first by song and offset.
pub open spec fn is_best_hit(hits: Seq<Hit>, h: Hit) -> bool {
    &&& hits.contains(h)
    &&& forall|x: Hit| #[trigger]
        hits.contains(x) ==> votes_for(hits, x) < votes_for(hits, h) || (votes_for(hits, x)
            == votes_for(hits, h) && Hit::leq(h, x))
}

/// Offset histograms of a query against the songs of a database.
#[derive(Debug)]
pub struct OffsetHistogram {
    hits: Vec<Hit>,
}

impl View for OffsetHistogram {
    type V = Seq<Hit>;

    closed spec fn view(&self) -> Seq<Hit> {
        self.hits@
    }
}

/// End of the stretch of equal hits that starts at `lo`.
fn stretch_end(s: &Vec<Hit>, lo: usize) -> (hi: usize)
    requires
        ordered(s@),
        lo < s.len(),
        forall|i: int| 0 <= i < lo ==> #[trigger] s[i] != s[lo as int],
    ensures
        lo < hi <= s.len(),
        hi - lo == votes_for(s@, s[lo as int]),
        forall|i: int| lo <= i < hi ==> #[trigger] s[i] == s[lo as int],
        forall|i: int| hi <= i < s.len() ==> #[trigger] s[i] != s[lo as int],
{
    let h: Hit = s[lo];
    let mut hi: usize = lo;
    while hi < s.len() && s[hi].song == h.song && s[hi].delta == h.delta
        invariant
            lo <= hi <= s.len(),
            lo < s.len(),
            h == s[lo as int],
            forall|i: int| lo <= i < hi ==> #[trigger] s[i] == h,
        decreases s.len() - hi,
    {
        hi = hi + 1;
    }
    proof {
        assert forall|i: int| hi <= i < s.len() implies #[trigger] s[i] != h by {
            assert(Hit::leq(s[lo as int], s[hi as int]));
            if i > hi {
                assert(Hit::leq(s[hi as int], s[i]));
            }
        }
        let p = same_hit(h);
        crate::sort::lemma_sum_range(s@, lo as int, hi as int, p, |x: Hit| 1nat);
        lemma_count_all(s@.subrange(lo as int, hi as int), p);
    }
    hi
}

proof fn lemma_count_all(s: Seq<Hit>, p: spec_fn(Hit) -> bool)
    requires
        forall|i: int| 0 <= i < s.len() ==> p(#[trigger] s[i]),
    ensures
        count_where(s, p) == s.len(),
    decreases s.len(),
{
    if s.len() > 0 {
        assert(p(s[s.len() - 1]));
        assert forall|i: int| 0 <= i < s.drop_last().len() implies p(
            #[trigger] s.drop_last()[i],
        ) by {
            assert(s.drop_last()[i] == s[i]);
        }
        lemma_count_all(s.drop_last(), p);
    }
}

impl OffsetHistogram {
    pub fn new() -> (h: Self)
        ensures
            h@.len() == 0,
    {
        OffsetHistogram { hits: Vec::new() }
    }

    /// Counts a stored fingerprint that shares a hash with the query.
    pub fn count(&mut self, song_id: u32, db_anchor_time: u64, query_anchor_time: u64)
        requires
            db_anchor_time <= i64::MAX,
            query_anchor_time <= i64::MAX,
        ensures
            final(self)@ == old(self)@.push(
                Hit { song: song_id, delta: (db_anchor_time - query_anchor_time) as i64 },
            ),
    {
        let delta: i64 = db_anchor_time as i64 - query_anchor_time as i64;
        self.hits.push(Hit { song: song_id, delta });
    }

    /// The song and offset that most hits agree on, if they are at least
    /// `min_match_score`. Of equal ones the first by song and offset is
    /// taken.
    pub fn best(&self, min_match_score: usize) -> (result: Option<MatchResult>)
        ensures
            result matches Some(m) ==> {
                let h = Hit { song: m.song_id, delta: m.time_offset_in_song_frames };
                &&& is_best_hit(self@, h)
                &&& m.score == votes_for(self@, h)
                &&& m.score >= min_match_score
            },
            result is None ==> self@.len() == 0 || forall|h: Hit| #[trigger]
                self@.contains(h) ==> votes_for(self@, h) < min_match_score,
    {
        let s: Vec<Hit> = sorted(&self.hits);
        proof {
            lemma_permuted_contains(s@, self.hits@);
        }
        if s.len() == 0 {
            return None;
        }
        let mut best: Hit = s[0];
        let mut score: usize = 0;
        let mut at: usize = 0;
        let ghost mut place: int = 0;
        while at < s.len()
            invariant
                at <= s.len(),
                s.len() > 0,
                ordered(s@),
                at == 0 ==> score == 0,
                at > 0 ==> 0 <= place < at && s[place] == best && score == votes_for(s@, best),
                forall|i: int| #![trigger s[i]] 0 <= i < at ==> votes_for(s@, s[i]) < score || (
                votes_for(s@, s[i]) == score && Hit::leq(best, s[i])),
                forall|i: int, j: int|
                    #![trigger s[i], s[j]]
                    0 <= i < at <= j < s.len() ==> s[i] != s[j],
            decreases s.len() - at,
        {
            let ghost before = at as int;
            let hi: usize = stretch_end(&s, at);
            let votes: usize = hi - at;
            if votes > score {
                score = votes;
                best = s[at];
                proof {
                    place = at as int;
                }
            }
            proof {
                Hit::total_order();
                assert forall|i: int| #![trigger s[i]] 0 <= i < hi implies votes_for(s@, s[i])
                    < score || (votes_for(s@, s[i]) == score && Hit::leq(best, s[i])) by {
                    if i >= before {
                        assert(s[i] == s[before]);
                        assert(Hit::leq(s[place], s[before]));
                    }
                }
                assert forall|i: int, j: int|
                    #![trigger s[i], s[j]]
                    0 <= i < hi <= j < s.len() implies s[i] != s[j] by {
                    if i >= before {
                        assert(s[i] == s[before]);
                    }
                }
            }
            at = hi;
        }
        proof {
            crate::sort::lemma_sum_permuted(s@, self.hits@, same_hit(best), |x: Hit| 1nat);
            assert(s@.contains(s[place]));
            assert forall|x: Hit| #[trigger] self.hits@.contains(x) implies votes_for(
                self.hits@,
                x,
            ) < score || (votes_for(self.hits@, x) == score && Hit::leq(best, x)) by {
                assert(s@.contains(x));
                let i = s@.index_of(x);
                assert(s[i] == x);
                crate::sort::lemma_sum_permuted(s@, self.hits@, same_hit(x), |x: Hit| 1nat);
            }
        }
        if score < min_match_score {
            None
        } else {
            Some(
                MatchResult {
                    song_id: best.song,
                    score,
                    time_offset_in_song_frames: best.delta,
                },
            )
        }
    }
}

// ---- enrollment ----

/// What the database answered to the insertion of a song.
#[derive(Debug, Clone, Copy, PartialEq, Eq, Structural)]
pub enum Insertion {
    /// The row id of the song.
    Inserted(i64),
    /// Refused, and the song has no path to look it up by.
    Refused,
    /// Refused, and the path leads to a song.
    Found(i64),
    /// Refused, and the path leads to no song.
    Absent,
    /// Refused, and the lookup failed too.
    LookupFailed,
}

/// Why a song was not enrolled.
#[derive(Debug, Clone, Copy, PartialEq, Eq, Structural)]
pub enum EnrollError {
    NotInserted,
    NotFound,
    LookupFailed,
    NoSongId,
    NoSpectrogram,
    NoPeaks,
    NoFingerprints,
}

/// The song id that the database gave: its low 32 bits; a row id of zero is
/// none.
#[verifier::truncate]
pub fn song_id_of(insertion: Insertion) -> (r: Result<u32, EnrollError>)
    ensures
        match insertion {
            Insertion::Inserted(row) | Insertion::Found(row) => if row == 0 {
                r == Err::<u32, EnrollError>(EnrollError::NoSongId)
            } else {
                r == Ok::<u32, EnrollError>(row as u32)
            },
            Insertion::Refused => r == Err::<u32, EnrollError>(EnrollError::NotInserted),
            Insertion::Absent => r == Err::<u32, EnrollError>(EnrollError::NotFound),
            Insertion::LookupFailed => r == Err::<u32, EnrollError>(EnrollError::LookupFailed),
        },
{
    let row: i64 = match insertion {
        Insertion::Inserted(row) => row,
        Insertion::Found(row) => row,
        Insertion::Refused => {
            return Err(EnrollError::NotInserted);
        },
        Insertion::Absent => {
            return Err(EnrollError::NotFound);
        },
        Insertion::LookupFailed => {
            return Err(EnrollError::LookupFailed);
        },
    };
    if row == 0 {
        Err(EnrollError::NoSongId)
    } else {
        Ok(row as u32)
    }
}

/// The peaks of a song to enroll.
pub open spec fn song_peaks(spectrogram: Seq<Vec<i32>>, peak_params: (usize, usize, i32)) -> Seq<
    Peak,
> {
    spectrogram_peaks(
        rows_of(spectrogram),
        spectrogram[0].len() as int,
        peak_params.0 as int,
        peak_params.1 as int,
        peak_params.2,
        spectrogram.len() as int,
    )
}

/// The fingerprints of a song to enroll, or what it lacks.
pub fn song_fingerprints(
    spectrogram: &[Vec<i32>],
    peak_params: (usize, usize, i32),
    zone: &Zone,
) -> (r: Result<Vec<Fingerprint>, EnrollError>)
    requires
        spectrogram_ok(rows_of(spectrogram@), peak_params.0 as int, peak_params.1 as int),
    ensures
        r matches Err(e) && e == EnrollError::NoSpectrogram <==> spectrogram.len() == 0,
        spectrogram.len() > 0 ==> {
            let peaks = song_peaks(spectrogram@, peak_params);
            let fps = all_hashes(*zone, peaks, peaks.len() as int);
            match r {
                Ok(out) => out@ == fps && fps.len() > 0,
                Err(e) => if peaks.len() == 0 {
                    e == EnrollError::NoPeaks
                } else {
                    e == EnrollError::NoFingerprints && fps.len() == 0
                },
            }
        },
{
    if spectrogram.len() == 0 {
        return Err(EnrollError::NoSpectrogram);
    }
    let peaks: Vec<Peak> = find_peaks(spectrogram, peak_params.0, peak_params.1, peak_params.2);
    if peaks.len() == 0 {
        return Err(EnrollError::NoPeaks);
    }
    let fps: Vec<Fingerprint> = create_hashes(
        &peaks,
        zone.dt_min_frames,
        zone.dt_max_frames,
        zone.df_abs_max_bins,
        zone.max_pairs_per_anchor,
    );
    if fps.len() == 0 {
        return Err(EnrollError::NoFingerprints);
    }
    Ok(fps)
}

// ---- laws ----

/// Cell `(t, f)` leads: it is loud enough, and of all cells within the radii
/// none is larger, and none as large comes earlier, by time and then by bin.
pub open spec fn leads_its_neighbours(
    s: Seq<Seq<i32>>,
    bins: int,
    rt: int,
    rf: int,
    min: i32,
    t: int,
    f: int,
) -> bool {
    &&& s[t][f] >= min
    &&& forall|u: int, g: int|
        #![trigger s[u][g]]
        0 <= u < s.len() && 0 <= g < bins && t - rt <= u <= t + rt && f - rf <= g <= f + rf ==> {
            &&& s[u][g] <= s[t][f]
            &&& s[u][g] == s[t][f] ==> t < u || (t == u && f <= g)
        }
}

/// The peak is listed.
pub open spec fn lists_peak(peaks: Seq<Peak>, t: int, f: int) -> bool {
    exists|i: int|
        0 <= i < peaks.len() && (#[trigger] peaks[i]).time_idx == t && peaks[i].freq_bin_idx == f
}

proof fn lemma_leads(
    s: Seq<Seq<i32>>,
    bins: int,
    rt: int,
    rf: int,
    min: i32,
    t: int,
    f: int,
)
    ensures
        is_peak(s, bins, rt, rf, min, t, f) <==> leads_its_neighbours(s, bins, rt, rf, min, t, f),
{
    if is_peak(s, bins, rt, rf, min, t, f) {
        assert forall|u: int, g: int|
            #![trigger s[u][g]]
            0 <= u < s.len() && 0 <= g < bins && t - rt <= u <= t + rt && f - rf <= g <= f
                + rf implies {
            &&& s[u][g] <= s[t][f]
            &&& s[u][g] == s[t][f] ==> t < u || (t == u && f <= g)
        } by {
            assert(is_near(u, g, t, f, rt, rf));
            assert(yields_to(s, u, g, t, f));
        }
    }
    if leads_its_neighbours(s, bins, rt, rf, min, t, f) {
        assert forall|u: int, g: int|
            0 <= u < s.len() && 0 <= g < bins && is_near(u, g, t, f, rt, rf) implies #[trigger] yields_to(
            s,
            u,
            g,
            t,
            f,
        ) by {
            assert(s[u][g] <= s[t][f]);
        }
    }
}

/// The peaks of a spectrogram are the cells that lead their neighbours, all
/// of them, each once, by time and then by bin.
pub proof fn law_peaks_lead_their_neighbours(
    s: Seq<Seq<i32>>,
    bins: int,
    rt: int,
    rf: int,
    min: i32,
    upto: int,
)
    requires
        0 <= upto <= s.len() <= usize::MAX,
        0 <= bins <= usize::MAX,
    ensures
        forall|t: int, f: int| #[trigger]
            lists_peak(spectrogram_peaks(s, bins, rt, rf, min, upto), t, f) <==> 0 <= t < upto && 0
                <= f < bins && leads_its_neighbours(s, bins, rt, rf, min, t, f),
        forall|i: int, j: int|
            #![trigger spectrogram_peaks(s, bins, rt, rf, min, upto)[i], spectrogram_peaks(s, bins, rt, rf, min, upto)[j]]
            0 <= i < j < spectrogram_peaks(s, bins, rt, rf, min, upto).len() ==> {
                let a = spectrogram_peaks(s, bins, rt, rf, min, upto)[i];
                let b = spectrogram_peaks(s, bins, rt, rf, min, upto)[j];
                a.time_idx < b.time_idx || (a.time_idx == b.time_idx && a.freq_bin_idx
                    < b.freq_bin_idx)
            },
    decreases upto,
{
    let all = spectrogram_peaks(s, bins, rt, rf, min, upto);
    if upto > 0 {
        law_peaks_lead_their_neighbours(s, bins, rt, rf, min, upto - 1);
        lemma_frame_peaks(s, bins, rt, rf, min, upto - 1, bins);
        let old = spectrogram_peaks(s, bins, rt, rf, min, upto - 1);
        let own = frame_peaks(s, bins, rt, rf, min, upto - 1, bins);
        assert forall|t: int, f: int| #[trigger] lists_peak(all, t, f) <==> 0 <= t < upto && 0 <= f
            < bins && leads_its_neighbours(s, bins, rt, rf, min, t, f) by {
            if lists_peak(all, t, f) {
                let i = choose|i: int|
                    0 <= i < all.len() && (#[trigger] all[i]).time_idx == t && all[i].freq_bin_idx
                        == f;
                if i < old.len() {
                    assert(old[i] == all[i]);
                    assert(lists_peak(old, t, f));
                } else {
                    assert(own[i - old.len()] == all[i]);
                    assert(lists_peak(own, t, f));
                }
            }
            if 0 <= t < upto && 0 <= f < bins && leads_its_neighbours(s, bins, rt, rf, min, t, f) {
                if t < upto - 1 {
                    assert(lists_peak(old, t, f));
                    let i = choose|i: int|
                        0 <= i < old.len() && (#[trigger] old[i]).time_idx == t
                            && old[i].freq_bin_idx == f;
                    assert(all[i] == old[i]);
                } else {
                    assert(lists_peak(own, t, f));
                    let i = choose|i: int|
                        0 <= i < own.len() && (#[trigger] own[i]).time_idx == t
                            && own[i].freq_bin_idx == f;
                    assert(all[old.len() + i] == own[i]);
                }
            }
        }
        assert forall|i: int, j: int|
            #![trigger all[i], all[j]]
            0 <= i < j < all.len() implies all[i].time_idx < all[j].time_idx || (all[i].time_idx
            == all[j].time_idx && all[i].freq_bin_idx < all[j].freq_bin_idx) by {
            if j < old.len() {
                assert(old[i] == all[i] && old[j] == all[j]);
            } else {
                assert(own[j - old.len()] == all[j]);
                assert(lists_peak(own, all[j].time_idx as int, all[j].freq_bin_idx as int));
                if i < old.len() {
                    assert(old[i] == all[i]);
                    assert(lists_peak(old, all[i].time_idx as int, all[i].freq_bin_idx as int));
                } else {
                    assert(own[i - old.len()] == all[i]);
                    assert(lists_peak(own, all[i].time_idx as int, all[i].freq_bin_idx as int));
                }
            }
        }
    }
}

proof fn lemma_frame_peaks(
    s: Seq<Seq<i32>>,
    bins: int,
    rt: int,
    rf: int,
    min: i32,
    t: int,
    upto: int,
)
    requires
        0 <= t < s.len() <= usize::MAX,
        0 <= upto <= bins <= usize::MAX,
    ensures
        forall|u: int, f: int| #[trigger]
            lists_peak(frame_peaks(s, bins, rt, rf, min, t, upto), u, f) <==> u == t && 0 <= f
                < upto && leads_its_neighbours(s, bins, rt, rf, min, t, f),
        forall|i: int, j: int|
            #![trigger frame_peaks(s, bins, rt, rf, min, t, upto)[i], frame_peaks(s, bins, rt, rf, min, t, upto)[j]]
            0 <= i < j < frame_peaks(s, bins, rt, rf, min, t, upto).len() ==> frame_peaks(
                s,
                bins,
                rt,
                rf,
                min,
                t,
                upto,
            )[i].freq_bin_idx < frame_peaks(s, bins, rt, rf, min, t, upto)[j].freq_bin_idx,
    decreases upto,
{
    let all = frame_peaks(s, bins, rt, rf, min, t, upto);
    if upto > 0 {
        lemma_frame_peaks(s, bins, rt, rf, min, t, upto - 1);
        lemma_leads(s, bins, rt, rf, min, t, upto - 1);
        let old = frame_peaks(s, bins, rt, rf, min, t, upto - 1);
        assert forall|u: int, f: int| #[trigger] lists_peak(all, u, f) <==> u == t && 0 <= f < upto
            && leads_its_neighbours(s, bins, rt, rf, min, t, f) by {
            if lists_peak(all, u, f) {
                let i = choose|i: int|
                    0 <= i < all.len() && (#[trigger] all[i]).time_idx == u && all[i].freq_bin_idx
                        == f;
                if i < old.len() {
                    assert(old[i] == all[i]);
                    assert(lists_peak(old, u, f));
                }
            }
            if u == t && 0 <= f < upto && leads_its_neighbours(s, bins, rt, rf, min, t, f) {
                if f < upto - 1 {
                    assert(lists_peak(old, u, f));
                    let i = choose|i: int|
                        0 <= i < old.len() && (#[trigger] old[i]).time_idx == u
                            && old[i].freq_bin_idx == f;
                    assert(all[i] == old[i]);
                } else {
                    assert(all[old.len() as int].freq_bin_idx == f);
                }
            }
        }
        assert forall|i: int, j: int|
            #![trigger all[i], all[j]]
            0 <= i < j < all.len() implies all[i].freq_bin_idx < all[j].freq_bin_idx by {
            assert(old[i] == all[i]);
            assert(lists_peak(old, all[i].time_idx as int, all[i].freq_bin_idx as int));
            if j < old.len() {
                assert(old[j] == all[j]);
            }
        }
    }
}

/// `b` can be the target of `a`: between the least and the greatest number of
/// frames later, an earlier one counting as no frames later, and within so
/// many bins.
pub open spec fn is_target(zone: Zone, a: Peak, b: Peak) -> bool {
    let dt = if b.time_idx >= a.time_idx {
        b.time_idx - a.time_idx
    } else {
        0
    };
    &&& zone.dt_min_frames <= dt <= zone.dt_max_frames
    &&& a.freq_bin_idx - b.freq_bin_idx <= zone.df_abs_max_bins
    &&& b.freq_bin_idx - a.freq_bin_idx <= zone.df_abs_max_bins
}

/// An anchor is paired with the first of its targets behind it, as many as it
/// may have; each pair carries the bins of both, their distance in time, and
/// the time of the anchor.
pub proof fn law_anchors_are_paired_with_their_first_targets(
    zone: Zone,
    peaks: Seq<Peak>,
    i: int,
    upto: int,
    k: int,
)
    requires
        0 <= i < upto <= peaks.len() <= usize::MAX,
    ensures
        ({
            let targets = peaks.subrange(i + 1, upto).filter(|b: Peak| is_target(zone, peaks[i], b));
            let pairs = anchor_pairs(zone, peaks, i, upto);
            &&& pairs.len() == if targets.len() <= zone.max_pairs_per_anchor {
                targets.len()
            } else {
                zone.max_pairs_per_anchor as nat
            }
            &&& 0 <= k < pairs.len() ==> {
                let (a, b) = (peaks[i], targets[k]);
                let dt = if b.time_idx >= a.time_idx {
                    b.time_idx - a.time_idx
                } else {
                    0
                };
                &&& pairs[k].anchor_time_idx == a.time_idx
                &&& pairs[k].hash == 262_144 * (a.freq_bin_idx as int % 1024) + 256 * (
                b.freq_bin_idx as int % 1024) + (dt % 256)
            }
        }),
    decreases upto,
{
    reveal(Seq::filter);
    let p = |b: Peak| is_target(zone, peaks[i], b);
    if upto == i + 1 {
        assert(peaks.subrange(i + 1, upto) =~= Seq::<Peak>::empty());
    } else {
        let b = peaks[upto - 1];
        law_anchors_are_paired_with_their_first_targets(zone, peaks, i, upto - 1, k);
        assert(peaks.subrange(i + 1, upto).drop_last() =~= peaks.subrange(i + 1, upto - 1));
        assert(peaks.subrange(i + 1, upto).last() == b);
        assert(in_zone(zone, peaks[i], b) == is_target(zone, peaks[i], b));
        let old = peaks.subrange(i + 1, upto - 1).filter(p);
        let rest = anchor_pairs(zone, peaks, i, upto - 1);
        law_pairs_are_capped(zone, peaks, i, upto - 1);
        law_pairs_are_capped(zone, peaks, i, upto);
        if 0 <= k < rest.len() {
            assert(peaks.subrange(i + 1, upto).filter(p)[k] == old[k]);
            assert(anchor_pairs(zone, peaks, i, upto)[k] == rest[k]);
        }
    }
}

/// Every anchor is paired: the fingerprints of a song are those of each of its
/// peaks, one after the other.
pub proof fn law_every_peak_is_an_anchor(
    zone: Zone,
    peaks: Seq<Peak>,
    n: int,
    fp: Fingerprint,
)
    requires
        0 <= n <= peaks.len(),
    ensures
        all_hashes(zone, peaks, n).contains(fp) <==> exists|i: int|
            0 <= i < n && #[trigger] anchor_pairs(zone, peaks, i, peaks.len() as int).contains(fp),
        n < peaks.len() ==> all_hashes(zone, peaks, n + 1).len() == all_hashes(zone, peaks, n).len()
            + anchor_pairs(zone, peaks, n, peaks.len() as int).len(),
    decreases n,
{
    if n > 0 {
        law_every_peak_is_an_anchor(zone, peaks, n - 1, fp);
        let old = all_hashes(zone, peaks, n - 1);
        let own = anchor_pairs(zone, peaks, n - 1, peaks.len() as int);
        if old.contains(fp) {
            assert((old + own)[old.index_of(fp)] == fp);
        }
        if own.contains(fp) {
            assert((old + own)[old.len() + own.index_of(fp)] == fp);
        }
        if (old + own).contains(fp) {
            let k = (old + own).index_of(fp);
            if k < old.len() {
                assert(old[k] == fp);
            } else {
                assert(own[k - old.len()] == fp);
            }
        }
    }
}

/// How many hits agree on a song and an offset.
pub open spec fn agreeing(hits: Seq<Hit>, song: u32, delta: i64) -> nat {
    hits.filter(|x: Hit| x.song == song && x.delta == delta).len()
}

/// The best hit is one of the hits; no song and offset has more that agree on
/// it, and of those with as many it has the lowest song, then the lowest
/// offset.
pub proof fn law_most_hits_win(hits: Seq<Hit>, h: Hit, x: Hit)
    requires
        is_best_hit(hits, h),
        hits.contains(x),
    ensures
        hits.contains(h),
        votes_for(hits, h) == agreeing(hits, h.song, h.delta),
        agreeing(hits, x.song, x.delta) <= agreeing(hits, h.song, h.delta),
        agreeing(hits, x.song, x.delta) == agreeing(hits, h.song, h.delta) ==> h.song < x.song || (
        h.song == x.song && h.delta <= x.delta),
{
    lemma_agreeing(hits, h);
    lemma_agreeing(hits, x);
}

proof fn lemma_agreeing(hits: Seq<Hit>, h: Hit)
    ensures
        votes_for(hits, h) == agreeing(hits, h.song, h.delta),
    decreases hits.len(),
{
    reveal(Seq::filter);
    if hits.len() > 0 {
        lemma_agreeing(hits.drop_last(), h);
    }
}

/// The peaks that a song is enrolled with are those of its whole spectrogram,
/// as wide as its first frame.
pub proof fn law_songs_are_enrolled_with_all_peaks(
    spectrogram: Seq<Vec<i32>>,
    rt: usize,
    rf: usize,
    min: i32,
    t: int,
    f: int,
)
    requires
        0 < spectrogram.len() <= usize::MAX,
    ensures
        lists_peak(song_peaks(spectrogram, (rt, rf, min)), t, f) <==> 0 <= t < spectrogram.len()
            && 0 <= f < spectrogram[0]@.len() && leads_its_neighbours(
            Seq::new(spectrogram.len(), |i: int| spectrogram[i]@),
            spectrogram[0]@.len() as int,
            rt as int,
            rf as int,
            min,
            t,
            f,
        ),
{
    let rows = Seq::new(spectrogram.len(), |i: int| spectrogram[i]@);
    assert(rows =~= rows_of(spectrogram));
    law_peaks_lead_their_neighbours(
        rows,
        spectrogram[0].len() as int,
        rt as int,
        rf as int,
        min,
        spectrogram.len() as int,
    );
}

} // verus!
