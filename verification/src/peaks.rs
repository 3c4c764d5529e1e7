//! Peak detection: linear-time local maxima with adaptive acceptance, in
//! streaming form with constant memory.
//!
//! * local-maximum test via a separable sliding maximum
//! * acceptance by prominence over the frame's median level
//! * density controlled by keeping the strongest survivors of each frame
//!
//! [`PeakStreamer`] decides frame `t` once frame `t + time_radius` has
//! arrived, holding only the rows that a decision can still need. The batch
//! [`find_peaks_v2`] is a thin wrapper over the streamer. End-of-stream
//! frames use truncated windows.
//!
//! A cell carries its magnitude as an integer that orders as magnitudes do,
//! and its level in millionths of a decibel.
use vstd::prelude::*;

use crate::sliding_max::{below, is_centered_max, is_max, lesser, SlidingMaxScratch};
use crate::sort::{count_where, permuted, sorted, sum_where, Ranked};
use std::collections::VecDeque;

verus! {

/// One spectrogram cell.
#[derive(Debug, Clone, Copy, PartialEq, Eq, Structural)]
pub struct Cell {
    /// Orders as the linear magnitude.
    pub mag: i32,
    /// Level in millionths of a decibel.
    pub level: i32,
}

impl Ranked for Cell {
    open spec fn leq(a: Cell, b: Cell) -> bool {
        a.mag < b.mag || (a.mag == b.mag && a.level <= b.level)
    }

    proof fn total_order() {
    }

    fn is_leq(&self, other: &Cell) -> (r: bool) {
        self.mag < other.mag || (self.mag == other.mag && self.level <= other.level)
    }
}

/// A spectral event: one (frame, bin) cell.
#[derive(Debug, Clone, Copy, PartialEq, Eq, Structural)]
pub struct Peak {
    pub time_idx: usize,
    pub freq_bin_idx: usize,
    /// Magnitude of the cell.
    pub magnitude: i32,
    /// Cell level above its frame's median level. A uniform gain shifts cell
    /// and floor equally, so this does not depend on gain.
    pub prominence: i64,
}

/// Acceptance parameters. Levels are in millionths of a decibel.
#[derive(Debug, Clone, Copy, PartialEq, Eq, Structural)]
pub struct PeaksV2Config {
    /// Neighbourhood radius along time (frames).
    pub time_radius: usize,
    /// Neighbourhood radius along frequency (bins).
    pub freq_radius: usize,
    /// Required margin above the frame's median level.
    pub min_prominence: i64,
    /// Level below which cells are never peaks.
    pub absolute_floor: i64,
    /// Keep at most this many peaks per frame.
    pub max_peaks_per_frame: usize,
    /// Background suppression: a candidate must exceed the minimum level that
    /// its own bin touched over this many trailing frames. Stationary content
    /// never dips, so it stays pinned at that floor. Zero disables.
    pub background_min_window_frames: usize,
    /// Required margin over the per-bin background.
    pub background_margin: i64,
    /// A candidate must lie within this distance of the frame's strongest
    /// bin. Zero or less disables.
    pub relative_floor: i64,
}

impl Default for PeaksV2Config {
    fn default() -> (c: Self)
        ensures
            c == default_peaks(),
    {
        PeaksV2Config {
            time_radius: 2,
            freq_radius: 5,
            min_prominence: 8_000_000,
            absolute_floor: i64::MIN,
            max_peaks_per_frame: 8,
            background_min_window_frames: 0,
            background_margin: 0,
            relative_floor: 0,
        }
    }
}

/// The pure detector: background suppression and relative floor off.
pub open spec fn default_peaks() -> PeaksV2Config {
    PeaksV2Config {
        time_radius: 2,
        freq_radius: 5,
        min_prominence: 8_000_000,
        absolute_floor: i64::MIN,
        max_peaks_per_frame: 8,
        background_min_window_frames: 0,
        background_margin: 0,
        relative_floor: 0,
    }
}

pub open spec fn cell_order() -> spec_fn(Cell, Cell) -> bool {
    |a: Cell, b: Cell| Cell::leq(a, b)
}

/// Level of the median cell: the middle of the cells in ascending order.
pub open spec fn floor_level(frame: Seq<Cell>) -> i32 {
    frame.sort_by(cell_order())[frame.len() as int / 2].level
}

/// The highest level of a frame.
pub open spec fn top_level(frame: Seq<Cell>) -> i32
    decreases frame.len(),
{
    if frame.len() == 0 {
        i32::MIN
    } else if top_level(frame.drop_last()) >= frame.last().level {
        top_level(frame.drop_last())
    } else {
        frame.last().level
    }
}

/// The lowest level of bin `b` over the given frames.
pub open spec fn background(frames: Seq<Seq<Cell>>, b: int) -> i32
    decreases frames.len(),
{
    if frames.len() == 0 {
        i32::MAX
    } else if background(frames.drop_last(), b) <= frames.last()[b].level {
        background(frames.drop_last(), b)
    } else {
        frames.last()[b].level
    }
}

/// Nothing within `radius` bins of `b` is larger than `m`.
pub open spec fn row_below(frame: Seq<Cell>, radius: int, b: int, m: i32) -> bool {
    forall|c: int|
        below(b, radius) <= c < lesser(b + radius + 1, frame.len() as int) ==> (
        #[trigger] frame[c]).mag <= m
}

/// Cell `(t, b)` is a maximum of its neighbourhood, as far as frames have
/// arrived.
pub open spec fn is_local_max(cfg: PeaksV2Config, log: Seq<Seq<Cell>>, t: int, b: int) -> bool {
    forall|u: int|
        below(t, cfg.time_radius as int) <= u < lesser(
            t + cfg.time_radius + 1,
            log.len() as int,
        ) ==> row_below(#[trigger] log[u], cfg.freq_radius as int, b, log[t][b].mag)
}

/// The frames of the window that ends with frame `t`.
pub open spec fn trailing(log: Seq<Seq<Cell>>, t: int, window: int) -> Seq<Seq<Cell>> {
    log.take(t + 1).skip(below(t + 1, window))
}

/// Cell `(t, b)` passes every acceptance test, given the frames that have
/// arrived. Its background is that of its own instant: the window trails the
/// frame itself, whatever has arrived since.
pub open spec fn accepted(cfg: PeaksV2Config, log: Seq<Seq<Cell>>, t: int, b: int) -> bool {
    let level = log[t][b].level;
    &&& is_local_max(cfg, log, t, b)
    &&& level >= cfg.absolute_floor
    &&& cfg.relative_floor > 0 ==> top_level(log[t]) - level <= cfg.relative_floor
    &&& cfg.background_min_window_frames > 0 ==> level - background(
        trailing(log, t, cfg.background_min_window_frames as int),
        b,
    ) >= cfg.background_margin
    &&& level - floor_level(log[t]) >= cfg.min_prominence
}

/// The accepted bins below `upto`, ascending.
pub open spec fn candidates(cfg: PeaksV2Config, log: Seq<Seq<Cell>>, t: int, upto: int) -> Seq<
    int,
>
    decreases upto,
{
    if upto <= 0 {
        Seq::empty()
    } else if accepted(cfg, log, t, upto - 1) {
        candidates(cfg, log, t, upto - 1).push(upto - 1)
    } else {
        candidates(cfg, log, t, upto - 1)
    }
}

/// Bin `a` is stronger than bin `b`: larger, or as large and lower.
pub open spec fn stronger_than(frame: Seq<Cell>, b: int) -> spec_fn(int) -> bool {
    |a: int| frame[a].mag > frame[b].mag || (frame[a].mag == frame[b].mag && a < b)
}

/// The bins that density control keeps: those with fewer than `limit`
/// stronger ones among the candidates.
pub open spec fn strongest(frame: Seq<Cell>, bins: Seq<int>, limit: int) -> Seq<int> {
    bins.filter(|b: int| count_where(bins, stronger_than(frame, b)) < limit)
}

pub open spec fn peak_of(log: Seq<Seq<Cell>>, t: int, b: int) -> Peak {
    Peak {
        time_idx: t as usize,
        freq_bin_idx: b as usize,
        magnitude: log[t][b].mag,
        prominence: (log[t][b].level - floor_level(log[t])) as i64,
    }
}

/// The peaks of frame `t`, decided when the frames of `log` have arrived.
pub open spec fn decided(cfg: PeaksV2Config, log: Seq<Seq<Cell>>, t: int) -> Seq<Peak> {
    strongest(
        log[t],
        candidates(cfg, log, t, log[t].len() as int),
        cfg.max_peaks_per_frame as int,
    ).map_values(|b: int| peak_of(log, t, b))
}

/// The peaks of frames `from..to`, decided when the frames of `log` have
/// arrived.
pub open spec fn decided_range(cfg: PeaksV2Config, log: Seq<Seq<Cell>>, from: int, to: int) -> Seq<
    Peak,
>
    decreases to - from,
{
    if from >= to {
        Seq::empty()
    } else {
        decided_range(cfg, log, from, to - 1) + decided(cfg, log, to - 1)
    }
}

/// One frame as the streamer keeps it.
struct Row {
    cells: Vec<Cell>,
    /// Maximum along frequency around each bin.
    fmax: Vec<i32>,
    floor: i32,
    top: i32,
}

spec fn mags(frame: Seq<Cell>) -> Seq<i32> {
    frame.map_values(|c: Cell| c.mag)
}

spec fn row_ok(frame: Seq<Cell>, row: Row, freq_radius: int) -> bool {
    &&& row.cells@ == frame
    &&& is_centered_max(mags(frame), freq_radius, row.fmax@)
    &&& row.floor == floor_level(frame)
    &&& row.top == top_level(frame)
}

fn median_level(frame: &[Cell]) -> (level: i32)
    requires
        frame.len() > 0,
    ensures
        level == floor_level(frame@),
{
    let in_order: Vec<Cell> = sorted(frame);
    proof {
        let leq = cell_order();
        Cell::total_order();
        frame@.lemma_sort_by_ensures(leq);
        assert(vstd::relations::sorted_by(in_order@, leq)) by {
            assert forall|i: int, j: int| 0 <= i < j < in_order.len() implies #[trigger] leq(
                in_order[i],
                in_order[j],
            ) by {
                assert(Cell::leq(in_order[i], in_order[j]));
            }
        }
        vstd::seq_lib::lemma_sorted_unique(in_order@, frame@.sort_by(leq), leq);
        crate::sort::lemma_permuted_contains(in_order@, frame@);
    }
    in_order[in_order.len() / 2].level
}

fn highest_level(frame: &[Cell]) -> (top: i32)
    ensures
        top == top_level(frame@),
{
    let mut top: i32 = i32::MIN;
    let mut i: usize = 0;
    while i < frame.len()
        invariant
            i <= frame.len(),
            top == top_level(frame@.take(i as int)),
        decreases frame.len() - i,
    {
        assert(frame@.take(i + 1).drop_last() =~= frame@.take(i as int));
        if frame[i].level > top {
            top = frame[i].level;
        }
        i = i + 1;
    }
    assert(frame@.take(i as int) =~= frame@);
    top
}

/// Streaming peak detector over spectrogram frames.
///
/// Feed one frame at a time; peaks for frame `t` become available once frame
/// `t + time_radius` has been fed, or at [`Self::finish`] with truncated
/// windows. Memory does not grow with the stream.
pub struct PeakStreamer {
    cfg: PeaksV2Config,
    f_len: usize,
    /// Index of the front row.
    oldest: u64,
    /// Index of the next frame to decide.
    next_emit: u64,
    /// Frames fed.
    fed: u64,
    rows: VecDeque<Row>,
    /// Levels of the frames that the background of a frame still to be
    /// decided can need, while background suppression is on.
    history: VecDeque<Vec<i32>>,
    scratch: SlidingMaxScratch,
    /// Every frame fed so far.
    log: Ghost<Seq<Seq<Cell>>>,
}

impl PeakStreamer {
    /// The frames fed so far.
    pub closed spec fn frames(&self) -> Seq<Seq<Cell>> {
        self.log@
    }

    pub closed spec fn config(&self) -> PeaksV2Config {
        self.cfg
    }

    /// Frames decided so far.
    pub closed spec fn emitted(&self) -> nat {
        self.next_emit as nat
    }

    /// Number of bins per frame; zero until it is known.
    pub closed spec fn bins(&self) -> nat {
        self.f_len as nat
    }

    /// Number of rows held.
    pub closed spec fn rows_held(&self) -> nat {
        self.rows@.len()
    }

    /// The first frame of the window that trails the next frame to decide.
    closed spec fn horizon(&self) -> int {
        below(self.next_emit + 1, self.cfg.background_min_window_frames as int)
    }

    /// Rows and history mirror the trailing frames.
    closed spec fn mirrors(&self) -> bool {
        let n = self.log@.len();
        &&& self.fed == n
        &&& self.next_emit <= self.fed
        &&& self.oldest == below(self.next_emit as int, self.cfg.time_radius as int)
        &&& self.rows@.len() == self.fed - self.oldest
        &&& forall|k: int|
            0 <= k < self.rows@.len() ==> row_ok(
                self.log@[self.oldest + k],
                #[trigger] self.rows@[k],
                self.cfg.freq_radius as int,
            )
        &&& forall|k: int| 0 <= k < n ==> (#[trigger] self.log@[k]).len() == self.f_len
        &&& n > 0 ==> self.f_len > 0
        &&& self.cfg.background_min_window_frames > 0 ==> {
            &&& self.history@.len() == n - self.horizon()
            &&& forall|k: int|
                0 <= k < self.history@.len() ==> levels_of(
                    self.log@[self.horizon() + k],
                    #[trigger] self.history@[k]@,
                )
        }
    }

    /// No frame waits longer than its lookahead.
    pub closed spec fn wf(&self) -> bool {
        &&& self.mirrors()
        &&& self.fed - self.next_emit <= self.cfg.time_radius
    }

    /// The frames fed all have the streamer's bins.
    pub proof fn lemma_uniform(&self)
        requires
            self.wf(),
        ensures
            uniform(self.frames(), self.bins() as int),
            self.bins() <= usize::MAX,
            self.emitted() <= self.frames().len(),
            self.frames().len() - self.emitted() <= self.config().time_radius,
    {
    }

    /// Create a streamer for frames of `f_len` bins. Pass zero to size it by
    /// the first frame.
    pub fn new(f_len: usize, cfg: PeaksV2Config) -> (s: Self)
        ensures
            s.wf(),
            s.frames().len() == 0,
            s.config() == cfg,
            s.emitted() == 0,
            s.bins() == f_len,
    {
        PeakStreamer {
            cfg,
            f_len,
            oldest: 0,
            next_emit: 0,
            fed: 0,
            rows: VecDeque::new(),
            history: VecDeque::new(),
            scratch: SlidingMaxScratch::new(),
            log: Ghost(Seq::empty()),
        }
    }

    /// Number of frames fed but not yet decided.
    pub fn pending(&self) -> (n: u64)
        requires
            self.wf(),
        ensures
            n == self.frames().len() - self.emitted(),
            n <= self.config().time_radius,
    {
        self.fed - self.next_emit
    }

    /// Number of rows held: never more than two lookaheads.
    pub fn held(&self) -> (n: usize)
        requires
            self.wf(),
        ensures
            n == self.rows_held(),
            n <= 2 * self.config().time_radius,
    {
        self.rows.len()
    }

    /// Take a frame into rows and history.
    fn push_frame(&mut self, frame: &[Cell])
        requires
            old(self).wf(),
            frame.len() > 0,
            frame.len() == old(self).f_len,
            old(self).fed < u64::MAX,
        ensures
            final(self).mirrors(),
            final(self).cfg == old(self).cfg,
            final(self).f_len == old(self).f_len,
            final(self).next_emit == old(self).next_emit,
            final(self).fed == old(self).fed + 1,
            final(self).log@ == old(self).log@.push(frame@),
    {
        let floor: i32 = median_level(frame);
        let top: i32 = highest_level(frame);
        let mut values: Vec<i32> = Vec::new();
        let mut levels: Vec<i32> = Vec::new();
        let mut cells: Vec<Cell> = Vec::new();
        let mut i: usize = 0;
        while i < frame.len()
            invariant
                i <= frame.len(),
                values.len() == i,
                levels.len() == i,
                cells.len() == i,
                forall|k: int| 0 <= k < i ==> #[trigger] values[k] == frame[k].mag,
                forall|k: int| 0 <= k < i ==> #[trigger] levels[k] == frame[k].level,
                forall|k: int| 0 <= k < i ==> #[trigger] cells[k] == frame[k],
            decreases frame.len() - i,
        {
            let c: Cell = frame[i];
            values.push(c.mag);
            levels.push(c.level);
            cells.push(c);
            i = i + 1;
        }
        assert(values@ =~= mags(frame@));
        assert(cells@ =~= frame@);
        let mut fmax: Vec<i32> = Vec::new();
        self.scratch.centered_into(&values, self.cfg.freq_radius, &mut fmax);
        let row = Row { cells, fmax, floor, top };
        assert(row_ok(frame@, row, self.cfg.freq_radius as int));
        let ghost before = *self;
        self.rows.push_back(row);
        proof {
            self.log@ = self.log@.push(frame@);
        }
        self.fed = self.fed + 1;
        if self.cfg.background_min_window_frames > 0 {
            self.history.push_back(levels);
            proof {
                assert forall|k: int| 0 <= k < self.history@.len() implies levels_of(
                    self.log@[self.horizon() + k],
                    #[trigger] self.history@[k]@,
                ) by {
                    if k < before.history@.len() {
                        assert(self.history@[k]@ == before.history@[k]@);
                        assert(before.log@[before.horizon() + k] == self.log@[self.horizon() + k]);
                    } else {
                        assert(self.history@[k]@ == levels@);
                    }
                }
            }
        }
        proof {
            assert forall|k: int| 0 <= k < self.rows@.len() implies row_ok(
                self.log@[self.oldest + k],
                #[trigger] self.rows@[k],
                self.cfg.freq_radius as int,
            ) by {
                if k < before.rows@.len() {
                    assert(self.rows@[k] == before.rows@[k]);
                    assert(self.log@[self.oldest + k] == before.log@[before.oldest + k]);
                }
            }
        }
    }
}

/// The levels of a frame.
spec fn levels_of(frame: Seq<Cell>, levels: Seq<i32>) -> bool {
    levels.len() == frame.len() && forall|b: int|
        0 <= b < frame.len() ==> #[trigger] levels[b] == frame[b].level
}

/// A row's frequency maximum at `b` tells whether anything around is larger.
proof fn lemma_fmax(frame: Seq<Cell>, radius: int, fmax: Seq<i32>, b: int, m: i32)
    requires
        0 <= radius,
        is_centered_max(mags(frame), radius, fmax),
        0 <= b < frame.len(),
    ensures
        fmax[b] <= m <==> row_below(frame, radius, b, m),
{
    let s = mags(frame);
    let lo = below(b, radius);
    let hi = lesser(b + radius + 1, s.len() as int);
    assert(is_max(s, lo, hi, fmax[b]));
    let j = choose|j: int| lo <= j < hi && #[trigger] s[j] == fmax[b];
    if row_below(frame, radius, b, m) {
        assert(frame[j].mag <= m);
    }
    if fmax[b] <= m {
        assert forall|c: int| lo <= c < hi implies (#[trigger] frame[c]).mag <= m by {
            assert(s[c] <= fmax[b]);
        }
    }
}

impl PeakStreamer {
    /// The cell of row `base` at `b` is a maximum of its neighbourhood.
    fn tops_neighbourhood(&self, base: usize, b: usize) -> (r: bool)
        requires
            self.mirrors(),
            base < self.rows@.len(),
            b < self.f_len,
            self.oldest + base == self.next_emit,
        ensures
            r == is_local_max(self.cfg, self.log@, self.next_emit as int, b as int),
    {
        let ghost t = self.next_emit as int;
        let ghost fr = self.cfg.freq_radius as int;
        let ghost lo_t = below(t, self.cfg.time_radius as int);
        let ghost hi_t = lesser(t + self.cfg.time_radius + 1, self.log@.len() as int);
        let filled: usize = self.rows.len();
        let lo: usize = base.saturating_sub(self.cfg.time_radius);
        let hi: usize = if self.cfg.time_radius < filled - base {
            base + self.cfg.time_radius + 1
        } else {
            filled
        };
        assert(row_ok(self.log@[t], self.rows@[base as int], fr));
        let m: i32 = self.rows[base].cells[b].mag;
        assert(self.oldest + lo == lo_t && self.oldest + hi == hi_t);
        let mut slot: usize = lo;
        while slot < hi
            invariant
                self.mirrors(),
                lo <= slot <= hi <= self.rows@.len(),
                b < self.f_len,
                t == self.next_emit,
                fr == self.cfg.freq_radius,
                m == self.log@[t][b as int].mag,
                lo_t == below(t, self.cfg.time_radius as int),
                hi_t == lesser(t + self.cfg.time_radius + 1, self.log@.len() as int),
                self.oldest + lo == lo_t,
                self.oldest + hi == hi_t,
                forall|u: int|
                    lo_t <= u < self.oldest + slot ==> row_below(
                        #[trigger] self.log@[u],
                        fr,
                        b as int,
                        m,
                    ),
            decreases hi - slot,
        {
            let ghost u = self.oldest + slot;
            proof {
                assert(row_ok(self.log@[u], self.rows@[slot as int], fr));
                lemma_fmax(self.log@[u], fr, self.rows@[slot as int].fmax@, b as int, m);
            }
            if self.rows[slot].fmax[b] > m {
                assert(!row_below(self.log@[u], fr, b as int, m));
                return false;
            }
            slot = slot + 1;
        }
        true
    }

    /// Lowest level of bin `b` over the window that trails the next frame to
    /// decide.
    fn background_level(&self, b: usize) -> (level: i32)
        requires
            self.mirrors(),
            self.next_emit < self.fed,
            self.cfg.background_min_window_frames > 0,
            b < self.f_len,
        ensures
            level == background(
                trailing(
                    self.log@,
                    self.next_emit as int,
                    self.cfg.background_min_window_frames as int,
                ),
                b as int,
            ),
    {
        let window: usize = self.cfg.background_min_window_frames;
        let ghost past = trailing(self.log@, self.next_emit as int, window as int);
        let count: usize = if self.next_emit < window as u64 {
            self.next_emit as usize + 1
        } else {
            window
        };
        let mut level: i32 = i32::MAX;
        let mut k: usize = 0;
        assert(past.len() == count);
        assert(past.take(0) =~= Seq::<Seq<Cell>>::empty());
        while k < count
            invariant
                self.mirrors(),
                self.next_emit < self.fed,
                b < self.f_len,
                k <= count <= self.history@.len(),
                window == self.cfg.background_min_window_frames,
                window > 0,
                past == trailing(self.log@, self.next_emit as int, window as int),
                past.len() == count,
                level == background(past.take(k as int), b as int),
            decreases count - k,
        {
            proof {
                assert(past.take(k + 1).drop_last() =~= past.take(k as int));
                let at = self.horizon() + k;
                assert(past[k as int] == self.log@[at]);
                assert(levels_of(self.log@[at], self.history@[k as int]@));
            }
            let v: i32 = self.history[k][b];
            if v < level {
                level = v;
            }
            k = k + 1;
        }
        assert(past.take(k as int) =~= past);
        level
    }

    /// The cell of row `base` at `b` passes every acceptance test.
    fn passes(&self, base: usize, b: usize) -> (r: bool)
        requires
            self.mirrors(),
            base < self.rows@.len(),
            b < self.f_len,
            self.oldest + base == self.next_emit,
        ensures
            r == accepted(self.cfg, self.log@, self.next_emit as int, b as int),
    {
        let ghost t = self.next_emit as int;
        assert(row_ok(self.log@[t], self.rows@[base as int], self.cfg.freq_radius as int));
        if !self.tops_neighbourhood(base, b) {
            return false;
        }
        let level: i64 = self.rows[base].cells[b].level as i64;
        if level < self.cfg.absolute_floor {
            return false;
        }
        if self.cfg.relative_floor > 0 && self.rows[base].top as i64 - level
            > self.cfg.relative_floor {
            return false;
        }
        if self.cfg.background_min_window_frames > 0 {
            let bg: i32 = self.background_level(b);
            if level - (bg as i64) < self.cfg.background_margin {
                return false;
            }
        }
        level - self.rows[base].floor as i64 >= self.cfg.min_prominence
    }
}

/// Bins as numbers.
spec fn as_bins(v: Seq<usize>) -> Seq<int> {
    v.map_values(|b: usize| b as int)
}

/// Number of candidates stronger than `b`.
fn count_stronger(cells: &Vec<Cell>, bins: &Vec<usize>, b: usize) -> (n: usize)
    requires
        b < cells.len(),
        forall|i: int| 0 <= i < bins.len() ==> #[trigger] bins[i] < cells.len(),
    ensures
        n == count_where(as_bins(bins@), stronger_than(cells@, b as int)),
{
    let ghost p = stronger_than(cells@, b as int);
    let ghost one = |x: int| 1nat;
    let ghost all = as_bins(bins@);
    let mut n: usize = 0;
    let mut i: usize = 0;
    assert(all.take(0) =~= Seq::<int>::empty());
    while i < bins.len()
        invariant
            i <= bins.len(),
            b < cells.len(),
            forall|k: int| 0 <= k < bins.len() ==> #[trigger] bins[k] < cells.len(),
            all == as_bins(bins@),
            p == stronger_than(cells@, b as int),
            one == (|x: int| 1nat),
            n <= i,
            n == sum_where(all.take(i as int), p, one),
        decreases bins.len() - i,
    {
        assert(all.take(i + 1).drop_last() =~= all.take(i as int));
        let a: usize = bins[i];
        if cells[a].mag > cells[b].mag || (cells[a].mag == cells[b].mag && a < b) {
            n = n + 1;
        }
        i = i + 1;
    }
    assert(all.take(i as int) =~= all);
    n
}

/// Density control: the strongest `limit` candidates, in bin order.
fn keep_strongest(cells: &Vec<Cell>, bins: &Vec<usize>, limit: usize) -> (kept: Vec<usize>)
    requires
        forall|i: int| 0 <= i < bins.len() ==> #[trigger] bins[i] < cells.len(),
    ensures
        as_bins(kept@) == strongest(cells@, as_bins(bins@), limit as int),
        forall|i: int| 0 <= i < kept.len() ==> #[trigger] kept[i] < cells.len(),
{
    let ghost all = as_bins(bins@);
    let ghost p = |b: int| count_where(all, stronger_than(cells@, b)) < limit;
    let mut kept: Vec<usize> = Vec::new();
    let mut i: usize = 0;
    proof {
        reveal(Seq::filter);
        assert(all.take(0) =~= Seq::<int>::empty());
        assert(as_bins(kept@) =~= all.take(0).filter(p));
    }
    while i < bins.len()
        invariant
            i <= bins.len(),
            forall|k: int| 0 <= k < bins.len() ==> #[trigger] bins[k] < cells.len(),
            all == as_bins(bins@),
            p == (|b: int| count_where(all, stronger_than(cells@, b)) < limit),
            as_bins(kept@) == all.take(i as int).filter(p),
            forall|k: int| 0 <= k < kept.len() ==> #[trigger] kept[k] < cells.len(),
        decreases bins.len() - i,
    {
        let ghost before = kept@;
        proof {
            reveal(Seq::filter);
            assert(all.take(i + 1).drop_last() =~= all.take(i as int));
        }
        let b: usize = bins[i];
        if count_stronger(cells, bins, b) < limit {
            kept.push(b);
            assert(as_bins(kept@) =~= as_bins(before).push(b as int));
        }
        i = i + 1;
    }
    assert(all.take(i as int) =~= all);
    assert(p =~= (|b: int| count_where(all, stronger_than(cells@, b)) < limit as int));
    kept
}

impl PeakStreamer {
    /// Decide the next frame and drop the rows that no decision can still
    /// need.
    fn decide(&mut self, out: &mut Vec<Peak>)
        requires
            old(self).mirrors(),
            old(self).next_emit < old(self).fed,
        ensures
            final(self).mirrors(),
            final(self).cfg == old(self).cfg,
            final(self).f_len == old(self).f_len,
            final(self).fed == old(self).fed,
            final(self).log == old(self).log,
            final(self).next_emit == old(self).next_emit + 1,
            final(out)@ == old(out)@ + decided(
                old(self).cfg,
                old(self).log@,
                old(self).next_emit as int,
            ),
    {
        let ghost t = self.next_emit as int;
        let ghost log = self.log@;
        let base: usize = (self.next_emit - self.oldest) as usize;
        assert(row_ok(log[t], self.rows@[base as int], self.cfg.freq_radius as int));
        let mut bins: Vec<usize> = Vec::new();
        let mut b: usize = 0;
        assert(as_bins(bins@) =~= candidates(self.cfg, log, t, 0));
        while b < self.f_len
            invariant
                b <= self.f_len,
                self.mirrors(),
                self.next_emit < self.fed,
                log == self.log@,
                t == self.next_emit,
                base == self.next_emit - self.oldest,
                base < self.rows@.len(),
                as_bins(bins@) == candidates(self.cfg, log, t, b as int),
                forall|k: int| 0 <= k < bins.len() ==> #[trigger] bins[k] < self.f_len,
            decreases self.f_len - b,
        {
            let ghost before = bins@;
            if self.passes(base, b) {
                bins.push(b);
                assert(as_bins(bins@) =~= as_bins(before).push(b as int));
            }
            b = b + 1;
        }
        let kept: Vec<usize> = keep_strongest(
            &self.rows[base].cells,
            &bins,
            self.cfg.max_peaks_per_frame,
        );
        let ghost had = out@;
        let ghost fresh = decided(self.cfg, log, t);
        let floor: i32 = self.rows[base].floor;
        let time_idx: usize = self.next_emit as usize;
        let mut i: usize = 0;
        assert(fresh.len() == kept.len());
        while i < kept.len()
            invariant
                i <= kept.len(),
                self.mirrors(),
                base < self.rows@.len(),
                self.rows@[base as int].cells@ == log[t],
                floor == floor_level(log[t]),
                time_idx == t as usize,
                forall|k: int| 0 <= k < kept.len() ==> #[trigger] kept[k] < log[t].len(),
                fresh == as_bins(kept@).map_values(|b: int| peak_of(log, t, b)),
                fresh.len() == kept.len(),
                out@ == had + fresh.take(i as int),
            decreases kept.len() - i,
        {
            let bin: usize = kept[i];
            let c: Cell = self.rows[base].cells[bin];
            out.push(
                Peak {
                    time_idx,
                    freq_bin_idx: bin,
                    magnitude: c.mag,
                    prominence: c.level as i64 - floor as i64,
                },
            );
            assert(fresh.take(i + 1) =~= fresh.take(i as int).push(fresh[i as int]));
            i = i + 1;
        }
        assert(fresh.take(i as int) =~= fresh);
        self.next_emit = self.next_emit + 1;
        let r: u64 = self.cfg.time_radius as u64;
        let keep_from: u64 = self.next_emit.saturating_sub(r);
        let ghost rows = self.rows@;
        let ghost history = self.history@;
        let ghost first = self.oldest as int;
        let ghost start = below(t + 1, self.cfg.background_min_window_frames as int);
        if self.cfg.background_min_window_frames > 0 && self.next_emit
            >= self.cfg.background_min_window_frames as u64 {
            self.history.pop_front();
            proof {
                assert forall|k: int| 0 <= k < self.history@.len() implies levels_of(
                    self.log@[self.horizon() + k],
                    #[trigger] self.history@[k]@,
                ) by {
                    assert(self.history@[k] == history[k + 1]);
                    assert(levels_of(self.log@[start + (k + 1)], history[k + 1]@));
                }
            }
        }
        if self.oldest < keep_from {
            self.rows.pop_front();
            self.oldest = self.oldest + 1;
            proof {
                assert forall|k: int| 0 <= k < self.rows@.len() implies row_ok(
                    self.log@[self.oldest + k],
                    #[trigger] self.rows@[k],
                    self.cfg.freq_radius as int,
                ) by {
                    assert(self.rows@[k] == rows[k + 1]);
                    assert(row_ok(
                        self.log@[first + (k + 1)],
                        rows[k + 1],
                        self.cfg.freq_radius as int,
                    ));
                }
            }
        }
    }

    /// Feed one frame; `out` is cleared and receives the peaks of the frame
    /// that became decidable, if one did. Empty frames are ignored.
    pub fn process_frame(&mut self, frame: &[Cell], out: &mut Vec<Peak>)
        requires
            old(self).wf(),
            old(self).bins() == 0 || frame.len() == old(self).bins(),
            old(self).frames().len() < u64::MAX,
        ensures
            final(self).wf(),
            final(self).config() == old(self).config(),
            final(self).bins() == frame.len(),
            frame.len() == 0 ==> final(out)@.len() == 0 && final(self).frames() == old(
                self,
            ).frames() && final(self).emitted() == old(self).emitted(),
            frame.len() > 0 ==> {
                let log = old(self).frames().push(frame@);
                let t = old(self).emitted() as int;
                &&& final(self).frames() == log
                &&& log.len() - t > old(self).config().time_radius ==> final(self).emitted() == t + 1
                    && final(out)@ == decided(old(self).config(), log, t)
                &&& log.len() - t <= old(self).config().time_radius ==> final(self).emitted() == t
                    && final(out)@.len() == 0
            },
    {
        out.clear();
        if self.f_len == 0 {
            self.f_len = frame.len();
        }
        if frame.len() == 0 {
            return;
        }
        self.push_frame(frame);
        if self.fed - self.next_emit > self.cfg.time_radius as u64 {
            self.decide(out);
            assert(out@ =~= decided(self.cfg, self.log@, self.next_emit - 1));
        }
    }

    /// Decide all remaining frames with truncated windows. To be called once
    /// after the last frame. `out` is cleared first.
    pub fn finish(&mut self, out: &mut Vec<Peak>)
        requires
            old(self).wf(),
        ensures
            final(self).wf(),
            final(self).config() == old(self).config(),
            final(self).bins() == old(self).bins(),
            final(self).frames() == old(self).frames(),
            final(self).emitted() == old(self).frames().len(),
            final(out)@ == decided_range(
                old(self).config(),
                old(self).frames(),
                old(self).emitted() as int,
                old(self).frames().len() as int,
            ),
    {
        out.clear();
        let ghost from = self.next_emit as int;
        let ghost log = self.log@;
        while self.next_emit < self.fed
            invariant
                self.mirrors(),
                self.cfg == old(self).cfg,
                self.f_len == old(self).f_len,
                self.log@ == log,
                old(self).log@ == log,
                from == old(self).next_emit,
                from <= self.next_emit,
                out@ == decided_range(self.cfg, log, from, self.next_emit as int),
            decreases self.fed - self.next_emit,
        {
            self.decide(out);
        }
    }
}

/// The peaks that come out while the first `n` frames of `log` are fed one at
/// a time.
pub open spec fn streamed(cfg: PeaksV2Config, log: Seq<Seq<Cell>>, n: int) -> Seq<Peak>
    decreases n,
{
    if n <= 0 {
        Seq::empty()
    } else {
        streamed(cfg, log, n - 1) + if n > cfg.time_radius {
            decided(cfg, log.take(n), n - 1 - cfg.time_radius)
        } else {
            Seq::empty()
        }
    }
}

/// All peaks of a spectrogram: what comes out while its frames are fed, and
/// what the end of the stream flushes.
pub open spec fn all_peaks(cfg: PeaksV2Config, log: Seq<Seq<Cell>>) -> Seq<Peak> {
    streamed(cfg, log, log.len() as int) + decided_range(
        cfg,
        log,
        below(log.len() as int, cfg.time_radius as int),
        log.len() as int,
    )
}

/// The frames of a spectrogram.
pub open spec fn frames_of(spectrogram: Seq<Vec<Cell>>) -> Seq<Seq<Cell>> {
    spectrogram.map_values(|f: Vec<Cell>| f@)
}

/// Detect peaks over a whole spectrogram. The same results come from feeding
/// the frames through a [`PeakStreamer`].
pub fn find_peaks_v2(spectrogram: &[Vec<Cell>], cfg: &PeaksV2Config) -> (peaks: Vec<Peak>)
    requires
        forall|t: int|
            0 <= t < spectrogram.len() ==> (#[trigger] spectrogram[t]).len()
                == spectrogram[0].len(),
    ensures
        spectrogram.len() > 0 && spectrogram[0].len() > 0 ==> peaks@ == all_peaks(
            *cfg,
            frames_of(spectrogram@),
        ),
        spectrogram.len() == 0 || spectrogram[0].len() == 0 ==> peaks@.len() == 0,
{
    let mut peaks: Vec<Peak> = Vec::new();
    if spectrogram.len() == 0 || spectrogram[0].len() == 0 {
        return peaks;
    }
    let ghost log = frames_of(spectrogram@);
    let mut streamer = PeakStreamer::new(spectrogram[0].len(), *cfg);
    let mut chunk: Vec<Peak> = Vec::new();
    let mut t: usize = 0;
    assert(log.take(0) =~= Seq::<Seq<Cell>>::empty());
    while t < spectrogram.len()
        invariant
            t <= spectrogram.len(),
            log == frames_of(spectrogram@),
            forall|k: int|
                0 <= k < spectrogram.len() ==> (#[trigger] spectrogram[k]).len()
                    == spectrogram[0].len(),
            spectrogram[0].len() > 0,
            streamer.wf(),
            streamer.config() == *cfg,
            streamer.bins() == spectrogram[0].len(),
            streamer.frames() == log.take(t as int),
            streamer.emitted() == below(t as int, cfg.time_radius as int),
            peaks@ == streamed(*cfg, log, t as int),
        decreases spectrogram.len() - t,
    {
        assert(log.take(t + 1) =~= log.take(t as int).push(spectrogram[t as int]@));
        streamer.process_frame(spectrogram[t].as_slice(), &mut chunk);
        peaks.append(&mut chunk);
        t = t + 1;
    }
    assert(log.take(t as int) =~= log);
    streamer.finish(&mut chunk);
    peaks.append(&mut chunk);
    peaks
}

// ---- laws ----

/// A decision depends only on what came before and on its lookahead: waiting
/// for more frames changes nothing.
pub proof fn law_decisions_are_local(cfg: PeaksV2Config, log: Seq<Seq<Cell>>, t: int, n: int)
    requires
        0 <= t,
        t + cfg.time_radius < n <= log.len(),
    ensures
        decided(cfg, log.take(n), t) == decided(cfg, log, t),
{
    let short = log.take(n);
    assert(short[t] == log[t]);
    assert(short.take(t + 1) =~= log.take(t + 1));
    assert forall|b: int| accepted(cfg, short, t, b) == accepted(cfg, log, t, b) by {
        let lo = below(t, cfg.time_radius as int);
        let hi = lesser(t + cfg.time_radius + 1, log.len() as int);
        assert(hi == lesser(t + cfg.time_radius + 1, short.len() as int));
        assert forall|u: int| lo <= u < hi implies short[u] == log[u] by {}
        if is_local_max(cfg, short, t, b) {
            assert forall|u: int| lo <= u < hi implies row_below(
                #[trigger] log[u],
                cfg.freq_radius as int,
                b,
                log[t][b].mag,
            ) by {
                assert(row_below(short[u], cfg.freq_radius as int, b, short[t][b].mag));
            }
        }
        if is_local_max(cfg, log, t, b) {
            assert forall|u: int| lo <= u < hi implies row_below(
                #[trigger] short[u],
                cfg.freq_radius as int,
                b,
                short[t][b].mag,
            ) by {
                assert(row_below(log[u], cfg.freq_radius as int, b, log[t][b].mag));
            }
        }
    }
    lemma_candidates_agree(cfg, short, log, t, log[t].len() as int);
    let f = |b: int| peak_of(short, t, b);
    let g = |b: int| peak_of(log, t, b);
    assert(f =~= g);
}

proof fn lemma_candidates_agree(
    cfg: PeaksV2Config,
    a: Seq<Seq<Cell>>,
    b: Seq<Seq<Cell>>,
    t: int,
    upto: int,
)
    requires
        forall|k: int| accepted(cfg, a, t, k) == #[trigger] accepted(cfg, b, t, k),
    ensures
        candidates(cfg, a, t, upto) == candidates(cfg, b, t, upto),
    decreases upto,
{
    if upto > 0 {
        assert(accepted(cfg, a, t, upto - 1) == accepted(cfg, b, t, upto - 1));
        lemma_candidates_agree(cfg, a, b, t, upto - 1);
    }
}

/// Feeding frames one at a time gives exactly what deciding every frame with
/// the whole spectrogram at hand gives.
pub proof fn law_streaming_equals_offline(cfg: PeaksV2Config, log: Seq<Seq<Cell>>)
    ensures
        all_peaks(cfg, log) == decided_range(cfg, log, 0, log.len() as int),
{
    let n = log.len() as int;
    lemma_streamed(cfg, log, n);
    lemma_range_splits(cfg, log, 0, below(n, cfg.time_radius as int), n);
}

proof fn lemma_streamed(cfg: PeaksV2Config, log: Seq<Seq<Cell>>, n: int)
    requires
        0 <= n <= log.len(),
    ensures
        streamed(cfg, log, n) == decided_range(cfg, log, 0, below(n, cfg.time_radius as int)),
    decreases n,
{
    if n > 0 {
        lemma_streamed(cfg, log, n - 1);
        if n > cfg.time_radius {
            law_decisions_are_local(cfg, log, n - 1 - cfg.time_radius, n);
        } else {
            assert(streamed(cfg, log, n) =~= streamed(cfg, log, n - 1));
        }
    }
}

proof fn lemma_range_splits(cfg: PeaksV2Config, log: Seq<Seq<Cell>>, a: int, b: int, c: int)
    requires
        a <= b <= c,
    ensures
        decided_range(cfg, log, a, c) == decided_range(cfg, log, a, b) + decided_range(
            cfg,
            log,
            b,
            c,
        ),
    decreases c - b,
{
    if b < c {
        lemma_range_splits(cfg, log, a, b, c - 1);
        assert(decided_range(cfg, log, a, c) =~= decided_range(cfg, log, a, b) + decided_range(
            cfg,
            log,
            b,
            c,
        ));
    } else {
        assert(decided_range(cfg, log, a, b) + decided_range(cfg, log, b, c) =~= decided_range(
            cfg,
            log,
            a,
            b,
        ));
    }
}

/// Candidates ascend and lie below the bound.
proof fn lemma_candidates_ascend(cfg: PeaksV2Config, log: Seq<Seq<Cell>>, t: int, upto: int)
    ensures
        forall|i: int|
            0 <= i < candidates(cfg, log, t, upto).len() ==> {
                &&& 0 <= #[trigger] candidates(cfg, log, t, upto)[i] < upto
                &&& accepted(cfg, log, t, candidates(cfg, log, t, upto)[i])
            },
        forall|i: int, j: int|
            0 <= i < j < candidates(cfg, log, t, upto).len() ==> #[trigger] candidates(
                cfg,
                log,
                t,
                upto,
            )[i] < #[trigger] candidates(cfg, log, t, upto)[j],
    decreases upto,
{
    if upto > 0 {
        lemma_candidates_ascend(cfg, log, t, upto - 1);
        let rest = candidates(cfg, log, t, upto - 1);
        let all = candidates(cfg, log, t, upto);
        assert forall|i: int, j: int| 0 <= i < j < all.len() implies #[trigger] all[i]
            < #[trigger] all[j] by {
            if j < rest.len() {
                assert(rest[i] < rest[j]);
            } else {
                assert(rest[i] < upto - 1);
            }
        }
        assert forall|i: int| 0 <= i < all.len() implies {
            &&& 0 <= #[trigger] all[i] < upto
            &&& accepted(cfg, log, t, all[i])
        } by {
            if i < rest.len() {
                assert(rest[i] < upto - 1);
            }
        }
    }
}

/// Filtering ascending numbers keeps them ascending, and takes them from where
/// they were.
proof fn lemma_filter_ascends(s: Seq<int>, p: spec_fn(int) -> bool)
    requires
        forall|i: int, j: int| 0 <= i < j < s.len() ==> #[trigger] s[i] < #[trigger] s[j],
    ensures
        forall|i: int, j: int|
            0 <= i < j < s.filter(p).len() ==> #[trigger] s.filter(p)[i] < #[trigger] s.filter(p)[j],
        forall|i: int|
            0 <= i < s.filter(p).len() ==> s.contains(#[trigger] s.filter(p)[i]) && p(
                s.filter(p)[i],
            ),
    decreases s.len(),
{
    reveal(Seq::filter);
    if s.len() > 0 {
        let t = s.drop_last();
        assert forall|i: int, j: int| 0 <= i < j < t.len() implies #[trigger] t[i] < #[trigger] t[j] by {
            assert(s[i] < s[j]);
        }
        lemma_filter_ascends(t, p);
        let f = t.filter(p);
        let g = s.filter(p);
        assert forall|i: int| 0 <= i < g.len() implies s.contains(#[trigger] g[i]) && p(g[i]) by {
            if i < f.len() {
                assert(t.contains(f[i]));
                let k = t.index_of(f[i]);
                assert(s[k] == g[i]);
            } else {
                assert(s[s.len() - 1] == g[i]);
            }
        }
        assert forall|i: int, j: int| 0 <= i < j < g.len() implies #[trigger] g[i] < #[trigger] g[j] by {
            if j < f.len() {
                assert(f[i] < f[j]);
            } else {
                assert(t.contains(f[i]));
                let k = t.index_of(f[i]);
                assert(s[k] < s[s.len() - 1]);
            }
        }
    }
}

/// Peaks of a frame carry its index, ascend by bin, and each passes every
/// acceptance test.
pub proof fn law_peaks_are_accepted_in_bin_order(
    cfg: PeaksV2Config,
    log: Seq<Seq<Cell>>,
    t: int,
    i: int,
    j: int,
)
    requires
        0 <= t < log.len(),
        log[t].len() <= usize::MAX,
        0 <= i < j < decided(cfg, log, t).len(),
    ensures
        decided(cfg, log, t)[i].time_idx == t as usize,
        decided(cfg, log, t)[i].freq_bin_idx < decided(cfg, log, t)[j].freq_bin_idx,
        accepted(cfg, log, t, decided(cfg, log, t)[i].freq_bin_idx as int),
{
    let bins = candidates(cfg, log, t, log[t].len() as int);
    let p = |b: int|
        count_where(bins, stronger_than(log[t], b)) < cfg.max_peaks_per_frame as int;
    lemma_candidates_ascend(cfg, log, t, log[t].len() as int);
    lemma_filter_ascends(bins, p);
    let kept = strongest(log[t], bins, cfg.max_peaks_per_frame as int);
    assert(kept =~= bins.filter(p));
    assert(bins.contains(kept[i]) && bins.contains(kept[j]));
    let a = bins.index_of(kept[i]);
    let b = bins.index_of(kept[j]);
    assert(0 <= bins[a] < log[t].len() && 0 <= bins[b] < log[t].len());
    assert(kept[i] < kept[j]);
}

/// Every peak of a frame lies in one of its bins.
pub proof fn lemma_peak_bins(cfg: PeaksV2Config, log: Seq<Seq<Cell>>, t: int)
    requires
        0 <= t < log.len(),
        log[t].len() <= usize::MAX,
    ensures
        forall|i: int|
            0 <= i < decided(cfg, log, t).len() ==> (#[trigger] decided(cfg, log, t)[i]).freq_bin_idx
                < log[t].len(),
{
    let bins = candidates(cfg, log, t, log[t].len() as int);
    let p = |b: int|
        count_where(bins, stronger_than(log[t], b)) < cfg.max_peaks_per_frame as int;
    lemma_candidates_ascend(cfg, log, t, log[t].len() as int);
    lemma_filter_ascends(bins, p);
    let kept = strongest(log[t], bins, cfg.max_peaks_per_frame as int);
    assert(kept =~= bins.filter(p));
    assert forall|i: int| 0 <= i < decided(cfg, log, t).len() implies (
    #[trigger] decided(cfg, log, t)[i]).freq_bin_idx < log[t].len() by {
        assert(bins.contains(kept[i]));
        let a = bins.index_of(kept[i]);
        assert(0 <= bins[a] < log[t].len());
    }
}

/// Every peak of several frames lies in one of their bins.
pub proof fn lemma_range_bins(
    cfg: PeaksV2Config,
    log: Seq<Seq<Cell>>,
    from: int,
    to: int,
    bins: int,
)
    requires
        0 <= from <= to <= log.len(),
        uniform(log, bins),
        bins <= usize::MAX,
    ensures
        forall|i: int|
            0 <= i < decided_range(cfg, log, from, to).len() ==> (
            #[trigger] decided_range(cfg, log, from, to)[i]).freq_bin_idx < bins,
    decreases to - from,
{
    if from < to {
        lemma_range_bins(cfg, log, from, to - 1, bins);
        lemma_peak_bins(cfg, log, to - 1);
        let a = decided_range(cfg, log, from, to - 1);
        let b = decided(cfg, log, to - 1);
        assert forall|i: int| 0 <= i < (a + b).len() implies (#[trigger] (a + b)[i]).freq_bin_idx
            < bins by {
            if i >= a.len() {
                assert(b[i - a.len()].freq_bin_idx < log[to - 1].len());
            } else {
                assert(a[i].freq_bin_idx < bins);
            }
        }
    }
}

/// A count over some of the elements is at most the count over all of them.
proof fn lemma_filter_count(s: Seq<int>, p: spec_fn(int) -> bool, q: spec_fn(int) -> bool)
    ensures
        count_where(s.filter(p), q) <= count_where(s, q),
    decreases s.len(),
{
    reveal(Seq::filter);
    if s.len() > 0 {
        let t = s.drop_last();
        lemma_filter_count(t, p, q);
        if p(s.last()) {
            assert(s.filter(p).drop_last() =~= t.filter(p));
        }
    }
}

/// Some element has all others before it in strength.
proof fn lemma_weakest(frame: Seq<Cell>, bins: Seq<int>) -> (w: int)
    requires
        bins.len() > 0,
        forall|i: int, j: int| 0 <= i < j < bins.len() ==> #[trigger] bins[i] < #[trigger] bins[j],
    ensures
        0 <= w < bins.len(),
        forall|i: int|
            0 <= i < bins.len() && i != w ==> stronger_than(frame, bins[w])(#[trigger] bins[i]),
    decreases bins.len(),
{
    if bins.len() == 1 {
        0
    } else {
        let t = bins.drop_last();
        assert forall|i: int, j: int| 0 <= i < j < t.len() implies #[trigger] t[i] < #[trigger] t[j] by {
            assert(bins[i] < bins[j]);
        }
        let v = lemma_weakest(frame, t);
        let last = bins.len() - 1;
        assert(bins[v] < bins[last]);
        if stronger_than(frame, bins[v])(bins[last]) {
            assert forall|i: int| 0 <= i < bins.len() && i != v implies stronger_than(
                frame,
                bins[v],
            )(#[trigger] bins[i]) by {
                if i < last {
                    assert(t[i] == bins[i]);
                }
            }
            v
        } else {
            assert forall|i: int| 0 <= i < bins.len() && i != last implies stronger_than(
                frame,
                bins[last],
            )(#[trigger] bins[i]) by {
                assert(t[i] == bins[i]);
                assert(bins[i] < bins[last]);
                if i != v {
                    assert(stronger_than(frame, t[v])(t[i]));
                }
            }
            last
        }
    }
}

/// All elements but one satisfy the predicate.
proof fn lemma_count_all_but_one(s: Seq<int>, q: spec_fn(int) -> bool, w: int)
    requires
        0 <= w < s.len(),
        forall|i: int| 0 <= i < s.len() && i != w ==> q(#[trigger] s[i]),
    ensures
        count_where(s, q) >= s.len() - 1,
{
    let one = |x: int| 1nat;
    lemma_count_prefix(s, q, w, s.len() as int);
    assert(s.take(s.len() as int) =~= s);
}

proof fn lemma_count_prefix(s: Seq<int>, q: spec_fn(int) -> bool, w: int, n: int)
    requires
        0 <= n <= s.len(),
        forall|i: int| 0 <= i < s.len() && i != w ==> q(#[trigger] s[i]),
    ensures
        count_where(s.take(n), q) >= if w < n { n - 1 } else { n },
    decreases n,
{
    if n > 0 {
        lemma_count_prefix(s, q, w, n - 1);
        assert(s.take(n).drop_last() =~= s.take(n - 1));
        assert(s.take(n).last() == s[n - 1]);
    }
}

/// No frame gives more peaks than density control allows.
pub proof fn law_density_is_capped(cfg: PeaksV2Config, log: Seq<Seq<Cell>>, t: int)
    ensures
        decided(cfg, log, t).len() <= cfg.max_peaks_per_frame,
{
    let frame = log[t];
    let bins = candidates(cfg, log, t, frame.len() as int);
    let limit = cfg.max_peaks_per_frame as int;
    let p = |b: int| count_where(bins, stronger_than(frame, b)) < limit;
    lemma_candidates_ascend(cfg, log, t, frame.len() as int);
    lemma_filter_ascends(bins, p);
    let kept = strongest(frame, bins, limit);
    assert(kept =~= bins.filter(p));
    if kept.len() > 0 {
        let w = lemma_weakest(frame, kept);
        let q = stronger_than(frame, kept[w]);
        lemma_count_all_but_one(kept, q, w);
        lemma_filter_count(bins, p, q);
        assert(p(kept[w]));
    }
}

// ---- gain ----

/// A cell of a louder or softer recording: magnitudes keep their order, and
/// the level shifts.
pub open spec fn amplified_cell(f: spec_fn(i32) -> i32, gain: int) -> spec_fn(Cell) -> Cell {
    |c: Cell| Cell { mag: f(c.mag), level: (c.level + gain) as i32 }
}

pub open spec fn amplified_frame(frame: Seq<Cell>, f: spec_fn(i32) -> i32, gain: int) -> Seq<Cell> {
    frame.map_values(amplified_cell(f, gain))
}

pub open spec fn amplified(log: Seq<Seq<Cell>>, f: spec_fn(i32) -> i32, gain: int) -> Seq<
    Seq<Cell>,
> {
    log.map_values(|frame: Seq<Cell>| amplified_frame(frame, f, gain))
}

/// Magnitudes keep their order.
pub open spec fn keeps_order(f: spec_fn(i32) -> i32) -> bool {
    forall|a: i32, b: i32| a < b ==> #[trigger] f(a) < #[trigger] f(b)
}

/// Every shifted level is a level again.
pub open spec fn gain_fits(frame: Seq<Cell>, gain: int) -> bool {
    forall|b: int|
        0 <= b < frame.len() ==> i32::MIN <= (#[trigger] frame[b]).level + gain <= i32::MAX
}

proof fn lemma_permuted_map(a: Seq<Cell>, b: Seq<Cell>, m: spec_fn(Cell) -> Cell)
    requires
        permuted(a, b),
    ensures
        permuted(a.map_values(m), b.map_values(m)),
    decreases a.len(),
{
    broadcast use vstd::seq_lib::group_to_multiset_ensures;

    crate::sort::lemma_permuted_contains(a, b);
    if a.len() == 0 {
        assert(a.map_values(m) =~= b.map_values(m));
    } else {
        let x = a.last();
        assert(a.contains(x));
        let i = b.index_of(x);
        assert(a.remove(a.len() - 1) =~= a.drop_last());
        lemma_permuted_map(a.drop_last(), b.remove(i), m);
        let am = a.map_values(m);
        let bm = b.map_values(m);
        assert(am.remove(a.len() - 1) =~= a.drop_last().map_values(m));
        assert(bm.remove(i) =~= b.remove(i).map_values(m));
        assert(am[a.len() - 1] == m(x) && bm[i] == m(x));
        assert(am.to_multiset() =~= am.remove(a.len() - 1).to_multiset().insert(m(x)));
        assert(bm.to_multiset() =~= bm.remove(i).to_multiset().insert(m(x)));
    }
}

/// The median level shifts by the gain.
proof fn lemma_floor_shifts(frame: Seq<Cell>, f: spec_fn(i32) -> i32, gain: int)
    requires
        frame.len() > 0,
        keeps_order(f),
        gain_fits(frame, gain),
    ensures
        floor_level(amplified_frame(frame, f, gain)) == floor_level(frame) + gain,
{
    let m = amplified_cell(f, gain);
    let leq = cell_order();
    let loud = amplified_frame(frame, f, gain);
    let sorted_frame = frame.sort_by(leq);
    Cell::total_order();
    frame.lemma_sort_by_ensures(leq);
    loud.lemma_sort_by_ensures(leq);
    lemma_permuted_map(sorted_frame, frame, m);
    crate::sort::lemma_permuted_contains(sorted_frame, frame);
    let image = sorted_frame.map_values(m);
    assert(vstd::relations::sorted_by(image, leq)) by {
        assert forall|i: int, j: int| 0 <= i < j < image.len() implies #[trigger] leq(
            image[i],
            image[j],
        ) by {
            assert(leq(sorted_frame[i], sorted_frame[j]));
            assert(frame.contains(sorted_frame[i])) by {
                assert(sorted_frame.contains(sorted_frame[i]));
            }
            assert(frame.contains(sorted_frame[j])) by {
                assert(sorted_frame.contains(sorted_frame[j]));
            }
            let a = frame.index_of(sorted_frame[i]);
            let b = frame.index_of(sorted_frame[j]);
            assert(i32::MIN <= frame[a].level + gain <= i32::MAX);
            assert(i32::MIN <= frame[b].level + gain <= i32::MAX);
        }
    }
    vstd::seq_lib::lemma_sorted_unique(image, loud.sort_by(leq), leq);
    let mid = frame.len() as int / 2;
    assert(sorted_frame.contains(sorted_frame[mid]));
    let k = frame.index_of(sorted_frame[mid]);
    assert(i32::MIN <= frame[k].level + gain <= i32::MAX);
}

/// Amplifying shifts the highest level; gives a bin that has it.
proof fn lemma_top_shifts(frame: Seq<Cell>, f: spec_fn(i32) -> i32, gain: int) -> (top: int)
    requires
        frame.len() > 0,
        gain_fits(frame, gain),
    ensures
        top_level(amplified_frame(frame, f, gain)) == top_level(frame) + gain,
        0 <= top < frame.len(),
        frame[top].level == top_level(frame),
    decreases frame.len(),
{
    let loud = amplified_frame(frame, f, gain);
    let t = frame.drop_last();
    let last = frame.len() - 1;
    assert(i32::MIN <= frame[last].level + gain <= i32::MAX);
    assert(loud.drop_last() =~= amplified_frame(t, f, gain));
    assert(loud.last().level == frame[last].level + gain);
    if t.len() > 0 {
        assert forall|b: int| 0 <= b < t.len() implies i32::MIN <= (#[trigger] t[b]).level + gain
            <= i32::MAX by {
            assert(t[b] == frame[b]);
        }
        let b = lemma_top_shifts(t, f, gain);
        assert(frame[b] == t[b]);
        assert(top_level(loud.drop_last()) == top_level(t) + gain);
        if top_level(t) >= frame[last].level {
            b
        } else {
            last
        }
    } else {
        assert(top_level(t) == i32::MIN);
        assert(top_level(loud.drop_last()) == i32::MIN);
        last
    }
}

/// Amplifying shifts the background of a bin; gives a frame that touches it.
proof fn lemma_background_shifts(
    frames: Seq<Seq<Cell>>,
    f: spec_fn(i32) -> i32,
    gain: int,
    b: int,
) -> (lowest: int)
    requires
        frames.len() > 0,
        0 <= b,
        forall|k: int|
            0 <= k < frames.len() ==> gain_fits(#[trigger] frames[k], gain) && b < frames[k].len(),
    ensures
        background(amplified(frames, f, gain), b) == background(frames, b) + gain,
        0 <= lowest < frames.len(),
        frames[lowest][b].level == background(frames, b),
    decreases frames.len(),
{
    let loud = amplified(frames, f, gain);
    let t = frames.drop_last();
    let last = frames.len() - 1;
    assert(gain_fits(frames[last], gain) && b < frames[last].len());
    assert(i32::MIN <= frames[last][b].level + gain <= i32::MAX);
    assert(loud.drop_last() =~= amplified(t, f, gain));
    assert(loud.last() == amplified_frame(frames[last], f, gain));
    assert(loud.last()[b].level == frames[last][b].level + gain);
    if t.len() > 0 {
        assert forall|k: int| 0 <= k < t.len() implies gain_fits(#[trigger] t[k], gain) && b
            < t[k].len() by {
            assert(t[k] == frames[k]);
        }
        let k = lemma_background_shifts(t, f, gain, b);
        assert(frames[k] == t[k]);
        assert(background(loud.drop_last(), b) == background(t, b) + gain);
        if background(t, b) <= frames[last][b].level {
            k
        } else {
            last
        }
    } else {
        assert(background(t, b) == i32::MAX);
        assert(background(loud.drop_last(), b) == i32::MAX);
        last
    }
}

/// The frames all have the same bins.
pub open spec fn uniform(log: Seq<Seq<Cell>>, bins: int) -> bool {
    forall|k: int| 0 <= k < log.len() ==> (#[trigger] log[k]).len() == bins
}

proof fn lemma_acceptance_ignores_gain(
    cfg: PeaksV2Config,
    log: Seq<Seq<Cell>>,
    f: spec_fn(i32) -> i32,
    gain: int,
    t: int,
    b: int,
)
    requires
        cfg.absolute_floor == i64::MIN,
        0 <= t < log.len(),
        uniform(log, log[t].len() as int),
        0 <= b < log[t].len(),
        keeps_order(f),
        forall|k: int| 0 <= k < log.len() ==> gain_fits(#[trigger] log[k], gain),
    ensures
        accepted(cfg, amplified(log, f, gain), t, b) == accepted(cfg, log, t, b),
{
    let loud = amplified(log, f, gain);
    let frame = log[t];
    assert(gain_fits(log[t], gain));
    assert(i32::MIN <= frame[b].level + gain <= i32::MAX);
    assert(loud[t] == amplified_frame(frame, f, gain));
    lemma_floor_shifts(frame, f, gain);
    let _top = lemma_top_shifts(frame, f, gain);
    let r = cfg.freq_radius as int;
    let lo = below(t, cfg.time_radius as int);
    let hi = lesser(t + cfg.time_radius + 1, log.len() as int);
    assert forall|u: int| lo <= u < hi implies row_below(log[u], r, b, frame[b].mag) == row_below(
        #[trigger] loud[u],
        r,
        b,
        loud[t][b].mag,
    ) by {
        assert(loud[u] == amplified_frame(log[u], f, gain));
        let left = below(b, r);
        let right = lesser(b + r + 1, log[u].len() as int);
        if row_below(log[u], r, b, frame[b].mag) {
            assert forall|c: int| left <= c < right implies (#[trigger] loud[u][c]).mag
                <= loud[t][b].mag by {
                assert(log[u][c].mag <= frame[b].mag);
            }
        }
        if row_below(loud[u], r, b, loud[t][b].mag) {
            assert forall|c: int| left <= c < right implies (#[trigger] log[u][c]).mag
                <= frame[b].mag by {
                assert(loud[u][c].mag <= loud[t][b].mag);
            }
        }
    }
    assert(is_local_max(cfg, loud, t, b) == is_local_max(cfg, log, t, b)) by {
        if is_local_max(cfg, log, t, b) {
            assert forall|u: int| lo <= u < hi implies row_below(
                #[trigger] loud[u],
                r,
                b,
                loud[t][b].mag,
            ) by {
                assert(row_below(log[u], r, b, frame[b].mag));
            }
        }
        if is_local_max(cfg, loud, t, b) {
            assert forall|u: int| lo <= u < hi implies row_below(
                #[trigger] log[u],
                r,
                b,
                frame[b].mag,
            ) by {
                assert(row_below(loud[u], r, b, loud[t][b].mag));
            }
        }
    }
    if cfg.background_min_window_frames > 0 {
        let window = cfg.background_min_window_frames as int;
        let from = below(t + 1, window);
        let past = trailing(log, t, window);
        assert(trailing(loud, t, window) =~= amplified(past, f, gain));
        assert forall|k: int| 0 <= k < past.len() implies gain_fits(#[trigger] past[k], gain) && b
            < past[k].len() by {
            assert(past[k] == log[from + k]);
        }
        let _lowest = lemma_background_shifts(past, f, gain, b);
    }
}

/// Loudness does not matter: amplifying a recording leaves the peaks where
/// they are, with the same prominence, as long as no absolute floor is set.
pub proof fn law_peaks_ignore_gain(
    cfg: PeaksV2Config,
    log: Seq<Seq<Cell>>,
    f: spec_fn(i32) -> i32,
    gain: int,
    t: int,
)
    requires
        cfg.absolute_floor == i64::MIN,
        0 <= t < log.len(),
        0 < log[t].len() <= usize::MAX,
        uniform(log, log[t].len() as int),
        keeps_order(f),
        forall|k: int| 0 <= k < log.len() ==> gain_fits(#[trigger] log[k], gain),
    ensures
        decided(cfg, amplified(log, f, gain), t) == decided(cfg, log, t).map_values(
            |p: Peak| Peak { magnitude: f(p.magnitude), ..p },
        ),
{
    let loud = amplified(log, f, gain);
    let frame = log[t];
    let n = frame.len() as int;
    assert(loud[t] == amplified_frame(frame, f, gain));
    lemma_candidates_ignore_gain(cfg, log, f, gain, t, n);
    let bins = candidates(cfg, log, t, n);
    lemma_candidates_ascend(cfg, log, t, n);
    let limit = cfg.max_peaks_per_frame as int;
    assert forall|b: int| 0 <= b < n implies #[trigger] count_where(
        bins,
        stronger_than(loud[t], b),
    ) == count_where(bins, stronger_than(frame, b)) by {
        assert forall|i: int| 0 <= i < bins.len() implies stronger_than(loud[t], b)(
            #[trigger] bins[i],
        ) == stronger_than(frame, b)(bins[i]) by {
            let a = bins[i];
            assert(loud[t][a].mag == f(frame[a].mag) && loud[t][b].mag == f(frame[b].mag));
        }
        crate::sort::lemma_sum_agree(
            bins,
            stronger_than(loud[t], b),
            stronger_than(frame, b),
            |x: int| 1nat,
        );
    }
    let p = |b: int| count_where(bins, stronger_than(loud[t], b)) < limit;
    let q = |b: int| count_where(bins, stronger_than(frame, b)) < limit;
    lemma_filter_agree(bins, p, q);
    let kept = strongest(frame, bins, limit);
    assert(strongest(loud[t], bins, limit) =~= kept) by {
        assert(strongest(loud[t], bins, limit) =~= bins.filter(p));
        assert(kept =~= bins.filter(q));
    }
    lemma_filter_ascends(bins, q);
    assert(kept =~= bins.filter(q));
    lemma_floor_shifts(frame, f, gain);
    assert(gain_fits(log[t], gain));
    let quiet = decided(cfg, log, t);
    let out = decided(cfg, loud, t);
    assert forall|i: int| 0 <= i < kept.len() implies out[i] == (Peak {
        magnitude: f(quiet[i].magnitude),
        ..quiet[i]
    }) by {
        assert(bins.contains(kept[i]));
        let k = bins.index_of(kept[i]);
        assert(0 <= bins[k] < n);
        let b = kept[i];
        assert(i32::MIN <= frame[b].level + gain <= i32::MAX);
        assert(loud[t][b] == amplified_cell(f, gain)(frame[b]));
    }
    assert(out =~= quiet.map_values(|p: Peak| Peak { magnitude: f(p.magnitude), ..p }));
}

proof fn lemma_candidates_ignore_gain(
    cfg: PeaksV2Config,
    log: Seq<Seq<Cell>>,
    f: spec_fn(i32) -> i32,
    gain: int,
    t: int,
    upto: int,
)
    requires
        cfg.absolute_floor == i64::MIN,
        0 <= t < log.len(),
        uniform(log, log[t].len() as int),
        upto <= log[t].len(),
        keeps_order(f),
        forall|k: int| 0 <= k < log.len() ==> gain_fits(#[trigger] log[k], gain),
    ensures
        candidates(cfg, amplified(log, f, gain), t, upto) == candidates(cfg, log, t, upto),
    decreases upto,
{
    if upto > 0 {
        lemma_candidates_ignore_gain(cfg, log, f, gain, t, upto - 1);
        lemma_acceptance_ignores_gain(cfg, log, f, gain, t, upto - 1);
    }
}

proof fn lemma_filter_agree(s: Seq<int>, p: spec_fn(int) -> bool, q: spec_fn(int) -> bool)
    requires
        forall|i: int| 0 <= i < s.len() ==> p(#[trigger] s[i]) == q(s[i]),
    ensures
        s.filter(p) == s.filter(q),
    decreases s.len(),
{
    reveal(Seq::filter);
    if s.len() > 0 {
        let t = s.drop_last();
        assert forall|i: int| 0 <= i < t.len() implies p(#[trigger] t[i]) == q(t[i]) by {
            assert(t[i] == s[i]);
        }
        lemma_filter_agree(t, p, q);
        assert(p(s[s.len() - 1]) == q(s[s.len() - 1]));
    }
}

/// In a frame of one level, the median has that level too.
pub proof fn lemma_flat_floor(frame: Seq<Cell>, b: int)
    requires
        0 <= b < frame.len(),
        forall|i: int, j: int|
            0 <= i < frame.len() && 0 <= j < frame.len() ==> (#[trigger] frame[i]).level == (
            #[trigger] frame[j]).level,
    ensures
        floor_level(frame) == frame[b].level,
{
    Cell::total_order();
    frame.lemma_sort_by_ensures(cell_order());
    let up = frame.sort_by(cell_order());
    crate::sort::lemma_permuted_contains(up, frame);
    let m = frame.len() as int / 2;
    assert(up.contains(up[m]));
    let k = frame.index_of(up[m]);
    assert(frame[k].level == frame[b].level);
}

// ---- what a peak is ----

/// Cell `(t, b)` stands out of its surroundings: no cell within the radii is
/// larger; its level reaches the absolute floor, lies within the relative
/// floor of every bin of its frame, exceeds by the margin the level that its
/// own bin had in some frame of the trailing window, and exceeds the frame's
/// median by the prominence.
pub open spec fn stands_out(cfg: PeaksV2Config, log: Seq<Seq<Cell>>, t: int, b: int) -> bool {
    let cell = log[t][b];
    &&& forall|u: int, c: int|
        #![trigger log[u][c]]
        0 <= u < log.len() && t - cfg.time_radius <= u <= t + cfg.time_radius && 0 <= c
            < log[u].len() && b - cfg.freq_radius <= c <= b + cfg.freq_radius ==> log[u][c].mag
            <= cell.mag
    &&& cell.level >= cfg.absolute_floor
    &&& cfg.relative_floor > 0 ==> forall|c: int|
        0 <= c < log[t].len() ==> (#[trigger] log[t][c]).level - cell.level <= cfg.relative_floor
    &&& cfg.background_min_window_frames > 0 ==> exists|u: int|
        0 <= u <= t && t - u < cfg.background_min_window_frames && cell.level - (
        #[trigger] log[u])[b].level >= cfg.background_margin
    &&& exists|m: int| #[trigger]
        is_median(log[t], m) && cell.level - log[t][m].level >= cfg.min_prominence
}

/// Cell `m` is in the middle of the frame: at most half of the cells come
/// before it, by magnitude and then by level, and more than half do not come
/// after it.
pub open spec fn is_median(frame: Seq<Cell>, m: int) -> bool {
    &&& 0 <= m < frame.len()
    &&& frame.filter(
        |x: Cell|
            x.mag < frame[m].mag || (x.mag == frame[m].mag && x.level < frame[m].level),
    ).len() <= frame.len() as int / 2
    &&& frame.filter(
        |x: Cell|
            x.mag < frame[m].mag || (x.mag == frame[m].mag && x.level <= frame[m].level),
    ).len() > frame.len() as int / 2
}

/// The bins of a frame that stand out more than bin `b`: larger, or as large
/// and lower.
pub open spec fn stronger_bins(
    cfg: PeaksV2Config,
    log: Seq<Seq<Cell>>,
    t: int,
    b: int,
) -> Set<int> {
    Set::new(
        |c: int|
            0 <= c < log[t].len() && stands_out(cfg, log, t, c) && (log[t][c].mag > log[t][b].mag
                || (log[t][c].mag == log[t][b].mag && c < b)),
    )
}

/// The noise floor is the level of a median cell, and all median cells have
/// it.
proof fn lemma_floor_is_median(frame: Seq<Cell>)
    requires
        frame.len() > 0,
    ensures
        exists|m: int| #[trigger] is_median(frame, m) && frame[m].level == floor_level(frame),
        forall|m: int| #[trigger]
            is_median(frame, m) ==> frame[m].level == floor_level(frame),
{
    let leq = cell_order();
    Cell::total_order();
    frame.lemma_sort_by_ensures(leq);
    let s = frame.sort_by(leq);
    let h = frame.len() as int / 2;
    assert(permuted(s, frame));
    crate::sort::lemma_permuted_contains(s, frame);
    let mid = s[h];
    assert(s.contains(mid));
    let m = frame.index_of(mid);
    assert forall|i: int| 0 <= i <= h implies Cell::leq(#[trigger] s[i], mid) by {
        if i < h {
            assert(leq(s[i], s[h]));
        }
    }
    assert forall|i: int| h <= i < s.len() implies Cell::leq(mid, #[trigger] s[i]) by {
        if h < i {
            assert(leq(s[h], s[i]));
        }
    }
    let under = |x: Cell| x.mag < frame[m].mag || (x.mag == frame[m].mag && x.level
        < frame[m].level);
    let upto = |x: Cell| x.mag < frame[m].mag || (x.mag == frame[m].mag && x.level
        <= frame[m].level);
    let one = |x: Cell| 1nat;
    crate::sort::lemma_sum_permuted(s, frame, under, one);
    crate::sort::lemma_sum_permuted(s, frame, upto, one);
    crate::sort::law_counting_is_filtering(frame, under);
    crate::sort::law_counting_is_filtering(frame, upto);
    crate::sort::lemma_count_before(s, under, h);
    crate::sort::lemma_count_before(s, upto, h + 1);
    assert(is_median(frame, m));
    assert forall|k: int| #[trigger] is_median(frame, k) implies frame[k].level == floor_level(
        frame,
    ) by {
        let a = |x: Cell| x.mag < frame[k].mag || (x.mag == frame[k].mag && x.level
            < frame[k].level);
        let b = |x: Cell| x.mag < frame[k].mag || (x.mag == frame[k].mag && x.level
            <= frame[k].level);
        crate::sort::law_counting_is_filtering(frame, a);
        crate::sort::law_counting_is_filtering(frame, b);
        crate::sort::lemma_sum_permuted(s, frame, a, one);
        crate::sort::lemma_sum_permuted(s, frame, b, one);
        if !Cell::leq(frame[k], mid) {
            assert forall|i: int| 0 <= i < h + 1 implies a(#[trigger] s[i]) by {
                assert(Cell::leq(s[i], mid));
            }
            crate::sort::lemma_count_before(s, a, h + 1);
        }
        if !Cell::leq(mid, frame[k]) {
            assert forall|i: int| h <= i < s.len() implies !b(#[trigger] s[i]) by {
                assert(Cell::leq(mid, s[i]));
            }
            crate::sort::lemma_count_before(s, b, h);
        }
        assert(frame[k] == mid);
    }
}

/// The highest level is reached and not exceeded.
proof fn lemma_top_level(frame: Seq<Cell>)
    ensures
        forall|c: int| 0 <= c < frame.len() ==> (#[trigger] frame[c]).level <= top_level(frame),
        frame.len() > 0 ==> exists|c: int|
            0 <= c < frame.len() && (#[trigger] frame[c]).level == top_level(frame),
    decreases frame.len(),
{
    if frame.len() > 0 {
        let r = frame.drop_last();
        lemma_top_level(r);
        assert forall|c: int| 0 <= c < frame.len() implies (#[trigger] frame[c]).level
            <= top_level(frame) by {
            if c < r.len() {
                assert(r[c] == frame[c]);
            }
        }
        assert(frame[frame.len() - 1] == frame.last());
        if r.len() > 0 && top_level(r) >= frame.last().level {
            let c = choose|c: int| 0 <= c < r.len() && (#[trigger] r[c]).level == top_level(r);
            assert(frame[c] == r[c]);
        }
    }
}

/// The background is reached and not undercut.
proof fn lemma_background_level(frames: Seq<Seq<Cell>>, b: int)
    ensures
        forall|k: int| 0 <= k < frames.len() ==> background(frames, b) <= (
        #[trigger] frames[k])[b].level,
        frames.len() > 0 ==> exists|k: int|
            0 <= k < frames.len() && (#[trigger] frames[k])[b].level == background(frames, b),
    decreases frames.len(),
{
    if frames.len() > 0 {
        let r = frames.drop_last();
        lemma_background_level(r, b);
        assert forall|k: int| 0 <= k < frames.len() implies background(frames, b) <= (
        #[trigger] frames[k])[b].level by {
            if k < r.len() {
                assert(r[k] == frames[k]);
            }
        }
        assert(frames[frames.len() - 1] == frames.last());
        if r.len() > 0 && background(r, b) <= frames.last()[b].level {
            let k = choose|k: int|
                0 <= k < r.len() && (#[trigger] r[k])[b].level == background(r, b);
            assert(frames[k] == r[k]);
        }
    }
}

proof fn lemma_accepted_stands_out(
    cfg: PeaksV2Config,
    log: Seq<Seq<Cell>>,
    t: int,
    b: int,
    bins: int,
)
    requires
        uniform(log, bins),
        0 <= t < log.len(),
        0 <= b < bins,
    ensures
        accepted(cfg, log, t, b) == stands_out(cfg, log, t, b),
{
    assert(log[t].len() == bins);
    let cell = log[t][b];
    lemma_floor_is_median(log[t]);
    lemma_top_level(log[t]);
    let (r, fr) = (cfg.time_radius as int, cfg.freq_radius as int);
    let lo = below(t, r);
    let hi = lesser(t + r + 1, log.len() as int);
    let near = forall|u: int, c: int|
        #![trigger log[u][c]]
        0 <= u < log.len() && t - r <= u <= t + r && 0 <= c < log[u].len() && b - fr <= c <= b
            + fr ==> log[u][c].mag <= cell.mag;
    assert(is_local_max(cfg, log, t, b) == near) by {
        if is_local_max(cfg, log, t, b) {
            assert forall|u: int, c: int|
                #![trigger log[u][c]]
                0 <= u < log.len() && t - r <= u <= t + r && 0 <= c < log[u].len() && b - fr <= c
                    <= b + fr implies log[u][c].mag <= cell.mag by {
                assert(row_below(log[u], fr, b, cell.mag));
            }
        }
        if near {
            assert forall|u: int| lo <= u < hi implies row_below(
                #[trigger] log[u],
                fr,
                b,
                cell.mag,
            ) by {
                assert forall|c: int|
                    below(b, fr) <= c < lesser(b + fr + 1, log[u].len() as int) implies (
                #[trigger] log[u][c]).mag <= cell.mag by {}
            }
        }
    }
    if cfg.relative_floor > 0 {
        let c = choose|c: int|
            0 <= c < log[t].len() && (#[trigger] log[t][c]).level == top_level(log[t]);
        assert(log[t][c].level == top_level(log[t]));
    }
    let w = cfg.background_min_window_frames as int;
    if w > 0 {
        let back = trailing(log, t, w);
        let from = below(t + 1, w);
        lemma_background_level(back, b);
        assert(back.len() == t + 1 - from);
        let k = choose|k: int|
            0 <= k < back.len() && (#[trigger] back[k])[b].level == background(back, b);
        assert(back[k] == log[from + k]);
        if exists|u: int|
            0 <= u <= t && t - u < w && cell.level - (#[trigger] log[u])[b].level
                >= cfg.background_margin {
            let u = choose|u: int|
                0 <= u <= t && t - u < w && cell.level - (#[trigger] log[u])[b].level
                    >= cfg.background_margin;
            assert(back[u - from] == log[u]);
        }
    }
}

/// Every accepted bin is a candidate.
proof fn lemma_candidates_complete(
    cfg: PeaksV2Config,
    log: Seq<Seq<Cell>>,
    t: int,
    upto: int,
    b: int,
)
    requires
        0 <= b < upto,
        accepted(cfg, log, t, b),
    ensures
        candidates(cfg, log, t, upto).contains(b),
    decreases upto,
{
    let all = candidates(cfg, log, t, upto);
    if b < upto - 1 {
        lemma_candidates_complete(cfg, log, t, upto - 1, b);
        let rest = candidates(cfg, log, t, upto - 1);
        let i = rest.index_of(b);
        assert(all[i] == b);
    } else {
        assert(all.last() == b);
    }
}

/// Some peak of the list is at bin `b`.
pub open spec fn peak_at(peaks: Seq<Peak>, b: int) -> bool {
    exists|i: int| 0 <= i < peaks.len() && (#[trigger] peaks[i]).freq_bin_idx == b
}

/// The peaks of a frame are the cells that stand out: a bin is a peak if and
/// only if it stands out and fewer bins than density control allows stand out
/// more. A peak carries its frame and bin, its magnitude, and its level above
/// the frame's median.
pub proof fn law_peaks_are_what_stands_out(
    cfg: PeaksV2Config,
    log: Seq<Seq<Cell>>,
    t: int,
    bins: int,
)
    requires
        uniform(log, bins),
        bins <= usize::MAX,
        0 <= t < log.len() <= usize::MAX,
    ensures
        forall|b: int|
            0 <= b < bins ==> (#[trigger] stands_out(cfg, log, t, b) && stronger_bins(
                cfg,
                log,
                t,
                b,
            ).len() < cfg.max_peaks_per_frame <==> peak_at(decided(cfg, log, t), b)),
        forall|i: int|
            0 <= i < decided(cfg, log, t).len() ==> {
                let p = #[trigger] decided(cfg, log, t)[i];
                &&& p.time_idx == t
                &&& p.freq_bin_idx < bins
                &&& p.magnitude == log[t][p.freq_bin_idx as int].mag
                &&& exists|m: int| #[trigger]
                    is_median(log[t], m) && p.prominence == log[t][p.freq_bin_idx as int].level
                        - log[t][m].level
            },
{
    let frame = log[t];
    let cand = candidates(cfg, log, t, frame.len() as int);
    let limit = cfg.max_peaks_per_frame as int;
    let test = |b: int| count_where(cand, stronger_than(frame, b)) < limit;
    lemma_candidates_ascend(cfg, log, t, frame.len() as int);
    lemma_filter_ascends(cand, test);
    let kept = strongest(frame, cand, limit);
    assert(kept =~= cand.filter(test));
    let peaks = decided(cfg, log, t);
    assert forall|b: int| 0 <= b < bins implies (#[trigger] stands_out(cfg, log, t, b)
        && stronger_bins(cfg, log, t, b).len() < cfg.max_peaks_per_frame <==> peak_at(
        peaks,
        b,
    )) by {
        lemma_accepted_stands_out(cfg, log, t, b, bins);
        lemma_stronger_bins(cfg, log, t, b, bins);
        if stands_out(cfg, log, t, b) && stronger_bins(cfg, log, t, b).len()
            < cfg.max_peaks_per_frame {
            lemma_candidates_complete(cfg, log, t, frame.len() as int, b);
            let k = cand.index_of(b);
            assert(test(cand[k]));
            cand.lemma_filter_contains(test, k);
            let i = kept.index_of(b);
            assert(peaks[i] == peak_of(log, t, b));
        }
        if peak_at(peaks, b) {
            let i = choose|i: int| 0 <= i < peaks.len() && (#[trigger] peaks[i]).freq_bin_idx == b;
            assert(cand.contains(kept[i]) && test(kept[i]));
            let k = cand.index_of(kept[i]);
            assert(0 <= cand[k] < frame.len());
            assert(peaks[i] == peak_of(log, t, kept[i]));
            assert(kept[i] == b);
        }
    }
    lemma_peak_bins(cfg, log, t);
    assert forall|i: int| 0 <= i < peaks.len() implies {
        let p = #[trigger] peaks[i];
        &&& p.time_idx == t
        &&& p.freq_bin_idx < bins
        &&& p.magnitude == log[t][p.freq_bin_idx as int].mag
        &&& exists|m: int| #[trigger]
            is_median(log[t], m) && p.prominence == log[t][p.freq_bin_idx as int].level
                - log[t][m].level
    } by {
        assert(cand.contains(kept[i]));
        let k = cand.index_of(kept[i]);
        assert(0 <= cand[k] < frame.len());
        assert(peaks[i] == peak_of(log, t, kept[i]));
        lemma_floor_is_median(frame);
        let m = choose|m: int| #[trigger]
            is_median(frame, m) && frame[m].level == floor_level(frame);
        assert(is_median(log[t], m));
    }
}

/// Stronger candidates are the bins that stand out more.
proof fn lemma_stronger_bins(
    cfg: PeaksV2Config,
    log: Seq<Seq<Cell>>,
    t: int,
    b: int,
    bins: int,
)
    requires
        uniform(log, bins),
        0 <= t < log.len(),
        0 <= b < bins,
    ensures
        stronger_bins(cfg, log, t, b).len() == count_where(
            candidates(cfg, log, t, log[t].len() as int),
            stronger_than(log[t], b),
        ),
{
    let frame = log[t];
    let cand = candidates(cfg, log, t, frame.len() as int);
    let p = stronger_than(frame, b);
    lemma_candidates_ascend(cfg, log, t, frame.len() as int);
    lemma_filter_ascends(cand, p);
    crate::sort::law_counting_is_filtering(cand, p);
    let f = cand.filter(p);
    assert(f.no_duplicates()) by {
        assert forall|i: int, j: int| 0 <= i < f.len() && 0 <= j < f.len() && i != j implies f[i]
            != f[j] by {
            if i < j {
                assert(f[i] < f[j]);
            } else {
                assert(f[j] < f[i]);
            }
        }
    }
    f.unique_seq_to_set();
    let set = stronger_bins(cfg, log, t, b);
    assert forall|c: int| set.contains(c) <==> f.to_set().contains(c) by {
        if set.contains(c) {
            lemma_accepted_stands_out(cfg, log, t, c, bins);
            lemma_candidates_complete(cfg, log, t, frame.len() as int, c);
            let k = cand.index_of(c);
            cand.lemma_filter_contains(p, k);
            assert(f.contains(c));
        }
        if f.to_set().contains(c) {
            let i = f.index_of(c);
            assert(cand.contains(f[i]) && p(f[i]));
            let k = cand.index_of(c);
            assert(0 <= cand[k] < frame.len() && accepted(cfg, log, t, cand[k]));
            lemma_accepted_stands_out(cfg, log, t, c, bins);
        }
    }
    assert(set =~= f.to_set());
}

/// The peaks of several frames are those of each, frame by frame.
pub proof fn law_ranges_are_frame_by_frame(
    cfg: PeaksV2Config,
    log: Seq<Seq<Cell>>,
    a: int,
    t: int,
    c: int,
)
    requires
        a <= t < c,
    ensures
        decided_range(cfg, log, a, a).len() == 0,
        decided_range(cfg, log, t, t + 1) == decided(cfg, log, t),
        decided_range(cfg, log, a, c) == decided_range(cfg, log, a, t) + decided(cfg, log, t)
            + decided_range(cfg, log, t + 1, c),
{
    assert(decided_range(cfg, log, t, t).len() == 0);
    assert(decided_range(cfg, log, t, t + 1) =~= decided(cfg, log, t));
    lemma_range_splits(cfg, log, a, t + 1, c);
    lemma_range_splits(cfg, log, a, t, t + 1);
}

/// A spectrogram has a frame for each of its columns, with its values.
pub proof fn law_spectrograms_are_read_frame_by_frame(spectrogram: Seq<Vec<Cell>>, i: int)
    ensures
        frames_of(spectrogram).len() == spectrogram.len(),
        0 <= i < spectrogram.len() ==> frames_of(spectrogram)[i] == spectrogram[i]@,
{
}

} // verus!
