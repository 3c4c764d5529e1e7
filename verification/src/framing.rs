//! Cutting a sample stream into overlapping frames, with constant memory.
//!
//! Samples are fed in chunks of any size, and every full window comes out
//! once. Samples are opaque here: a transform of the frame gives them meaning.
use vstd::arithmetic::power2::pow2;
use vstd::prelude::*;

verus! {

/// The value is a power of two.
pub open spec fn is_pow2(n: int) -> bool {
    exists|e: nat| n == #[trigger] pow2(e)
}

/// Frames of a stream of `n` samples.
pub open spec fn frame_count(n: int, window: int, hop: int) -> int {
    if n < window {
        0
    } else {
        (n - window) / hop + 1
    }
}

/// Frame `i` of a stream.
pub open spec fn frame_at(samples: Seq<u32>, window: int, hop: int, i: int) -> Seq<u32> {
    samples.subrange(i * hop, i * hop + window)
}

/// Cuts a stream of 32-bit samples into frames.
pub struct FrameStreamer {
    window_size: usize,
    hop_size: usize,
    /// Samples not yet consumed.
    tail: Vec<u32>,
    /// Frames handed out.
    frame_index: u64,
    /// All samples fed.
    fed: Ghost<Seq<u32>>,
}

impl FrameStreamer {
    pub closed spec fn window(&self) -> int {
        self.window_size as int
    }

    pub closed spec fn hop(&self) -> int {
        self.hop_size as int
    }

    /// All samples so far.
    pub closed spec fn fed(&self) -> Seq<u32> {
        self.fed@
    }

    /// Frames handed out.
    pub closed spec fn emitted(&self) -> nat {
        self.frame_index as nat
    }

    /// Samples held.
    pub closed spec fn held(&self) -> nat {
        self.tail@.len()
    }

    /// The tail is what the frames handed out have left.
    pub closed spec fn wf(&self) -> bool {
        let at = self.frame_index * self.hop_size;
        &&& 0 < self.hop_size <= self.window_size
        &&& 0 <= at <= self.fed@.len()
        &&& self.tail@ == self.fed@.skip(at)
        &&& self.frame_index > 0 ==> at - self.hop_size + self.window_size <= self.fed@.len()
    }

    /// A streamer of frames of `window_size` samples, a power of two, one
    /// every `hop_size` samples.
    pub fn new(window_size: usize, hop_size: usize) -> (s: Self)
        requires
            is_pow2(window_size as int),
            1 <= hop_size <= window_size,
        ensures
            s.wf(),
            s.window() == window_size,
            s.hop() == hop_size,
            s.fed().len() == 0,
            s.emitted() == 0,
    {
        let s = FrameStreamer {
            window_size,
            hop_size,
            tail: Vec::new(),
            frame_index: 0,
            fed: Ghost(Seq::empty()),
        };
        assert(0 * s.hop_size == 0) by (nonlinear_arith);
        assert(s.tail@ =~= s.fed@.skip(0));
        s
    }

    pub fn frames_emitted(&self) -> (n: u64)
        ensures
            n == self.emitted(),
    {
        self.frame_index
    }

    /// Appends samples. Pull the frames out with [`Self::next_frame`].
    pub fn feed(&mut self, samples: &[u32])
        requires
            old(self).wf(),
        ensures
            final(self).wf(),
            final(self).window() == old(self).window(),
            final(self).hop() == old(self).hop(),
            final(self).emitted() == old(self).emitted(),
            final(self).fed() == old(self).fed() + samples@,
    {
        self.tail.extend_from_slice(samples);
        proof {
            let at = self.frame_index * self.hop_size;
            self.fed@ = self.fed@ + samples@;
            assert(old(self).tail@ == old(self).fed@.skip(at));
            assert(self.tail@ =~= self.fed@.skip(at));
        }
    }

    /// Writes the next full frame into `out` and returns its number, or
    /// `None` where no full window is buffered.
    pub fn next_frame(&mut self, out: &mut Vec<u32>) -> (index: Option<u64>)
        requires
            old(self).wf(),
            old(self).emitted() < u64::MAX,
        ensures
            final(self).wf(),
            final(self).window() == old(self).window(),
            final(self).hop() == old(self).hop(),
            final(self).fed() == old(self).fed(),
            index is Some <==> old(self).emitted() < frame_count(
                old(self).fed().len() as int,
                old(self).window(),
                old(self).hop(),
            ),
            index matches Some(i) ==> {
                &&& i == old(self).emitted()
                &&& final(self).emitted() == i + 1
                &&& final(out)@ == frame_at(
                    old(self).fed(),
                    old(self).window(),
                    old(self).hop(),
                    i as int,
                )
            },
            index is None ==> *final(self) == *old(self) && *final(out) == *old(out)
                && old(self).emitted() == frame_count(
                old(self).fed().len() as int,
                old(self).window(),
                old(self).hop(),
            ) && old(self).held() < old(self).window(),
    {
        let ghost n = self.fed@.len() as int;
        let ghost (w, h, i) = (
            self.window_size as int,
            self.hop_size as int,
            self.frame_index as int,
        );
        if self.tail.len() < self.window_size {
            proof {
                assert(i == frame_count(n, w, h)) by {
                    if n >= w {
                        assert((n - w) / h == i - 1) by {
                            let r = n - w - (i - 1) * h;
                            assert((i - 1) * h == i * h - h) by (nonlinear_arith);
                            assert(i > 0) by (nonlinear_arith)
                                requires
                                    i >= 0,
                                    n >= w,
                                    n - i * h < w,
                            ;
                            vstd::arithmetic::div_mod::lemma_fundamental_div_mod_converse(
                                n - w,
                                h,
                                i - 1,
                                r,
                            );
                        }
                    } else {
                        assert(i == 0) by (nonlinear_arith)
                            requires
                                i >= 0,
                                h > 0,
                                n < w,
                                i > 0 ==> i * h - h + w <= n,
                        ;
                    }
                }
            }
            return None;
        }
        proof {
            assert(i < frame_count(n, w, h)) by {
                assert(n - i * h >= w);
                assert(i * h <= n - w);
                assert(i * h >= 0) by (nonlinear_arith)
                    requires
                        i >= 0,
                        h > 0,
                ;
                assert(i <= (n - w) / h) by (nonlinear_arith)
                    requires
                        i * h <= n - w,
                        h > 0,
                ;
            }
            assert((i + 1) * h == i * h + h) by (nonlinear_arith);
        }
        out.clear();
        let mut k: usize = 0;
        while k < self.window_size
            invariant
                k <= self.window_size <= self.tail.len(),
                *self == *old(self),
                out@ == self.tail@.take(k as int),
            decreases self.window_size - k,
        {
            out.push(self.tail[k]);
            k = k + 1;
            assert(out@ =~= self.tail@.take(k as int));
        }
        assert(out@ =~= frame_at(self.fed@, w, h, i));
        let rest: Vec<u32> = self.tail.split_off(self.hop_size);
        self.tail = rest;
        let index: u64 = self.frame_index;
        self.frame_index = self.frame_index + 1;
        assert(self.tail@ =~= self.fed@.skip(i * h + h));
        Some(index)
    }
}

/// A complete frame stays what it is when more samples arrive, so how a
/// stream is cut into chunks does not matter.
pub proof fn law_chunking_does_not_change_frames(
    a: Seq<u32>,
    b: Seq<u32>,
    c: Seq<u32>,
    window: int,
    hop: int,
    i: int,
)
    requires
        0 < hop <= window,
        0 <= i < frame_count((a + b).len() as int, window, hop),
    ensures
        frame_at(a + b, window, hop, i) == frame_at(a + b + c, window, hop, i),
        i < frame_count((a + b + c).len() as int, window, hop),
{
    let n = (a + b).len() as int;
    assert(i * hop + window <= n && 0 <= i * hop) by (nonlinear_arith)
        requires
            0 < hop,
            0 <= i <= (n - window) / hop,
            n >= window,
    ;
    assert(frame_at(a + b, window, hop, i) =~= frame_at(a + b + c, window, hop, i));
    let m = (a + b + c).len() as int;
    assert((n - window) / hop <= (m - window) / hop) by (nonlinear_arith)
        requires
            0 < hop,
            n <= m,
    ;
}

/// An excerpt of a signal, cut to what there is.
pub open spec fn excerpt_of(samples: Seq<u32>, start: int, len: int) -> Seq<u32> {
    let n = samples.len() as int;
    let lo = if start <= n {
        start
    } else {
        n
    };
    let hi = if lo + len <= n {
        lo + len
    } else {
        n
    };
    samples.subrange(lo, hi)
}

/// Copies `len` samples from `start` on, as far as there are any.
pub fn excerpt(samples: &[u32], start: usize, len: usize) -> (out: Vec<u32>)
    ensures
        out@ == excerpt_of(samples@, start as int, len as int),
{
    let n: usize = samples.len();
    let lo: usize = if start <= n {
        start
    } else {
        n
    };
    let hi: usize = if len <= n - lo {
        lo + len
    } else {
        n
    };
    let mut out: Vec<u32> = Vec::new();
    let mut i: usize = lo;
    while i < hi
        invariant
            lo <= i <= hi <= samples.len(),
            out@ == samples@.subrange(lo as int, i as int),
        decreases hi - i,
    {
        out.push(samples[i]);
        i = i + 1;
        assert(out@ =~= samples@.subrange(lo as int, i as int));
    }
    out
}

/// Frame `i` is there exactly if all of its samples are, and holds them: a
/// window's worth from `i` hops on.
pub proof fn law_frames_are_windows(samples: Seq<u32>, window: int, hop: int, i: int)
    requires
        0 < hop <= window,
        0 <= i,
    ensures
        i < frame_count(samples.len() as int, window, hop) <==> i * hop + window <= samples.len(),
        i * hop + window <= samples.len() ==> {
            &&& frame_at(samples, window, hop, i).len() == window
            &&& forall|k: int|
                0 <= k < window ==> #[trigger] frame_at(samples, window, hop, i)[k] == samples[i
                    * hop + k]
        },
{
    let n = samples.len() as int;
    assert(0 <= i * hop) by (nonlinear_arith)
        requires
            0 <= i,
            0 < hop,
    ;
    if n >= window {
        assert((i <= (n - window) / hop) == (i * hop <= n - window)) by (nonlinear_arith)
            requires
                0 < hop,
                0 <= i,
                n >= window,
        ;
    }
}

/// An excerpt holds the samples from its start on, as many as were asked for
/// or as there are.
pub proof fn law_excerpts_are_cut_out(samples: Seq<u32>, start: int, len: int)
    requires
        0 <= start,
        0 <= len,
    ensures
        start + len <= samples.len() ==> excerpt_of(samples, start, len).len() == len,
        start <= samples.len() < start + len ==> excerpt_of(samples, start, len).len()
            == samples.len() - start,
        start > samples.len() ==> excerpt_of(samples, start, len).len() == 0,
        forall|k: int|
            0 <= k < excerpt_of(samples, start, len).len() ==> #[trigger] excerpt_of(
                samples,
                start,
                len,
            )[k] == samples[start + k],
{
}

/// Powers of two: one, and what doubling makes of another; nothing below one,
/// and above it nothing odd.
pub proof fn law_powers_of_two_come_by_doubling(n: int)
    ensures
        is_pow2(1),
        n < 1 ==> !is_pow2(n),
        is_pow2(n) ==> is_pow2(2 * n),
        n > 1 && is_pow2(n) ==> n % 2 == 0 && is_pow2(n / 2),
{
    vstd::arithmetic::power2::lemma2_to64();
    assert(1 == pow2(0));
    if is_pow2(n) {
        let e = choose|e: nat| n == #[trigger] pow2(e);
        vstd::arithmetic::power2::lemma_pow2_pos(e);
        vstd::arithmetic::power2::lemma_pow2_unfold(e + 1);
        assert(2 * n == pow2(e + 1));
        if e > 0 {
            vstd::arithmetic::power2::lemma_pow2_unfold(e);
            assert(n / 2 == pow2((e - 1) as nat));
        }
    }
}

} // verus!
