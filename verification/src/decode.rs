//! Collecting decoded packets into one mono stream.
//!
//! A decoder hands over packets of interleaved samples. What a packet adds
//! to the mono stream, and when a stream is refused, is decided here; sample
//! values stay opaque, and a mix of channels is noted, not computed.
use vstd::prelude::*;

verus! {

/// One mono sample, by the bits of the samples that it is made of.
#[derive(Debug, Clone, Copy, PartialEq, Eq, Structural)]
pub enum MonoSample {
    /// A sample as it stands.
    Plain(u32),
    /// The mean of the two channels.
    Mean(u32, u32),
}

/// Why no stream came out.
#[derive(Debug, Clone, Copy, PartialEq, Eq, Structural)]
pub enum CollectError {
    /// The sample rate changed on the way.
    RateChanged { from: u32, to: u32 },
    /// No sample was decoded.
    Empty,
}

/// What the first `frames` frames of a packet add: a single channel as it
/// stands, two channels by their mean, more channels by the first.
pub open spec fn mixed(samples: Seq<u32>, channels: int, frames: int) -> Seq<MonoSample> {
    Seq::new(
        frames as nat,
        |i: int|
            if channels == 2 {
                MonoSample::Mean(samples[2 * i], samples[2 * i + 1])
            } else {
                MonoSample::Plain(samples[i * channels])
            },
    )
}

/// Frames of a packet: a last one may be cut short where only its first
/// channel is read.
pub open spec fn packet_frames(len: int, channels: int) -> int {
    (len + channels - 1) / channels
}

/// Collects the packets of one track.
#[derive(Debug)]
pub struct MonoCollector {
    rate: Option<u32>,
    samples: Vec<MonoSample>,
}

impl View for MonoCollector {
    type V = Seq<MonoSample>;

    closed spec fn view(&self) -> Seq<MonoSample> {
        self.samples@
    }
}

impl MonoCollector {
    /// The sample rate of the packets so far.
    pub closed spec fn rate(&self) -> Option<u32> {
        self.rate
    }

    /// Samples come with a rate.
    pub closed spec fn wf(&self) -> bool {
        self.samples@.len() > 0 ==> self.rate is Some
    }

    pub fn new() -> (c: Self)
        ensures
            c.wf(),
            c@.len() == 0,
            c.rate() is None,
    {
        MonoCollector { rate: None, samples: Vec::new() }
    }

    /// Takes one packet of interleaved samples. A stereo packet holds whole
    /// frames. A packet of another rate than the first is refused.
    pub fn take_packet(&mut self, rate: u32, channels: usize, samples: &[u32]) -> (r: Result<
        (),
        CollectError,
    >)
        requires
            old(self).wf(),
            channels > 0,
            channels == 2 ==> samples.len() % 2 == 0,
            samples.len() + channels <= usize::MAX,
        ensures
            final(self).wf(),
            match old(self).rate() {
                Some(from) if from != rate => {
                    &&& r == Err::<(), CollectError>(
                        CollectError::RateChanged { from, to: rate },
                    )
                    &&& final(self)@ == old(self)@
                    &&& final(self).rate() == old(self).rate()
                },
                _ => {
                    &&& r is Ok
                    &&& final(self).rate() == Some(rate)
                    &&& final(self)@ == old(self)@ + mixed(
                        samples@,
                        channels as int,
                        packet_frames(samples.len() as int, channels as int),
                    )
                },
            },
    {
        match self.rate {
            Some(from) => {
                if from != rate {
                    return Err(CollectError::RateChanged { from, to: rate });
                }
            },
            None => {
                self.rate = Some(rate);
            },
        }
        let ghost start = self.samples@;
        let n: usize = (samples.len() + channels - 1) / channels;
        let mut i: usize = 0;
        let mut at: usize = 0;
        assert(start + mixed(samples@, channels as int, 0) =~= start);
        proof {
            let (len, c) = (samples.len() as int, channels as int);
            assert(0 * c == 0) by (nonlinear_arith);
            assert((0 < n) == (0 < len)) by (nonlinear_arith)
                requires
                    n == (len + c - 1) / c,
                    c > 0,
                    len >= 0,
            ;
        }
        while at < samples.len()
            invariant
                channels > 0,
                channels == 2 ==> samples.len() % 2 == 0,
                samples.len() + channels <= usize::MAX,
                n == packet_frames(samples.len() as int, channels as int),
                i <= n,
                at == i * channels,
                at <= samples.len() + channels,
                i < n <==> at < samples.len(),
                self.rate == Some(rate),
                self.samples@ == start + mixed(samples@, channels as int, i as int),
            decreases samples.len() + channels - at,
        {
            if channels == 2 {
                self.samples.push(MonoSample::Mean(samples[at], samples[at + 1]));
            } else {
                self.samples.push(MonoSample::Plain(samples[at]));
            }
            proof {
                assert((i + 1) * channels == at + channels) by (nonlinear_arith)
                    requires
                        at == i * channels,
                ;
                let len = samples.len() as int;
                let c = channels as int;
                assert((i + 1 < n) == ((i + 1) * c < len)) by (nonlinear_arith)
                    requires
                        n == (len + c - 1) / c,
                        c > 0,
                ;
            }
            i = i + 1;
            at = at + channels;
            assert(self.samples@ =~= start + mixed(samples@, channels as int, i as int));
        }
        Ok(())
    }

    /// The stream and its sample rate, unless it is empty.
    pub fn finish(self) -> (r: Result<(Vec<MonoSample>, u32), CollectError>)
        requires
            self.wf(),
        ensures
            r matches Ok((samples, rate)) ==> samples@ == self@ && self.rate() == Some(rate)
                && samples@.len() > 0,
            r matches Err(e) ==> e == CollectError::Empty && self@.len() == 0,
    {
        match self.rate {
            Some(rate) => {
                if self.samples.len() == 0 {
                    Err(CollectError::Empty)
                } else {
                    Ok((self.samples, rate))
                }
            },
            None => Err(CollectError::Empty),
        }
    }
}

/// A packet adds one sample per frame, a last short frame included: the only
/// channel as it stands, the mean of two, the first of more.
pub proof fn law_packets_are_mixed_frame_by_frame(samples: Seq<u32>, channels: int, i: int)
    requires
        channels > 0,
        channels == 2 ==> samples.len() % 2 == 0,
        0 <= i,
    ensures
        ({
            let out = mixed(
                samples,
                channels,
                packet_frames(samples.len() as int, channels),
            );
            &&& i < out.len() <==> i * channels < samples.len()
            &&& i < out.len() && channels == 1 ==> out[i] == MonoSample::Plain(samples[i])
            &&& i < out.len() && channels == 2 ==> out[i] == MonoSample::Mean(
                samples[2 * i],
                samples[2 * i + 1],
            )
            &&& i < out.len() && channels > 2 ==> out[i] == MonoSample::Plain(samples[channels * i])
        }),
{
    let n = samples.len() as int;
    let f = packet_frames(n, channels);
    assert(f >= 0 && ((i < f) == (i * channels < n))) by (nonlinear_arith)
        requires
            f == (n + channels - 1) / channels,
            channels > 0,
            n >= 0,
            i >= 0,
    ;
    assert(i * channels == channels * i) by (nonlinear_arith);
}

} // verus!
