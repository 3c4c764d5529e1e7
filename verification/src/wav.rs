//! Minimal WAV reader and writer (RIFF/WAVE, PCM16 and float32) over bytes.
//!
//! Enough for benchmark fixtures and degraded-query corpora. Floating-point
//! samples pass through as their bit patterns. Of 16-bit samples the channels
//! are averaged to mono: a sample is the sum over the channels, in units of
//! `1 / (32768 * channels)` of full scale, in which the average is exact.
use vstd::prelude::*;

use crate::bytes::{
    law_numbers_are_little_endian, le_at, lemma_byte_range, push_le, read_le, word_at,
};

verus! {

/// A chunk that a file must have.
#[derive(Debug, Clone, Copy, PartialEq, Eq, Structural)]
pub enum RequiredChunk {
    Fmt,
    Data,
}

/// What a sample count must be a whole number of.
#[derive(Debug, Clone, Copy, PartialEq, Eq, Structural)]
pub enum OddCount {
    Pcm16,
    Float32,
}

/// Why bytes are not a readable WAV file.
#[derive(Debug, Clone, Copy, PartialEq, Eq, Structural)]
pub enum WavError {
    /// The bytes end inside a field that must be there.
    UnexpectedEof,
    NotRiff,
    NotWave,
    MissingChunk(RequiredChunk),
    UnsupportedFormat(u16),
    UnsupportedBitsPerSample(u16),
    UnsupportedChannelCount(u16),
    Truncated(OddCount),
}

/// The fields of a `fmt ` chunk that matter.
#[derive(Debug, Clone, Copy, PartialEq, Eq, Structural)]
pub struct WavFormat {
    pub tag: u16,
    pub channels: u16,
    pub sample_rate: u32,
    pub bits: u16,
}

/// What walking the chunks found: the last `fmt ` chunk and where the last
/// `data` chunk lies.
#[derive(Debug, Clone, Copy)]
pub struct Chunks {
    pub format: Option<WavFormat>,
    pub data: Option<(usize, usize)>,
}

/// The four bytes at `at`, as a tag.
pub open spec fn tag_at(b: Seq<u8>, at: int) -> (u8, u8, u8, u8) {
    (b[at], b[at + 1], b[at + 2], b[at + 3])
}

pub open spec fn is_fmt(tag: (u8, u8, u8, u8)) -> bool {
    tag.0 == 0x66 && tag.1 == 0x6d && tag.2 == 0x74 && tag.3 == 0x20
}

pub open spec fn is_data(tag: (u8, u8, u8, u8)) -> bool {
    tag.0 == 0x64 && tag.1 == 0x61 && tag.2 == 0x74 && tag.3 == 0x61
}

/// The format in the sixteen bytes at `at`.
pub open spec fn format_at(b: Seq<u8>, at: int) -> WavFormat {
    WavFormat {
        tag: le_at(b, at, 2) as u16,
        channels: le_at(b, at + 2, 2) as u16,
        sample_rate: le_at(b, at + 4, 4) as u32,
        bits: le_at(b, at + 14, 2) as u16,
    }
}

/// Where the chunk at `at` ends. A `fmt ` chunk takes at least sixteen bytes.
pub open spec fn chunk_end(b: Seq<u8>, at: int) -> int {
    let size = le_at(b, at + 4, 4) as int;
    if is_fmt(tag_at(b, at)) && size < 16 {
        at + 24
    } else {
        at + 8 + size
    }
}

/// The chunks from `at` on. Unknown ones are skipped; the walk ends where no
/// further tag fits.
pub open spec fn walk(b: Seq<u8>, at: int, found: Chunks) -> Result<Chunks, WavError>
    decreases b.len() - at,
{
    if at + 4 > b.len() {
        Ok(found)
    } else if at + 8 > b.len() || chunk_end(b, at) > b.len() {
        Err(WavError::UnexpectedEof)
    } else if is_fmt(tag_at(b, at)) {
        walk(b, chunk_end(b, at), Chunks { format: Some(format_at(b, at + 8)), ..found })
    } else if is_data(tag_at(b, at)) {
        walk(
            b,
            chunk_end(b, at),
            Chunks { data: Some(((at + 8) as usize, le_at(b, at + 4, 4) as usize)), ..found },
        )
    } else {
        walk(b, chunk_end(b, at), found)
    }
}

/// Samples of a file.
#[derive(Debug)]
pub enum WavSamples {
    /// Mono, in units of `1 / (32768 * channels)` of full scale: the mean of
    /// the channels.
    Pcm16(Vec<i32>),
    /// Bit patterns of single-precision numbers, the channels of each whole
    /// frame interleaved.
    Float32(Vec<u32>),
}

/// Audio of a file.
#[derive(Debug)]
pub struct WavData {
    pub sample_rate: u32,
    pub channels: u16,
    pub samples: WavSamples,
}

/// The signed value of two bytes.
pub open spec fn pcm_at(b: Seq<u8>, at: int) -> int {
    let v = le_at(b, at, 2) as int;
    if v >= 0x8000 {
        v - 0x1_0000
    } else {
        v
    }
}

/// Sum of the `n` samples from `at` on.
pub open spec fn channel_sum(b: Seq<u8>, at: int, n: int) -> int
    decreases n,
{
    if n <= 0 {
        0
    } else {
        channel_sum(b, at, n - 1) + pcm_at(b, at + 2 * (n - 1))
    }
}

/// Sample `i` of data at `at`: the channels of its frame together. Divided by
/// their number it is their mean.
pub open spec fn mono_sample(b: Seq<u8>, at: int, channels: int, i: int) -> int {
    channel_sum(b, at + 2 * channels * i, channels)
}

/// What is wrong with a format and `len` bytes of data, if anything.
pub open spec fn format_fault(f: WavFormat, len: int) -> Option<WavError> {
    if f.tag != 1 && f.tag != 3 {
        Some(WavError::UnsupportedFormat(f.tag))
    } else if f.tag == 1 && f.bits == 16 && len % 2 != 0 {
        Some(WavError::Truncated(OddCount::Pcm16))
    } else if f.tag == 3 && f.bits == 32 && len % 4 != 0 {
        Some(WavError::Truncated(OddCount::Float32))
    } else if !(f.tag == 1 && f.bits == 16) && !(f.tag == 3 && f.bits == 32) {
        Some(WavError::UnsupportedBitsPerSample(f.bits))
    } else if f.channels == 0 {
        Some(WavError::UnsupportedChannelCount(f.channels))
    } else {
        None
    }
}

/// What reading bytes comes to: the format and the place of the data, or the
/// first thing wrong.
pub open spec fn wav_outcome(b: Seq<u8>) -> Result<(WavFormat, (usize, usize)), WavError> {
    if b.len() < 4 {
        Err(WavError::UnexpectedEof)
    } else if tag_at(b, 0) != (0x52u8, 0x49u8, 0x46u8, 0x46u8) {
        Err(WavError::NotRiff)
    } else if b.len() < 12 {
        Err(WavError::UnexpectedEof)
    } else if tag_at(b, 8) != (0x57u8, 0x41u8, 0x56u8, 0x45u8) {
        Err(WavError::NotWave)
    } else {
        match walk(b, 12, Chunks { format: None, data: None }) {
            Err(e) => Err(e),
            Ok(found) => match found.format {
                None => Err(WavError::MissingChunk(RequiredChunk::Fmt)),
                Some(f) => match found.data {
                    None => Err(WavError::MissingChunk(RequiredChunk::Data)),
                    Some((at, len)) => match format_fault(f, len as int) {
                        Some(e) => Err(e),
                        None => Ok((f, (at, len))),
                    },
                },
            },
        }
    }
}

/// The samples are those of the `len` bytes at `at`.
pub open spec fn reads_samples(
    b: Seq<u8>,
    f: WavFormat,
    at: int,
    len: int,
    samples: WavSamples,
) -> bool {
    match samples {
        WavSamples::Pcm16(v) => {
            &&& f.tag == 1
            &&& v@.len() == len / (2 * f.channels)
            &&& forall|i: int|
                0 <= i < v@.len() ==> #[trigger] v@[i] == mono_sample(b, at, f.channels as int, i)
        },
        WavSamples::Float32(v) => {
            &&& f.tag == 3
            &&& v@.len() == len / (4 * f.channels) * f.channels
            &&& forall|i: int| 0 <= i < v@.len() ==> #[trigger] v@[i] == le_at(b, at + 4 * i, 4)
        },
    }
}

/// Read a 16-bit number.
pub fn read_u16(b: &[u8], at: usize) -> (v: u16)
    requires
        at + 2 <= b.len(),
    ensures
        v == le_at(b@, at as int, 2),
{
    proof {
        lemma_byte_range();
    }
    read_le(b, at, 2) as u16
}

/// Read a 32-bit number.
pub fn read_u32(b: &[u8], at: usize) -> (v: u32)
    requires
        at + 4 <= b.len(),
    ensures
        v == le_at(b@, at as int, 4),
{
    proof {
        lemma_byte_range();
    }
    read_le(b, at, 4) as u32
}

fn read_tag(b: &[u8], at: usize) -> (t: (u8, u8, u8, u8))
    requires
        at + 4 <= b.len(),
    ensures
        t == tag_at(b@, at as int),
{
    (b[at], b[at + 1], b[at + 2], b[at + 3])
}

fn walk_chunks(b: &[u8]) -> (r: Result<Chunks, WavError>)
    requires
        b.len() >= 12,
    ensures
        r == walk(b@, 12, Chunks { format: None, data: None }),
        r matches Ok(found) ==> (found.data matches Some((at, len)) ==> at + len <= b.len()),
{
    let n: usize = b.len();
    let mut at: usize = 12;
    let mut found = Chunks { format: None, data: None };
    while n - at >= 4
        invariant
            n == b.len(),
            12 <= at <= n,
            walk(b@, 12, Chunks { format: None, data: None }) == walk(b@, at as int, found),
            found.data matches Some((start, len)) ==> start + len <= n,
        decreases n - at,
    {
        if n - at < 8 {
            return Err(WavError::UnexpectedEof);
        }
        let tag: (u8, u8, u8, u8) = read_tag(b, at);
        let size: u32 = read_u32(b, at + 4);
        let fmt: bool = tag.0 == 0x66 && tag.1 == 0x6d && tag.2 == 0x74 && tag.3 == 0x20;
        let data: bool = tag.0 == 0x64 && tag.1 == 0x61 && tag.2 == 0x74 && tag.3 == 0x61;
        let body: u64 = if fmt && size < 16 {
            16
        } else {
            size as u64
        };
        if body > (n - at - 8) as u64 {
            return Err(WavError::UnexpectedEof);
        }
        let end: usize = at + 8 + body as usize;
        if fmt {
            let format = WavFormat {
                tag: read_u16(b, at + 8),
                channels: read_u16(b, at + 10),
                sample_rate: read_u32(b, at + 12),
                bits: read_u16(b, at + 22),
            };
            found.format = Some(format);
        } else if data {
            found.data = Some((at + 8, size as usize));
        }
        at = end;
    }
    Ok(found)
}

fn read_pcm(b: &[u8], at: usize) -> (v: i32)
    requires
        at + 2 <= b.len(),
    ensures
        v == pcm_at(b@, at as int),
        -0x8000 <= v < 0x8000,
{
    let raw: u16 = read_u16(b, at);
    if raw >= 0x8000 {
        raw as i32 - 0x1_0000
    } else {
        raw as i32
    }
}

/// Read a WAV file held in memory. More than one channel of 16-bit samples is
/// averaged to mono.
pub fn read_wav(b: &[u8]) -> (r: Result<WavData, WavError>)
    ensures
        match wav_outcome(b@) {
            Err(e) => r == Err::<WavData, WavError>(e),
            Ok((f, (at, len))) => {
                &&& r is Ok
                &&& r->Ok_0.sample_rate == f.sample_rate
                &&& r->Ok_0.channels == f.channels
                &&& reads_samples(b@, f, at as int, len as int, r->Ok_0.samples)
            },
        },
{
    if b.len() < 4 {
        return Err(WavError::UnexpectedEof);
    }
    let riff: (u8, u8, u8, u8) = read_tag(b, 0);
    if !(riff.0 == 0x52 && riff.1 == 0x49 && riff.2 == 0x46 && riff.3 == 0x46) {
        return Err(WavError::NotRiff);
    }
    if b.len() < 12 {
        return Err(WavError::UnexpectedEof);
    }
    let wave: (u8, u8, u8, u8) = read_tag(b, 8);
    if !(wave.0 == 0x57 && wave.1 == 0x41 && wave.2 == 0x56 && wave.3 == 0x45) {
        return Err(WavError::NotWave);
    }
    let found: Chunks = match walk_chunks(b) {
        Ok(found) => found,
        Err(e) => {
            return Err(e);
        },
    };
    let f: WavFormat = match found.format {
        Some(f) => f,
        None => {
            return Err(WavError::MissingChunk(RequiredChunk::Fmt));
        },
    };
    let (at, len): (usize, usize) = match found.data {
        Some(d) => d,
        None => {
            return Err(WavError::MissingChunk(RequiredChunk::Data));
        },
    };
    if f.tag != 1 && f.tag != 3 {
        return Err(WavError::UnsupportedFormat(f.tag));
    }
    if f.tag == 1 && f.bits == 16 {
        if len % 2 != 0 {
            return Err(WavError::Truncated(OddCount::Pcm16));
        }
        if f.channels == 0 {
            return Err(WavError::UnsupportedChannelCount(f.channels));
        }
        let v: Vec<i32> = decode_pcm16(b, at, len, f.channels);
        return Ok(WavData { sample_rate: f.sample_rate, channels: f.channels, samples: WavSamples::Pcm16(v) });
    }
    if f.tag == 3 && f.bits == 32 {
        if len % 4 != 0 {
            return Err(WavError::Truncated(OddCount::Float32));
        }
        if f.channels == 0 {
            return Err(WavError::UnsupportedChannelCount(f.channels));
        }
        let v: Vec<u32> = decode_f32(b, at, len, f.channels);
        return Ok(WavData { sample_rate: f.sample_rate, channels: f.channels, samples: WavSamples::Float32(v) });
    }
    Err(WavError::UnsupportedBitsPerSample(f.bits))
}

/// Frames of `width` bytes lie one after the other.
proof fn lemma_frames_fit(len: int, width: int, i: int)
    requires
        width > 0,
        0 <= i < len / width,
    ensures
        0 <= width * i,
        width * i + width == width * (i + 1) <= len,
{
    vstd::arithmetic::div_mod::lemma_fundamental_div_mod(len, width);
    let n = len / width;
    assert(width * i + width == width * (i + 1)) by (nonlinear_arith);
    assert(0 <= width * i) by (nonlinear_arith)
        requires
            width > 0,
            0 <= i,
    ;
    assert(width * (i + 1) <= width * n) by (nonlinear_arith)
        requires
            width > 0,
            i + 1 <= n,
    ;
}

/// The sum of the channels of the frame at `at`.
fn sum_channels(b: &[u8], at: usize, channels: u16) -> (sum: i32)
    requires
        at + 2 * channels <= b.len(),
    ensures
        sum == channel_sum(b@, at as int, channels as int),
{
    let mut sum: i32 = 0;
    let mut c: u16 = 0;
    while c < channels
        invariant
            c <= channels,
            at + 2 * channels <= b.len(),
            sum == channel_sum(b@, at as int, c as int),
            -0x8000 * c <= sum <= 0x7fff * c,
        decreases channels - c,
    {
        sum = sum + read_pcm(b, at + 2 * (c as usize));
        c = c + 1;
    }
    sum
}

fn decode_pcm16(b: &[u8], at: usize, len: usize, channels: u16) -> (v: Vec<i32>)
    requires
        at + len <= b.len(),
        channels > 0,
    ensures
        v@.len() == len as int / (2 * channels),
        forall|i: int|
            0 <= i < v@.len() ==> #[trigger] v@[i] == mono_sample(
                b@,
                at as int,
                channels as int,
                i,
            ),
{
    let width: usize = 2 * channels as usize;
    let n: usize = len / width;
    let mut v: Vec<i32> = Vec::new();
    let mut i: usize = 0;
    let mut pos: usize = at;
    assert(width * 0 == 0);
    while i < n
        invariant
            i <= n,
            at + len <= b.len(),
            channels > 0,
            width == 2 * channels,
            n == len / width,
            pos == at + width * i,
            v.len() == i,
            forall|k: int|
                0 <= k < i ==> #[trigger] v@[k] == mono_sample(b@, at as int, channels as int, k),
        decreases n - i,
    {
        proof {
            lemma_frames_fit(len as int, width as int, i as int);
        }
        v.push(sum_channels(b, pos, channels));
        pos = pos + width;
        i = i + 1;
    }
    v
}

fn decode_f32(b: &[u8], at: usize, len: usize, channels: u16) -> (v: Vec<u32>)
    requires
        at + len <= b.len(),
        channels > 0,
    ensures
        v@.len() == len as int / (4 * channels) * channels,
        forall|i: int| 0 <= i < v@.len() ==> #[trigger] v@[i] == le_at(b@, at + 4 * i, 4),
{
    let width: usize = 4 * channels as usize;
    let frames: usize = len / width;
    proof {
        vstd::arithmetic::div_mod::lemma_fundamental_div_mod(len as int, width as int);
        assert(4 * (frames * channels) == width * frames) by (nonlinear_arith)
            requires
                width == 4 * channels,
        ;
        assert(0 <= frames * channels) by (nonlinear_arith);
    }
    let n: usize = frames * channels as usize;
    let mut v: Vec<u32> = Vec::new();
    let mut i: usize = 0;
    while i < n
        invariant
            i <= n,
            4 * n <= len,
            at + len <= b.len(),
            v.len() == i,
            forall|k: int| 0 <= k < i ==> #[trigger] v@[k] == le_at(b@, at + 4 * k, 4),
        decreases n - i,
    {
        v.push(read_u32(b, at + 4 * i));
        i = i + 1;
    }
    v
}

/// The bytes of a mono 16-bit file.
pub open spec fn is_wav_of(b: Seq<u8>, sample_rate: u32, samples: Seq<i16>) -> bool {
    &&& b.len() == 44 + 2 * samples.len()
    &&& tag_at(b, 0) == (0x52u8, 0x49u8, 0x46u8, 0x46u8)
    &&& le_at(b, 4, 4) == 36 + 2 * samples.len()
    &&& tag_at(b, 8) == (0x57u8, 0x41u8, 0x56u8, 0x45u8)
    &&& is_fmt(tag_at(b, 12))
    &&& le_at(b, 16, 4) == 16
    &&& format_at(b, 20) == (WavFormat { tag: 1, channels: 1, sample_rate, bits: 16 })
    &&& le_at(b, 28, 4) == 2 * sample_rate
    &&& le_at(b, 32, 2) == 2
    &&& is_data(tag_at(b, 36))
    &&& le_at(b, 40, 4) == 2 * samples.len()
    &&& forall|i: int| 0 <= i < samples.len() ==> #[trigger] pcm_at(b, 44 + 2 * i) == samples[i]
}

fn push_tag(out: &mut Vec<u8>, a: u8, b: u8, c: u8, d: u8)
    ensures
        final(out)@ == old(out)@ + seq![a, b, c, d],
{
    out.push(a);
    out.push(b);
    out.push(c);
    out.push(d);
    assert(out@ =~= old(out)@ + seq![a, b, c, d]);
}

/// A number read before more bytes were added reads the same after.
proof fn lemma_kept(a: Seq<u8>, b: Seq<u8>, at: int, n: int)
    requires
        0 <= at,
        0 <= n,
        at + n <= a.len() <= b.len(),
        b.take(a.len() as int) == a,
    ensures
        le_at(b, at, n) == le_at(a, at, n),
{
    assert(a.subrange(at, at + n) =~= b.take(a.len() as int).subrange(at, at + n));
    assert(b.subrange(at, at + n) =~= b.take(a.len() as int).subrange(at, at + n));
}

/// The header of a mono 16-bit file of `data_len` data bytes.
fn push_wav_header(out: &mut Vec<u8>, sample_rate: u32, data_len: u32)
    requires
        old(out).len() == 0,
        data_len + 36 <= u32::MAX,
        2 * sample_rate <= u32::MAX,
    ensures
        final(out).len() == 44,
        tag_at(final(out)@, 0) == (0x52u8, 0x49u8, 0x46u8, 0x46u8),
        le_at(final(out)@, 4, 4) == 36 + data_len,
        tag_at(final(out)@, 8) == (0x57u8, 0x41u8, 0x56u8, 0x45u8),
        is_fmt(tag_at(final(out)@, 12)),
        le_at(final(out)@, 16, 4) == 16,
        format_at(final(out)@, 20) == (WavFormat { tag: 1, channels: 1, sample_rate, bits: 16 }),
        le_at(final(out)@, 28, 4) == 2 * sample_rate,
        le_at(final(out)@, 32, 2) == 2,
        is_data(tag_at(final(out)@, 36)),
        le_at(final(out)@, 40, 4) == data_len,
{
    proof {
        lemma_byte_range();
    }
    push_tag(out, 0x52, 0x49, 0x46, 0x46);
    push_le(out, 36 + data_len as u64, 4);
    let ghost s1 = out@;
    push_tag(out, 0x57, 0x41, 0x56, 0x45);
    push_tag(out, 0x66, 0x6d, 0x74, 0x20);
    push_le(out, 16, 4);
    let ghost s2 = out@;
    push_le(out, 1, 2);
    let ghost s3 = out@;
    push_le(out, 1, 2);
    let ghost s4 = out@;
    push_le(out, sample_rate as u64, 4);
    let ghost s5 = out@;
    push_le(out, 2 * sample_rate as u64, 4);
    let ghost s6 = out@;
    push_le(out, 2, 2);
    let ghost s7 = out@;
    push_le(out, 16, 2);
    let ghost s8 = out@;
    push_tag(out, 0x64, 0x61, 0x74, 0x61);
    push_le(out, data_len as u64, 4);
    proof {
        let b = out@;
        assert(b.take(s8.len() as int) =~= s8);
        assert(b.take(s7.len() as int) =~= s7);
        assert(b.take(s6.len() as int) =~= s6);
        assert(b.take(s5.len() as int) =~= s5);
        assert(b.take(s4.len() as int) =~= s4);
        assert(b.take(s3.len() as int) =~= s3);
        assert(b.take(s2.len() as int) =~= s2);
        assert(b.take(s1.len() as int) =~= s1);
        lemma_kept(s1, b, 4, 4);
        lemma_kept(s2, b, 16, 4);
        lemma_kept(s3, b, 20, 2);
        lemma_kept(s4, b, 22, 2);
        lemma_kept(s5, b, 24, 4);
        lemma_kept(s6, b, 28, 4);
        lemma_kept(s7, b, 32, 2);
        lemma_kept(s8, b, 34, 2);
    }
}

/// Write mono 16-bit samples as a WAV file.
pub fn write_wav(sample_rate: u32, samples: &[i16]) -> (out: Vec<u8>)
    requires
        2 * samples.len() + 36 <= u32::MAX,
        2 * sample_rate <= u32::MAX,
    ensures
        is_wav_of(out@, sample_rate, samples@),
{
    let mut out: Vec<u8> = Vec::new();
    push_wav_header(&mut out, sample_rate, (2 * samples.len()) as u32);
    let ghost header = out@;
    let mut i: usize = 0;
    assert(out@.take(44) =~= header);
    while i < samples.len()
        invariant
            i <= samples.len(),
            header.len() == 44,
            out.len() == 44 + 2 * i,
            out@.take(44) == header,
            forall|k: int| 0 <= k < i ==> #[trigger] pcm_at(out@, 44 + 2 * k) == samples[k],
        decreases samples.len() - i,
    {
        let s: i16 = samples[i];
        let raw: u64 = if s < 0 {
            (s as i64 + 0x1_0000) as u64
        } else {
            s as u64
        };
        let ghost before = out@;
        push_le(&mut out, raw, 2);
        proof {
            lemma_byte_range();
            assert(out@.take(before.len() as int) =~= before);
            assert(out@.take(44) =~= before.take(44));
            assert forall|k: int| 0 <= k < i + 1 implies #[trigger] pcm_at(out@, 44 + 2 * k)
                == samples[k] by {
                if k < i {
                    assert(pcm_at(before, 44 + 2 * k) == samples[k]);
                    lemma_kept(before, out@, 44 + 2 * k, 2);
                }
            }
        }
        i = i + 1;
    }
    proof {
        let b = out@;
        lemma_kept(header, b, 4, 4);
        lemma_kept(header, b, 16, 4);
        lemma_kept(header, b, 20, 2);
        lemma_kept(header, b, 22, 2);
        lemma_kept(header, b, 24, 4);
        lemma_kept(header, b, 28, 4);
        lemma_kept(header, b, 32, 2);
        lemma_kept(header, b, 34, 2);
        lemma_kept(header, b, 40, 4);
        assert forall|k: int| 0 <= k < 44 implies b[k] == header[k] by {
            assert(b.take(44)[k] == header[k]);
        }
    }
    out
}

/// Reading gives back what was written: the sample rate and every sample.
pub proof fn law_read_inverts_write(b: Seq<u8>, sample_rate: u32, samples: Seq<i16>)
    requires
        is_wav_of(b, sample_rate, samples),
        2 * samples.len() + 36 <= u32::MAX,
    ensures
        wav_outcome(b) == Ok::<(WavFormat, (usize, usize)), WavError>(
            (
                WavFormat { tag: 1, channels: 1, sample_rate, bits: 16 },
                (44usize, (2 * samples.len()) as usize),
            ),
        ),
        forall|i: int|
            0 <= i < samples.len() ==> #[trigger] mono_sample(b, 44, 1, i) == samples[i],
{
    reveal_with_fuel(walk, 4);
    assert(chunk_end(b, 12) == 36);
    assert(chunk_end(b, 36) == b.len());
    assert forall|i: int| 0 <= i < samples.len() implies #[trigger] mono_sample(b, 44, 1, i)
        == samples[i] by {
        assert(pcm_at(b, 44 + 2 * i) == samples[i]);
        reveal_with_fuel(channel_sum, 2);
    }
}

/// Two channels are averaged: opposite samples cancel.
pub proof fn law_stereo_is_averaged(b: Seq<u8>, at: int, i: int)
    ensures
        mono_sample(b, at, 2, i) == pcm_at(b, at + 4 * i) + pcm_at(b, at + 4 * i + 2),
        pcm_at(b, at + 4 * i) == -pcm_at(b, at + 4 * i + 2) ==> mono_sample(b, at, 2, i) == 0,
{
    reveal_with_fuel(channel_sum, 3);
}

/// The average of equal channels is what each of them holds.
pub proof fn law_equal_channels_keep_their_value(b: Seq<u8>, at: int, channels: int, i: int, v: int)
    requires
        channels > 0,
        forall|c: int|
            0 <= c < channels ==> #[trigger] pcm_at(b, at + 2 * channels * i + 2 * c) == v,
    ensures
        mono_sample(b, at, channels, i) == channels * v,
{
    lemma_equal_channels(b, at + 2 * channels * i, channels, v);
}

proof fn lemma_equal_channels(b: Seq<u8>, at: int, n: int, v: int)
    requires
        0 <= n,
        forall|c: int| 0 <= c < n ==> #[trigger] pcm_at(b, at + 2 * c) == v,
    ensures
        channel_sum(b, at, n) == n * v,
    decreases n,
{
    if n > 0 {
        lemma_equal_channels(b, at, n - 1, v);
        assert(pcm_at(b, at + 2 * (n - 1)) == v);
        assert(n * v == (n - 1) * v + v) by (nonlinear_arith);
    } else {
        assert(0 * v == 0);
    }
}

/// The words of an error.
pub open spec fn wav_error_words(e: WavError) -> Seq<char> {
    match e {
        WavError::UnexpectedEof => "io error: failed to fill whole buffer"@,
        WavError::NotRiff => "not a RIFF file"@,
        WavError::NotWave => "not a WAVE file"@,
        WavError::MissingChunk(RequiredChunk::Fmt) => "missing fmt  chunk"@,
        WavError::MissingChunk(RequiredChunk::Data) => "missing data chunk"@,
        WavError::UnsupportedFormat(v) => "unsupported format tag "@ + crate::ids::decimal(
            v as nat,
        ),
        WavError::UnsupportedBitsPerSample(v) => "unsupported bits per sample "@
            + crate::ids::decimal(v as nat),
        WavError::UnsupportedChannelCount(v) => "unsupported channel count "@
            + crate::ids::decimal(v as nat),
        WavError::Truncated(OddCount::Pcm16) => "truncated file: odd PCM16 byte count"@,
        WavError::Truncated(OddCount::Float32) => "truncated file: odd f32 byte count"@,
    }
}

fn words_and_number(words: &str, n: u16) -> (s: String)
    ensures
        s@ == words@ + crate::ids::decimal(n as nat),
{
    let mut cs: Vec<char> = crate::text::chars_of(words);
    let mut digits: Vec<char> = crate::ids::decimal_digits(n as u64);
    cs.append(&mut digits);
    crate::text::string_of(&cs)
}

impl WavError {
    /// The error in words.
    pub fn describe(&self) -> (s: String)
        ensures
            s@ == wav_error_words(*self),
    {
        match self {
            WavError::UnexpectedEof => "io error: failed to fill whole buffer".to_owned(),
            WavError::NotRiff => "not a RIFF file".to_owned(),
            WavError::NotWave => "not a WAVE file".to_owned(),
            WavError::MissingChunk(RequiredChunk::Fmt) => "missing fmt  chunk".to_owned(),
            WavError::MissingChunk(RequiredChunk::Data) => "missing data chunk".to_owned(),
            WavError::UnsupportedFormat(v) => words_and_number("unsupported format tag ", *v),
            WavError::UnsupportedBitsPerSample(v) => words_and_number(
                "unsupported bits per sample ",
                *v,
            ),
            WavError::UnsupportedChannelCount(v) => words_and_number(
                "unsupported channel count ",
                *v,
            ),
            WavError::Truncated(OddCount::Pcm16) =>
                "truncated file: odd PCM16 byte count".to_owned(),
            WavError::Truncated(OddCount::Float32) =>
                "truncated file: odd f32 byte count".to_owned(),
        }
    }
}

// ---- the format, byte by byte ----

/// The four letters at `at`.
pub open spec fn letters_at(b: Seq<u8>, at: int, a: char, c: char, d: char, e: char) -> bool {
    b[at] == a as u8 && b[at + 1] == c as u8 && b[at + 2] == d as u8 && b[at + 3] == e as u8
}

/// The chunks are walked one by one: four letters, a size in four bytes, and
/// so many bytes. Of a chunk `fmt `, which takes at least sixteen bytes, tag,
/// channels, rate and bits are noted; of a chunk `data` its place; others are
/// passed over. A chunk that is cut short ends the walk with an error, and
/// fewer than four further bytes end it.
pub proof fn law_chunks_are_walked_one_by_one(b: Seq<u8>, at: int, found: Chunks)
    requires
        0 <= at,
        b.len() <= usize::MAX,
    ensures
        at + 4 > b.len() ==> walk(b, at, found) == Ok::<Chunks, WavError>(found),
        at + 4 <= b.len() < at + 8 ==> walk(b, at, found) == Err::<Chunks, WavError>(
            WavError::UnexpectedEof,
        ),
        at + 8 <= b.len() ==> {
            let size = word_at(b, at + 4);
            let fmt = letters_at(b, at, 'f', 'm', 't', ' ');
            let data = letters_at(b, at, 'd', 'a', 't', 'a');
            let taken = if fmt && size < 16 {
                16
            } else {
                size
            };
            if at + 8 + taken > b.len() {
                walk(b, at, found) == Err::<Chunks, WavError>(WavError::UnexpectedEof)
            } else if fmt {
                let format = WavFormat {
                    tag: (b[at + 8] + 0x100 * b[at + 9]) as u16,
                    channels: (b[at + 10] + 0x100 * b[at + 11]) as u16,
                    sample_rate: word_at(b, at + 12) as u32,
                    bits: (b[at + 22] + 0x100 * b[at + 23]) as u16,
                };
                walk(b, at, found) == walk(
                    b,
                    at + 8 + taken,
                    Chunks { format: Some(format), data: found.data },
                )
            } else if data {
                walk(b, at, found) == walk(
                    b,
                    at + 8 + taken,
                    Chunks {
                        format: found.format,
                        data: Some(((at + 8) as usize, size as usize)),
                    },
                )
            } else {
                walk(b, at, found) == walk(b, at + 8 + taken, found)
            }
        },
{
    if at + 8 <= b.len() {
        law_numbers_are_little_endian(b, at + 4);
        if chunk_end(b, at) <= b.len() && is_fmt(tag_at(b, at)) {
            law_numbers_are_little_endian(b, at + 8);
            law_numbers_are_little_endian(b, at + 10);
            law_numbers_are_little_endian(b, at + 12);
            law_numbers_are_little_endian(b, at + 22);
        }
    }
}

/// A file is read if it starts with RIFF, a size and WAVE, its chunks can be
/// walked and hold a format and data, and nothing is wrong with the format;
/// what fails first is told.
pub proof fn law_files_start_with_riff_and_wave(b: Seq<u8>)
    ensures
        ({
            let riff = letters_at(b, 0, 'R', 'I', 'F', 'F');
            let wave = letters_at(b, 8, 'W', 'A', 'V', 'E');
            let chunks = walk(b, 12, Chunks { format: None, data: None });
            let out = wav_outcome(b);
            if b.len() < 4 {
                out->Err_0 == WavError::UnexpectedEof && out is Err
            } else if !riff {
                out->Err_0 == WavError::NotRiff && out is Err
            } else if b.len() < 12 {
                out->Err_0 == WavError::UnexpectedEof && out is Err
            } else if !wave {
                out->Err_0 == WavError::NotWave && out is Err
            } else if chunks is Err {
                out is Err && out->Err_0 == chunks->Err_0
            } else if chunks->Ok_0.format is None {
                out is Err && out->Err_0 == WavError::MissingChunk(RequiredChunk::Fmt)
            } else if chunks->Ok_0.data is None {
                out is Err && out->Err_0 == WavError::MissingChunk(RequiredChunk::Data)
            } else {
                let f = chunks->Ok_0.format->0;
                let place = chunks->Ok_0.data->0;
                match format_fault(f, place.1 as int) {
                    Some(e) => out is Err && out->Err_0 == e,
                    None => out is Ok && out->Ok_0 == (f, place),
                }
            }
        }),
{
}

/// Readable are 16-bit whole numbers (tag 1) and 32-bit floating-point
/// numbers (tag 3), in whole samples and at least one channel. The tag is
/// judged first; of a known width a cut sample before the channels; any other
/// width is refused.
pub proof fn law_two_formats_are_readable(f: WavFormat, len: int)
    requires
        0 <= len,
    ensures
        ({
            let pcm = f.tag == 1 && f.bits == 16;
            let float = f.tag == 3 && f.bits == 32;
            let whole = (pcm && len % 2 == 0) || (float && len % 4 == 0);
            &&& format_fault(f, len) is None <==> whole && f.channels >= 1
            &&& f.tag != 1 && f.tag != 3 ==> format_fault(f, len) == Some(
                WavError::UnsupportedFormat(f.tag),
            )
            &&& (f.tag == 1 || f.tag == 3) && !pcm && !float ==> format_fault(f, len) == Some(
                WavError::UnsupportedBitsPerSample(f.bits),
            )
            &&& pcm && len % 2 == 1 ==> format_fault(f, len) == Some(
                WavError::Truncated(OddCount::Pcm16),
            )
            &&& float && len % 4 != 0 ==> format_fault(f, len) == Some(
                WavError::Truncated(OddCount::Float32),
            )
            &&& whole && f.channels == 0 ==> format_fault(f, len) == Some(
                WavError::UnsupportedChannelCount(0),
            )
        }),
{
}

/// A 16-bit sample is two bytes, the second of which carries the sign; a mono
/// sample adds up the channels of its frame, one after the other.
pub proof fn law_samples_are_read_byte_by_byte(b: Seq<u8>, at: int, channels: int, i: int, n: int)
    requires
        0 <= at,
        at + 2 * n + 2 <= b.len(),
        0 <= n,
    ensures
        pcm_at(b, at + 2 * n) == b[at + 2 * n] + 0x100 * b[at + 2 * n + 1] - if b[at + 2 * n + 1]
            >= 128 {
            65_536int
        } else {
            0
        },
        channel_sum(b, at, 0) == 0,
        channel_sum(b, at, n + 1) == channel_sum(b, at, n) + pcm_at(b, at + 2 * n),
        mono_sample(b, at, channels, i) == channel_sum(b, at + 2 * channels * i, channels),
{
    law_numbers_are_little_endian(b, at + 2 * n);
}

/// The samples of a file, by its format: one per frame of whole numbers, the
/// channels together; one per channel of floating-point numbers, four bytes
/// each.
pub proof fn law_samples_follow_the_format(
    b: Seq<u8>,
    f: WavFormat,
    at: int,
    len: int,
    samples: WavSamples,
)
    requires
        reads_samples(b, f, at, len, samples),
        f.channels >= 1,
        0 <= at,
        0 <= len,
        at + len <= b.len(),
    ensures
        samples is Pcm16 <==> f.tag == 1,
        samples is Float32 <==> f.tag == 3,
        samples matches WavSamples::Pcm16(v) ==> {
            &&& v@.len() == len / (2 * f.channels)
            &&& forall|i: int|
                0 <= i < v@.len() ==> #[trigger] v@[i] == channel_sum(
                    b,
                    at + 2 * f.channels * i,
                    f.channels as int,
                )
        },
        samples matches WavSamples::Float32(v) ==> {
            &&& v@.len() == len / (4 * f.channels) * f.channels
            &&& forall|i: int|
                0 <= i < v@.len() && at + 4 * i + 4 <= b.len() ==> #[trigger] v@[i] == word_at(
                    b,
                    at + 4 * i,
                )
        },
{
    if let WavSamples::Float32(v) = samples {
        assert forall|i: int| 0 <= i < v@.len() && at + 4 * i + 4 <= b.len() implies #[trigger] v@[i]
            == word_at(b, at + 4 * i) by {
            law_numbers_are_little_endian(b, at + 4 * i);
        }
    }
}

/// A written file: the header of a mono file of 16-bit samples, and two bytes
/// for each sample.
pub proof fn law_files_are_written_byte_by_byte(
    b: Seq<u8>,
    sample_rate: u32,
    samples: Seq<i16>,
)
    requires
        is_wav_of(b, sample_rate, samples),
    ensures
        b.len() == 44 + 2 * samples.len(),
        letters_at(b, 0, 'R', 'I', 'F', 'F'),
        word_at(b, 4) == 36 + 2 * samples.len(),
        letters_at(b, 8, 'W', 'A', 'V', 'E'),
        letters_at(b, 12, 'f', 'm', 't', ' '),
        word_at(b, 16) == 16,
        b[20] + 0x100 * b[21] == 1 && b[22] + 0x100 * b[23] == 1,
        word_at(b, 24) == sample_rate && word_at(b, 28) == 2 * sample_rate,
        b[32] + 0x100 * b[33] == 2 && b[34] + 0x100 * b[35] == 16,
        letters_at(b, 36, 'd', 'a', 't', 'a'),
        word_at(b, 40) == 2 * samples.len(),
        forall|i: int|
            0 <= i < samples.len() ==> b[44 + 2 * i] + 0x100 * b[45 + 2 * i] == #[trigger] samples[i]
                + if samples[i] < 0 {
                65_536int
            } else {
                0
            },
{
    law_numbers_are_little_endian(b, 4);
    law_numbers_are_little_endian(b, 16);
    law_numbers_are_little_endian(b, 20);
    law_numbers_are_little_endian(b, 22);
    law_numbers_are_little_endian(b, 24);
    law_numbers_are_little_endian(b, 28);
    law_numbers_are_little_endian(b, 32);
    law_numbers_are_little_endian(b, 34);
    law_numbers_are_little_endian(b, 40);
    assert forall|i: int| 0 <= i < samples.len() implies b[44 + 2 * i] + 0x100 * b[45 + 2 * i]
        == #[trigger] samples[i] + if samples[i] < 0 {
        65_536int
    } else {
        0
    } by {
        assert(pcm_at(b, 44 + 2 * i) == samples[i]);
        law_numbers_are_little_endian(b, 44 + 2 * i);
    }
}

/// The errors in words.
pub proof fn law_wav_errors_in_words(v: u16)
    ensures
        wav_error_words(WavError::UnexpectedEof) == "io error: failed to fill whole buffer"@,
        wav_error_words(WavError::NotRiff) == "not a RIFF file"@,
        wav_error_words(WavError::NotWave) == "not a WAVE file"@,
        wav_error_words(WavError::MissingChunk(RequiredChunk::Fmt)) == "missing fmt  chunk"@,
        wav_error_words(WavError::MissingChunk(RequiredChunk::Data)) == "missing data chunk"@,
        wav_error_words(WavError::UnsupportedFormat(v)) == "unsupported format tag "@
            + crate::ids::decimal(v as nat),
        wav_error_words(WavError::UnsupportedBitsPerSample(v)) == "unsupported bits per sample "@
            + crate::ids::decimal(v as nat),
        wav_error_words(WavError::UnsupportedChannelCount(v)) == "unsupported channel count "@
            + crate::ids::decimal(v as nat),
        wav_error_words(WavError::Truncated(OddCount::Pcm16))
            == "truncated file: odd PCM16 byte count"@,
        wav_error_words(WavError::Truncated(OddCount::Float32))
            == "truncated file: odd f32 byte count"@,
{
}

} // verus!
