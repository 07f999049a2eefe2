//! Positions in interleaved sample buffers: decoding `i16` PCM bytes,
//! picking one channel, cutting fixed-length chunks and millisecond slices.
//! The sample type is left open; scaling samples to floats is the caller's.

use vstd::prelude::*;

use crate::audio::{frames_for_ms, spec_frames_for_ms, AudioError};

verus! {

/// The `i16` value of the little-endian bytes `lo`, `hi`.
pub open spec fn le_i16(lo: u8, hi: u8) -> int {
    if hi < 128 {
        hi * 256 + lo
    } else {
        (hi - 256) * 256 + lo
    }
}

/// Decodes little-endian `i16` samples of `channels` interleaved channels.
/// An odd byte count, no channel, or a count of samples that is not a whole
/// number of frames is an error, checked in that order.
pub fn pcm_samples(bytes: &[u8], channels: u16) -> (result: Result<Vec<i16>, AudioError>)
    ensures
        bytes@.len() % 2 != 0 ==> result == Err::<Vec<i16>, AudioError>(AudioError::OddPcmByteLength),
        bytes@.len() % 2 == 0 && channels == 0 ==> result == Err::<Vec<i16>, AudioError>(AudioError::InvalidChannelCount),
        bytes@.len() % 2 == 0 && channels > 0 && (bytes@.len() / 2) % (channels as nat) != 0 ==> result
            == Err::<Vec<i16>, AudioError>(
            AudioError::IncompleteFrame { samples: (bytes@.len() / 2) as usize, channels },
        ),
        bytes@.len() % 2 == 0 && channels > 0 && (bytes@.len() / 2) % (channels as nat) == 0 ==> (result matches Ok(
            samples,
        ) && samples@.len() == bytes@.len() / 2 && forall|k: int|
            0 <= k < samples@.len() ==> #[trigger] samples@[k] as int == le_i16(bytes@[2 * k], bytes@[2 * k + 1])),
{
    if bytes.len() % 2 != 0 {
        return Err(AudioError::OddPcmByteLength);
    }
    if channels == 0 {
        return Err(AudioError::InvalidChannelCount);
    }
    let n_bytes = bytes.len();
    let count = n_bytes / 2;
    if count % (channels as usize) != 0 {
        return Err(AudioError::IncompleteFrame { samples: count, channels });
    }
    let mut samples: Vec<i16> = Vec::new();
    let mut k: usize = 0;
    while k < count
        invariant
            count == bytes@.len() / 2,
            n_bytes == bytes@.len(),
            bytes@.len() % 2 == 0,
            k <= count,
            samples@.len() == k,
            forall|j: int| 0 <= j < k ==> #[trigger] samples@[j] as int == le_i16(bytes@[2 * j], bytes@[2 * j + 1]),
        decreases count - k,
    {
        assert(2 * k + 1 < bytes@.len());
        let lo = bytes[2 * k];
        let hi = bytes[2 * k + 1];
        let value: i16 = if hi < 128 {
            (hi as i16) * 256 + (lo as i16)
        } else {
            ((hi as i32 - 256) * 256 + (lo as i32)) as i16
        };
        samples.push(value);
        k = k + 1;
    }
    Ok(samples)
}

/// Picks channel `index` out of `channels` interleaved channels: a single
/// channel is returned whole, otherwise the `index`-th sample of every
/// complete frame.
pub fn channel_samples<T: Copy>(samples: &[T], channels: u16, index: u16) -> (result: Result<Vec<T>, AudioError>)
    ensures
        channels == 0 ==> result == Err::<Vec<T>, AudioError>(AudioError::InvalidChannelCount),
        channels > 0 && index >= channels ==> result == Err::<Vec<T>, AudioError>(AudioError::ChannelIndexOutOfRange),
        channels == 1 && index == 0 ==> (result matches Ok(v) && v@ == samples@),
        channels > 1 && index < channels ==> (result matches Ok(v) && v@.len() == samples@.len() / (channels as nat)
            && forall|f: int| 0 <= f < v@.len() ==> #[trigger] v@[f] == samples@[f * channels + index]),
{
    if channels == 0 {
        return Err(AudioError::InvalidChannelCount);
    }
    if index >= channels {
        return Err(AudioError::ChannelIndexOutOfRange);
    }
    let mut out: Vec<T> = Vec::new();
    if channels == 1 {
        let mut i: usize = 0;
        while i < samples.len()
            invariant
                i <= samples@.len(),
                out@ == samples@.take(i as int),
            decreases samples@.len() - i,
        {
            out.push(samples[i]);
            assert(samples@.take(i + 1) =~= samples@.take(i as int).push(samples@[i as int]));
            i = i + 1;
        }
        assert(samples@.take(samples@.len() as int) =~= samples@);
        return Ok(out);
    }
    let c = channels as usize;
    let len = samples.len();
    let frames = len / c;
    let mut f: usize = 0;
    while f < frames
        invariant
            c == channels as usize,
            c > 1,
            index < channels,
            frames == samples@.len() / (c as nat),
            len == samples@.len(),
            f <= frames,
            out@.len() == f,
            forall|j: int| 0 <= j < f ==> #[trigger] out@[j] == samples@[j * channels + index],
        decreases frames - f,
    {
        assert(f * c + (index as nat) < samples@.len()) by (nonlinear_arith)
            requires
                f < frames,
                frames == samples@.len() / (c as nat),
                (index as nat) < c,
                c > 0,
        ;
        assert(f * c <= samples@.len()) by (nonlinear_arith)
            requires
                f < frames,
                frames == samples@.len() / (c as nat),
                c > 0,
        ;
        let base = f * c;
        out.push(samples[base + index as usize]);
        f = f + 1;
    }
    Ok(out)
}

/// The sample positions a millisecond slice `[start_ms, end_ms)` covers in
/// a buffer of `sample_len` samples: the start frame rounded down, the end
/// frame rounded up and kept within the frames, both scaled by the channel
/// count (saturating) and kept within the buffer. An empty or reversed
/// slice, a zero rate or no channel gives nothing.
pub open spec fn spec_slice_bounds(sample_len: nat, sample_rate: nat, channels: nat, start_ms: nat, end_ms: nat) -> (nat, nat) {
    if end_ms <= start_ms || sample_rate == 0 || channels == 0 {
        (0, 0)
    } else {
        let start_frame = sat_usize(start_ms * sample_rate) / 1000;
        let end_frame = min_nat(ceil_div_1000(sat_usize(end_ms * sample_rate)), sample_len / channels);
        (min_nat(sat_usize(start_frame * channels), sample_len), min_nat(sat_usize(end_frame * channels), sample_len))
    }
}

/// `x` capped at `usize::MAX`.
pub open spec fn sat_usize(x: nat) -> nat {
    if x > usize::MAX { usize::MAX as nat } else { x }
}

/// The smaller of two numbers.
pub open spec fn min_nat(a: nat, b: nat) -> nat {
    if a <= b { a } else { b }
}

/// `x / 1000` rounded up.
pub open spec fn ceil_div_1000(x: nat) -> nat {
    if x % 1000 == 0 { x / 1000 } else { x / 1000 + 1 }
}

/// `a * b` saturating at `usize::MAX`.
fn saturating_mul_usize(a: usize, b: usize) -> (p: usize)
    ensures
        p == sat_usize(a as nat * b as nat),
{
    if b == 0 {
        return 0;
    }
    if a > usize::MAX / b {
        assert(a * b > usize::MAX) by (nonlinear_arith)
            requires
                b > 0,
                a > usize::MAX / b,
        ;
        usize::MAX
    } else {
        assert(a * b <= usize::MAX) by (nonlinear_arith)
            requires
                b > 0,
                a <= usize::MAX / b,
        ;
        a * b
    }
}

/// The sample positions of a millisecond slice of a buffer of whole frames.
pub fn slice_bounds(sample_len: usize, sample_rate: u32, channels: u16, start_ms: u64, end_ms: u64) -> (bounds: (usize, usize))
    requires
        start_ms <= usize::MAX,
        end_ms <= usize::MAX,
        channels > 0 ==> sample_len as nat % (channels as nat) == 0,
    ensures
        (bounds.0 as nat, bounds.1 as nat) == spec_slice_bounds(sample_len as nat, sample_rate as nat, channels as nat, start_ms as nat, end_ms as nat),
        bounds.0 <= bounds.1 <= sample_len,
{
    if end_ms <= start_ms || sample_rate == 0 || channels == 0 {
        return (0, 0);
    }
    let c = channels as usize;
    let start_frame = saturating_mul_usize(start_ms as usize, sample_rate as usize) / 1000;
    let scaled_end = saturating_mul_usize(end_ms as usize, sample_rate as usize);
    let end_ceil = if scaled_end % 1000 == 0 { scaled_end / 1000 } else { scaled_end / 1000 + 1 };
    let frames = sample_len / c;
    let end_frame = if end_ceil <= frames { end_ceil } else { frames };
    let s = saturating_mul_usize(start_frame, c);
    let e = saturating_mul_usize(end_frame, c);
    let start = if s <= sample_len { s } else { sample_len };
    let end = if e <= sample_len { e } else { sample_len };
    proof {
        let sf = start_frame as nat;
        let ef = end_frame as nat;
        let cn = c as nat;
        assert(sat_usize(start_ms as nat * sample_rate as nat) <= sat_usize(end_ms as nat * sample_rate as nat)) by (nonlinear_arith)
            requires
                start_ms < end_ms,
        ;
        assert(frames as nat * cn == sample_len as nat) by (nonlinear_arith)
            requires
                cn > 0,
                sample_len as nat % cn == 0,
                frames as nat == sample_len as nat / cn,
        ;
        if sf <= ef {
            assert(sf * cn <= ef * cn) by (nonlinear_arith)
                requires
                    sf <= ef,
            ;
        } else {
            assert(ef == frames);
            assert(sf * cn >= ef * cn) by (nonlinear_arith)
                requires
                    sf > ef,
            ;
        }
    }
    (start, end)
}

/// One chunk of a buffer: its number, its sample positions `[start, end)`,
/// its offset in milliseconds and whether it is the last.
#[derive(Debug, Clone, Copy, PartialEq, Eq, Structural)]
pub struct ChunkBounds {
    pub index: usize,
    pub start: usize,
    pub end: usize,
    pub offset_ms: u64,
    pub is_final: bool,
}

/// Samples per chunk: frames per chunk times channels, saturating.
pub open spec fn samples_per_chunk(sample_rate: nat, channels: nat, chunk_size_ms: nat) -> nat {
    sat_usize(spec_frames_for_ms(chunk_size_ms, sample_rate) * channels)
}

/// Whether `b` is chunk `k` of a buffer of `sample_len` samples cut every
/// `per` samples: it starts at `k * per`, ends at the next cut or the end,
/// and starts `k * (per / channels)` frames in.
pub open spec fn is_chunk_bounds(b: ChunkBounds, k: nat, per: nat, sample_len: nat, channels: nat, sample_rate: nat) -> bool {
    &&& b.index == k
    &&& b.start == k * per
    &&& b.end == min_nat((k + 1) * per, sample_len)
    &&& b.offset_ms == (k * (per / channels)) * 1000 / sample_rate
    &&& b.is_final == (b.end == sample_len)
}

/// Cuts a buffer of `sample_len` interleaved samples into chunks of
/// `chunk_size_ms`; the last chunk may be shorter. A zero chunk length,
/// sample rate or channel count is an error, checked in that order.
pub fn chunk_bounds(sample_len: usize, sample_rate: u32, channels: u16, chunk_size_ms: u64) -> (result: Result<Vec<ChunkBounds>, AudioError>)
    requires
        channels > 0 ==> sample_len as nat / (channels as nat) * 1000 <= u64::MAX,
    ensures
        chunk_size_ms == 0 ==> result == Err::<Vec<ChunkBounds>, AudioError>(AudioError::InvalidChunkSize),
        chunk_size_ms > 0 && sample_rate == 0 ==> result == Err::<Vec<ChunkBounds>, AudioError>(AudioError::InvalidSampleRate),
        chunk_size_ms > 0 && sample_rate > 0 && channels == 0 ==> result == Err::<Vec<ChunkBounds>, AudioError>(
            AudioError::InvalidChannelCount,
        ),
        chunk_size_ms > 0 && sample_rate > 0 && channels > 0 ==> (result matches Ok(chunks) && {
            let per = samples_per_chunk(sample_rate as nat, channels as nat, chunk_size_ms as nat);
            &&& chunks@.len() == ceil_div_nat(sample_len as nat, per)
            &&& forall|k: int|
                0 <= k < chunks@.len() ==> is_chunk_bounds(
                    #[trigger] chunks@[k],
                    k as nat,
                    per,
                    sample_len as nat,
                    channels as nat,
                    sample_rate as nat,
                )
        }),
{
    if chunk_size_ms == 0 {
        return Err(AudioError::InvalidChunkSize);
    }
    if sample_rate == 0 {
        return Err(AudioError::InvalidSampleRate);
    }
    if channels == 0 {
        return Err(AudioError::InvalidChannelCount);
    }
    let c = channels as usize;
    let frames = frames_for_ms(chunk_size_ms, sample_rate);
    let per = saturating_mul_usize(frames, c);
    let step = per / c;
    let ghost pn = per as nat;
    let mut chunks: Vec<ChunkBounds> = Vec::new();
    let mut start: usize = 0;
    let mut k: usize = 0;
    proof {
        assert(per >= 1) by (nonlinear_arith)
            requires
                frames >= 1,
                c >= 1,
                per as nat == sat_usize(frames as nat * c as nat),
        ;
        assert(step as nat * c as nat <= per as nat) by (nonlinear_arith)
            requires
                c > 0,
                step as nat == per as nat / c as nat,
        ;
        assert(sample_len / per <= sample_len) by (nonlinear_arith)
            requires
                per >= 1,
        ;
        if sample_len / per == sample_len && sample_len > 0 {
            assert(sample_len % per == 0) by (nonlinear_arith)
                requires
                    per >= 1,
                    sample_len / per == sample_len,
                    sample_len > 0,
            ;
        }
    }
    let n = sample_len / per + if sample_len % per != 0 { 1 } else { 0 };
    while k < n
        invariant
            c == channels as usize,
            c > 0,
            pn == per,
            per >= 1,
            step == per / c,
            step as nat * c as nat <= per as nat,
            n == ceil_div_nat(sample_len as nat, pn),
            sample_rate > 0,
            k <= n,
            k < n ==> start == k * pn,
            start <= sample_len,
            sample_len as nat / c as nat * 1000 <= u64::MAX,
            chunks@.len() == k,
            forall|j: int|
                0 <= j < k ==> is_chunk_bounds(#[trigger] chunks@[j], j as nat, pn, sample_len as nat, c as nat, sample_rate as nat),
        decreases n - k,
    {
        proof {
            assert(k * pn < sample_len) by (nonlinear_arith)
                requires
                    k < n,
                    pn >= 1,
                    n == ceil_div_nat(sample_len as nat, pn),
            ;
            assert((k + 1) * pn == k * pn + pn) by (nonlinear_arith);
            assert(k * step * c <= k * pn) by (nonlinear_arith)
                requires
                    step as nat * c as nat <= pn,
            ;
            assert(k * step <= sample_len as nat / c as nat) by (nonlinear_arith)
                requires
                    k * step * c <= k * pn,
                    k * pn < sample_len,
                    c > 0,
            ;
        }
        let next_frame: usize = k * step;
        let end = if per <= sample_len - start { start + per } else { sample_len };
        let offset_ms: u64 = (next_frame as u64) * 1000 / (sample_rate as u64);
        chunks.push(ChunkBounds { index: k, start, end, offset_ms, is_final: end == sample_len });
        proof {
            if end < sample_len {
                assert((k + 1) * pn < sample_len);
            }
            assert((k + 1) * pn <= sample_len || k + 1 == n) by (nonlinear_arith)
                requires
                    n == ceil_div_nat(sample_len as nat, pn),
                    k < n,
                    pn >= 1,
            ;
        }
        start = end;
        k = k + 1;
        proof {
            if k < n {
                assert(start == k * pn);
            }
        }
    }
    Ok(chunks)
}

/// `x / d` rounded up.
pub open spec fn ceil_div_nat(x: nat, d: nat) -> nat {
    if x % d == 0 { x / d } else { x / d + 1 }
}

} // verus!
