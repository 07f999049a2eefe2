//! Cutting a stream of little-endian `i16` PCM bytes into fixed-length
//! chunks with their time ranges.

use vstd::prelude::*;

use crate::audio::AudioError;
use crate::chars::copy_range;
use crate::ids::{is_prefixed_uuid, random_id};
use crate::time::{DurationMs, TimeRange};

verus! {

/// A chunk of interleaved PCM bytes cut from a stream.
#[derive(Debug, Clone, PartialEq, Eq)]
pub struct PcmChunk {
    /// The id of the stream it came from.
    pub stream_id: String,
    /// Little-endian `i16` samples, interleaved by channel.
    pub bytes: Vec<u8>,
    /// Whether the chunk starts at the stream's first sample.
    pub is_start: bool,
    /// Whether the chunk was cut by a flush.
    pub is_last: bool,
    /// The milliseconds the chunk covers.
    pub range: TimeRange,
}

/// Buffers PCM bytes and hands them out in chunks of `chunk_size_ms`.
#[derive(Debug, Clone)]
pub struct AudioBytesStream {
    id: String,
    sample_rate: u32,
    num_channels: usize,
    chunk_size_ms: u64,
    buffer: Vec<u8>,
    emitted_samples: u64,
}

/// The state of a stream.
pub struct StreamState {
    pub id: Seq<char>,
    pub sample_rate: u32,
    pub num_channels: usize,
    pub chunk_size_ms: u64,
    /// Bytes pushed and not yet handed out.
    pub buffer: Seq<u8>,
    /// Frames handed out so far.
    pub emitted: u64,
}

impl View for AudioBytesStream {
    type V = StreamState;

    closed spec fn view(&self) -> StreamState {
        StreamState {
            id: self.id@,
            sample_rate: self.sample_rate,
            num_channels: self.num_channels,
            chunk_size_ms: self.chunk_size_ms,
            buffer: self.buffer@,
            emitted: self.emitted_samples,
        }
    }
}

/// The stream state with another buffer and frame count.
pub open spec fn with_progress(s: StreamState, buffer: Seq<u8>, emitted: u64) -> StreamState {
    StreamState {
        id: s.id,
        sample_rate: s.sample_rate,
        num_channels: s.num_channels,
        chunk_size_ms: s.chunk_size_ms,
        buffer,
        emitted,
    }
}

/// What is wrong with the stream's layout, checked in this order.
pub open spec fn layout_error(s: StreamState) -> Option<AudioError> {
    if s.sample_rate == 0 {
        Some(AudioError::InvalidSampleRate)
    } else if s.num_channels == 0 {
        Some(AudioError::InvalidChannelCount)
    } else if s.chunk_size_ms == 0 {
        Some(AudioError::InvalidChunkSize)
    } else {
        None
    }
}

/// Frames in one chunk: `sample_rate * chunk_size_ms / 1000`.
pub open spec fn frames_per_chunk(s: StreamState) -> nat {
    (s.sample_rate as nat * s.chunk_size_ms as nat) / 1000
}

/// Bytes in one chunk.
pub open spec fn chunk_len(s: StreamState) -> nat {
    frames_per_chunk(s) * s.num_channels as nat * 2
}

/// Whether the chunk length can be computed without overflow and is not
/// zero (a zero length would cut empty chunks forever).
pub open spec fn chunking_ok(s: StreamState) -> bool {
    layout_error(s) is None ==> {
        &&& s.sample_rate as nat * s.chunk_size_ms as nat <= u64::MAX
        &&& chunk_len(s) <= usize::MAX
        &&& chunk_len(s) > 0
    }
}

/// The millisecond at which frame `sample` starts: `sample * 1000`, capped at
/// `u64::MAX`, over the sample rate.
pub open spec fn sample_to_ms(sample: nat, sample_rate: nat) -> nat {
    (if sample * 1000 > u64::MAX { u64::MAX as nat } else { sample * 1000 }) / sample_rate
}

/// Why `byte_len` bytes do not make a waveform of `num_channels` channels
/// (the count is taken as a `u16`).
pub open spec fn chunk_error(byte_len: nat, num_channels: usize) -> Option<AudioError> {
    if byte_len % 2 != 0 {
        Some(AudioError::OddPcmByteLength)
    } else if num_channels as u16 == 0 {
        Some(AudioError::InvalidChannelCount)
    } else if (byte_len / 2) % (num_channels as u16 as nat) != 0 {
        Some(AudioError::IncompleteFrame { samples: (byte_len / 2) as usize, channels: num_channels as u16 })
    } else {
        None
    }
}

/// Frames in a chunk of `byte_len` bytes.
pub open spec fn chunk_frames(byte_len: nat, num_channels: usize) -> nat {
    (byte_len / 2) / num_channels as nat
}

/// Whether `c` is the chunk of `bytes` covering frames `[start, end)`.
pub open spec fn is_chunk(c: PcmChunk, s: StreamState, bytes: Seq<u8>, start: nat, end: nat, last: bool) -> bool {
    &&& c.stream_id@ == s.id
    &&& c.bytes@ == bytes
    &&& c.is_start == (start == 0)
    &&& c.is_last == last
    &&& c.range == TimeRange {
        start: DurationMs(sample_to_ms(start, s.sample_rate as nat) as u64),
        end: DurationMs(sample_to_ms(end, s.sample_rate as nat) as u64),
    }
}

/// What pushing `bytes` does: with a valid layout the buffered and new
/// bytes are cut into as many whole chunks as they hold, the rest stays
/// buffered. A chunk that is no waveform fails the push after it was cut.
pub open spec fn push_outcome(s: StreamState, bytes: Seq<u8>, t: StreamState, result: Result<Seq<PcmChunk>, AudioError>) -> bool {
    let all = s.buffer + bytes;
    match layout_error(s) {
        Some(e) => result == Err::<Seq<PcmChunk>, AudioError>(e) && t == s,
        None => {
            let f = chunk_len(s);
            let n = all.len() / f;
            let per = chunk_frames(f, s.num_channels);
            if n > 0 && chunk_error(f, s.num_channels) is Some {
                &&& result == Err::<Seq<PcmChunk>, AudioError>(chunk_error(f, s.num_channels)->Some_0)
                &&& t == with_progress(s, all.skip(f as int), s.emitted)
            } else {
                &&& t == with_progress(s, all.skip((n * f) as int), (s.emitted + n * per) as u64)
                &&& result matches Ok(chunks)
                &&& chunks.len() == n
                &&& forall|k: int|
                    0 <= k < n ==> is_chunk(
                        #[trigger] chunks[k],
                        s,
                        all.subrange(k * f, (k + 1) * f),
                        (s.emitted + k * per) as nat,
                        (s.emitted + (k + 1) * per) as nat,
                        false,
                    )
            }
        },
    }
}

/// What flushing does: the buffered bytes, less an odd trailing byte, go
/// out as one last chunk and the buffer is emptied.
pub open spec fn flush_outcome(s: StreamState, t: StreamState, result: Result<Seq<PcmChunk>, AudioError>) -> bool {
    match layout_error(s) {
        Some(e) => result == Err::<Seq<PcmChunk>, AudioError>(e) && t == s,
        None => if s.buffer.len() == 0 {
            result == Ok::<Seq<PcmChunk>, AudioError>(Seq::empty()) && t == s
        } else {
            let len = (s.buffer.len() - s.buffer.len() % 2) as nat;
            if len == 0 {
                result == Ok::<Seq<PcmChunk>, AudioError>(Seq::empty()) && t == with_progress(s, Seq::empty(), s.emitted)
            } else {
                match chunk_error(len, s.num_channels) {
                    Some(e) => result == Err::<Seq<PcmChunk>, AudioError>(e) && t == with_progress(s, Seq::empty(), s.emitted),
                    None => {
                        let end = s.emitted + chunk_frames(len, s.num_channels);
                        &&& t == with_progress(s, Seq::empty(), end as u64)
                        &&& result matches Ok(chunks)
                        &&& chunks.len() == 1
                        &&& is_chunk(chunks[0], s, s.buffer.take(len as int), s.emitted as nat, end as nat, true)
                    },
                }
            }
        },
    }
}

/// The vector's view as a result of sequences.
pub open spec fn chunks_view(r: Result<Vec<PcmChunk>, AudioError>) -> Result<Seq<PcmChunk>, AudioError> {
    match r {
        Ok(v) => Ok(v@),
        Err(e) => Err(e),
    }
}

/// `sample * 1000 / sample_rate`, the product saturating.
fn ms_of_sample(sample: u64, sample_rate: u32) -> (ms: u64)
    requires
        sample_rate > 0,
    ensures
        ms == sample_to_ms(sample as nat, sample_rate as nat),
{
    let scaled: u64 = if sample > u64::MAX / 1000 { u64::MAX } else { sample * 1000 };
    scaled / (sample_rate as u64)
}

/// The error a chunk of `byte_len` bytes meets.
fn check_chunk(byte_len: usize, num_channels: usize) -> (e: Option<AudioError>)
    ensures
        e == chunk_error(byte_len as nat, num_channels),
{
    let channels = num_channels as u16;
    if byte_len % 2 != 0 {
        Some(AudioError::OddPcmByteLength)
    } else if channels == 0 {
        Some(AudioError::InvalidChannelCount)
    } else if (byte_len / 2) % (channels as usize) != 0 {
        Some(AudioError::IncompleteFrame { samples: byte_len / 2, channels })
    } else {
        None
    }
}

proof fn lemma_chunk_step(k: nat, f: nat, per: nat, n: nat)
    requires
        k < n,
        f > 0,
    ensures
        (k + 1) * f == k * f + f,
        (k + 1) * per == k * per + per,
        (k + 1) * f <= n * f,
        k * per <= n * per,
        (k + 1) * per <= n * per,
{
    assert((k + 1) * f == k * f + f) by (nonlinear_arith);
    assert((k + 1) * per == k * per + per) by (nonlinear_arith);
    assert((k + 1) * f <= n * f) by (nonlinear_arith)
        requires
            k < n,
    ;
    assert(k * per <= n * per) by (nonlinear_arith)
        requires
            k < n,
    ;
    assert((k + 1) * per <= n * per) by (nonlinear_arith)
        requires
            k < n,
    ;
}

proof fn lemma_per_bound(f: nat, per: nat, c: nat, n: nat, total: nat)
    requires
        c > 0,
        per == (f / 2) / c,
        n * f <= total,
    ensures
        n * per <= total / 2,
{
    assert(per * c <= f / 2) by (nonlinear_arith)
        requires
            c > 0,
            per == (f / 2) / c,
    ;
    assert(per <= f / 2) by (nonlinear_arith)
        requires
            per * c <= f / 2,
            c > 0,
    ;
    assert(n * per <= n * (f / 2)) by (nonlinear_arith)
        requires
            per <= f / 2,
    ;
    assert(n * (f / 2) * 2 <= n * f) by (nonlinear_arith);
    assert(n * per <= total / 2) by (nonlinear_arith)
        requires
            n * per <= n * (f / 2),
            n * (f / 2) * 2 <= n * f,
            n * f <= total,
    ;
}

impl AudioBytesStream {
    /// A stream of `num_channels`-channel PCM at `sample_rate`, cut into
    /// chunks of `chunk_size_ms`, with a fresh id `stream_` and a random UUID.
    pub fn new(sample_rate: u32, num_channels: usize, chunk_size_ms: u64) -> (stream: Self)
        ensures
            is_prefixed_uuid(stream@.id, "stream_"@),
            stream@.sample_rate == sample_rate,
            stream@.num_channels == num_channels,
            stream@.chunk_size_ms == chunk_size_ms,
            stream@.buffer.len() == 0,
            stream@.emitted == 0,
    {
        AudioBytesStream {
            id: random_id("stream_"),
            sample_rate,
            num_channels,
            chunk_size_ms,
            buffer: Vec::new(),
            emitted_samples: 0,
        }
    }

    /// The number of bytes buffered and not yet handed out.
    pub fn pending_bytes(&self) -> (n: usize)
        ensures
            n == self@.buffer.len(),
    {
        self.buffer.len()
    }

    fn layout(&self) -> (e: Option<AudioError>)
        ensures
            e == layout_error(self@),
    {
        if self.sample_rate == 0 {
            Some(AudioError::InvalidSampleRate)
        } else if self.num_channels == 0 {
            Some(AudioError::InvalidChannelCount)
        } else if self.chunk_size_ms == 0 {
            Some(AudioError::InvalidChunkSize)
        } else {
            None
        }
    }

    /// Appends `bytes` and hands out every whole chunk the buffer holds.
    pub fn push(&mut self, bytes: &[u8]) -> (result: Result<Vec<PcmChunk>, AudioError>)
        requires
            chunking_ok(old(self)@),
            old(self)@.buffer.len() + bytes@.len() <= usize::MAX,
            old(self)@.emitted + (old(self)@.buffer.len() + bytes@.len()) / 2 <= u64::MAX,
        ensures
            push_outcome(old(self)@, bytes@, final(self)@, chunks_view(result)),
    {
        if let Some(e) = self.layout() {
            return Err(e);
        }
        let ghost s = self@;
        let mut all: Vec<u8> = copy_range(self.buffer.as_slice(), 0, self.buffer.len());
        let mut i: usize = 0;
        while i < bytes.len()
            invariant
                i <= bytes@.len(),
                all@ == s.buffer + bytes@.take(i as int),
                s.buffer.len() + bytes@.len() <= usize::MAX,
            decreases bytes@.len() - i,
        {
            all.push(bytes[i]);
            assert(bytes@.take(i + 1) =~= bytes@.take(i as int).push(bytes@[i as int]));
            i = i + 1;
        }
        assert(bytes@.take(bytes@.len() as int) =~= bytes@);
        proof {
            let fr = frames_per_chunk(s);
            let c = s.num_channels as nat;
            assert(fr * c <= fr * c * 2) by (nonlinear_arith);
            assert(fr <= fr * c) by (nonlinear_arith)
                requires
                    c >= 1,
            ;
        }
        let samples_per_chunk: usize = ((self.sample_rate as u64) * self.chunk_size_ms / 1000) as usize;
        let frame: usize = samples_per_chunk * self.num_channels * 2;
        let per: u64 = ((frame / 2) as u64) / (self.num_channels as u64);
        let ghost f = frame as nat;
        let ghost n = all@.len() / f;
        let fault = check_chunk(frame, self.num_channels);
        let mut chunks: Vec<PcmChunk> = Vec::new();
        let mut consumed: usize = 0;
        let mut k: usize = 0;
        proof {
            assert(n * f <= all@.len()) by (nonlinear_arith)
                requires
                    f > 0,
                    n == all@.len() / f,
            ;
            lemma_per_bound(f, per as nat, self.num_channels as nat, n, all@.len());
        }
        while all.len() - consumed >= frame
            invariant
                self@ == with_progress(s, s.buffer, (s.emitted + k * per) as u64),
                s == old(self)@,
                all@ == s.buffer + bytes@,
                f == frame,
                frame > 0,
                f == chunk_len(s),
                n == all@.len() / f,
                per == chunk_frames(f, s.num_channels),
                fault == chunk_error(f, s.num_channels),
                layout_error(s) is None,
                n * per <= all@.len() / 2,
                s.emitted + all@.len() / 2 <= u64::MAX,
                consumed == k * f,
                k <= n,
                consumed <= all@.len(),
                k > 0 ==> fault is None,
                chunks@.len() == k,
                forall|j: int|
                    0 <= j < k ==> is_chunk(
                        #[trigger] chunks@[j],
                        s,
                        all@.subrange(j * f, (j + 1) * f),
                        (s.emitted + j * per) as nat,
                        (s.emitted + (j + 1) * per) as nat,
                        false,
                    ),
            decreases all@.len() - consumed,
        {
            proof {
                if k >= n {
                    assert(all@.len() - k * f < f) by (nonlinear_arith)
                        requires
                            f > 0,
                            n == all@.len() / f,
                            k >= n,
                    ;
                }
                lemma_chunk_step(k as nat, f, per as nat, n);
            }
            let chunk_bytes = copy_range(all.as_slice(), consumed, consumed + frame);
            consumed = consumed + frame;
            if let Some(e) = fault {
                proof {
                    assert(k == 0);
                    assert(n > 0) by (nonlinear_arith)
                        requires
                            f > 0,
                            n == all@.len() / f,
                            f <= all@.len(),
                    ;
                }
                self.buffer = copy_range(all.as_slice(), consumed, all.len());
                proof {
                    assert(self.buffer@ =~= all@.skip(f as int));
                    assert(k * per == 0);
                }
                return Err(e);
            }
            let start = self.emitted_samples;
            self.emitted_samples = self.emitted_samples + per;
            let range = TimeRange::new(
                DurationMs(ms_of_sample(start, self.sample_rate)),
                DurationMs(ms_of_sample(self.emitted_samples, self.sample_rate)),
            );
            chunks.push(PcmChunk { stream_id: self.id.clone(), bytes: chunk_bytes, is_start: start == 0, is_last: false, range });
            k = k + 1;
        }
        proof {
            assert(k == n) by (nonlinear_arith)
                requires
                    f > 0,
                    n == all@.len() / f,
                    consumed == k * f,
                    all@.len() - consumed < f,
                    consumed <= all@.len(),
            ;
        }
        self.buffer = copy_range(all.as_slice(), consumed, all.len());
        proof {
            assert(self.buffer@ =~= all@.skip((n * f) as int));
        }
        Ok(chunks)
    }

    /// Hands out the buffered bytes, less an odd trailing byte, as a last
    /// chunk, and empties the buffer.
    pub fn flush(&mut self) -> (result: Result<Vec<PcmChunk>, AudioError>)
        requires
            old(self)@.emitted + old(self)@.buffer.len() / 2 <= u64::MAX,
        ensures
            flush_outcome(old(self)@, final(self)@, chunks_view(result)),
    {
        if let Some(e) = self.layout() {
            return Err(e);
        }
        if self.buffer.len() == 0 {
            return Ok(Vec::new());
        }
        let ghost s = self@;
        let len = self.buffer.len() - self.buffer.len() % 2;
        let chunk_bytes = copy_range(self.buffer.as_slice(), 0, len);
        self.buffer = Vec::new();
        if len == 0 {
            return Ok(Vec::new());
        }
        if let Some(e) = check_chunk(len, self.num_channels) {
            return Err(e);
        }
        let frames: u64 = ((len / 2) as u64) / (self.num_channels as u64);
        proof {
            assert(frames <= len / 2) by (nonlinear_arith)
                requires
                    self.num_channels > 0,
                    frames == (len as nat / 2) / (self.num_channels as nat),
            ;
        }
        let start = self.emitted_samples;
        self.emitted_samples = self.emitted_samples + frames;
        let range = TimeRange::new(
            DurationMs(ms_of_sample(start, self.sample_rate)),
            DurationMs(ms_of_sample(self.emitted_samples, self.sample_rate)),
        );
        let mut chunks: Vec<PcmChunk> = Vec::new();
        chunks.push(PcmChunk { stream_id: self.id.clone(), bytes: chunk_bytes, is_start: start == 0, is_last: true, range });
        assert(self@ == with_progress(s, Seq::empty(), (s.emitted + chunk_frames(len as nat, s.num_channels)) as u64));
        Ok(chunks)
    }
}

/// The bytes of `chunks`, one after another.
pub open spec fn joined_bytes(chunks: Seq<PcmChunk>) -> Seq<u8>
    decreases chunks.len(),
{
    if chunks.len() == 0 {
        Seq::empty()
    } else {
        joined_bytes(chunks.drop_last()) + chunks.last().bytes@
    }
}

proof fn lemma_joined_prefix(chunks: Seq<PcmChunk>, all: Seq<u8>, f: nat, m: nat)
    requires
        f > 0,
        m <= chunks.len(),
        chunks.len() * f <= all.len(),
        forall|k: int| 0 <= k < chunks.len() ==> (#[trigger] chunks[k]).bytes@ == all.subrange(k * f, (k + 1) * f),
    ensures
        joined_bytes(chunks.take(m as int)) == all.take((m * f) as int),
    decreases m,
{
    if m == 0 {
        assert(chunks.take(0) =~= Seq::<PcmChunk>::empty());
        assert(all.take(0) =~= Seq::<u8>::empty());
    } else {
        let m1 = (m - 1) as nat;
        lemma_joined_prefix(chunks, all, f, m1);
        assert(chunks.take(m as int).drop_last() =~= chunks.take(m1 as int));
        assert(chunks.take(m as int).last() == chunks[m1 as int]);
        assert(m * f == m1 * f + f) by (nonlinear_arith)
            requires
                m1 == m - 1,
        ;
        assert(m * f <= chunks.len() * f) by (nonlinear_arith)
            requires
                m <= chunks.len(),
        ;
        assert(all.take((m1 * f) as int) + all.subrange((m1 * f) as int, ((m1 + 1) * f) as int) =~= all.take((m * f) as int));
    }
}

/// Pushing loses and repeats no byte: the chunks handed out, one after
/// another, followed by the bytes still buffered, are the bytes that were
/// buffered followed by those pushed. Less than a chunk stays buffered, and
/// each chunk's time range starts where the previous one ends.
pub proof fn lemma_push_keeps_every_byte(s: StreamState, bytes: Seq<u8>, t: StreamState, chunks: Seq<PcmChunk>)
    requires
        chunking_ok(s),
        layout_error(s) is None,
        push_outcome(s, bytes, t, Ok(chunks)),
    ensures
        joined_bytes(chunks) + t.buffer == s.buffer + bytes,
        t.buffer.len() < chunk_len(s),
        forall|k: int| 0 <= k < chunks.len() - 1 ==> (#[trigger] chunks[k]).range.end == chunks[k + 1].range.start,
{
    let all = s.buffer + bytes;
    let f = chunk_len(s);
    let n = all.len() / f;
    assert(n * f <= all.len() && all.len() - n * f < f) by (nonlinear_arith)
        requires
            f > 0,
            n == all.len() / f,
    ;
    assert forall|k: int| 0 <= k < chunks.len() implies (#[trigger] chunks[k]).bytes@ == all.subrange(k * f, (k + 1) * f) by {
        assert(is_chunk(
            chunks[k],
            s,
            all.subrange(k * f, (k + 1) * f),
            (s.emitted + k * chunk_frames(f, s.num_channels)) as nat,
            (s.emitted + (k + 1) * chunk_frames(f, s.num_channels)) as nat,
            false,
        ));
    }
    lemma_joined_prefix(chunks, all, f, n);
    assert(chunks.take(n as int) =~= chunks);
    assert(all.take((n * f) as int) + all.skip((n * f) as int) =~= all);
    assert forall|k: int| 0 <= k < chunks.len() - 1 implies (#[trigger] chunks[k]).range.end == chunks[k + 1].range.start by {
        let per = chunk_frames(f, s.num_channels);
        assert(is_chunk(
            chunks[k],
            s,
            all.subrange(k * f, (k + 1) * f),
            (s.emitted + k * per) as nat,
            (s.emitted + (k + 1) * per) as nat,
            false,
        ));
        assert(is_chunk(
            chunks[k + 1],
            s,
            all.subrange((k + 1) * f, (k + 1 + 1) * f),
            (s.emitted + (k + 1) * per) as nat,
            (s.emitted + (k + 1 + 1) * per) as nat,
            false,
        ));
    }
}

/// How many bytes stay pending: after a successful push, the bytes that were
/// pending plus those pushed, modulo the chunk length, with one chunk handed
/// out per whole chunk length; after a following flush, none.
pub proof fn lemma_pending_across_push_and_flush(
    s: StreamState,
    bytes: Seq<u8>,
    t: StreamState,
    chunks: Seq<PcmChunk>,
    u: StreamState,
    flushed: Result<Seq<PcmChunk>, AudioError>,
)
    requires
        chunk_len(s) > 0,
        layout_error(s) is None,
        push_outcome(s, bytes, t, Ok(chunks)),
        flush_outcome(t, u, flushed),
    ensures
        t.buffer.len() == (s.buffer.len() + bytes.len()) % chunk_len(s),
        chunks.len() == (s.buffer.len() + bytes.len()) / chunk_len(s),
        u.buffer.len() == 0,
{
    let all = s.buffer + bytes;
    let f = chunk_len(s);
    let n = all.len() / f;
    vstd::arithmetic::div_mod::lemma_fundamental_div_mod(all.len() as int, f as int);
    assert(n * f <= all.len()) by (nonlinear_arith)
        requires
            f > 0,
            n == all.len() / f,
    ;
    assert(f * n == n * f) by (nonlinear_arith);
    assert(layout_error(t) is None);
}

} // verus!
