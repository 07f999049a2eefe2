//! Audio source descriptions and the light types around them: channels,
//! encodings, formats, probe results, and the pure helpers that classify
//! sources (encoding sniffing, `file://` URLs, frame arithmetic).

use vstd::prelude::*;
use vstd::string::StringSliceAdditionalSpecFns;

use crate::chars::{
    ascii_lowercase, bytes_start_with, chars_eq, chars_of, contains_chars, contains_seq, copy_range,
    decimal_digits, decimal_string, starts_with, string_from_chars, string_from_utf8_lossy,
    to_ascii_lowercase, utf8_lossy,
};

verus! {

/// A channel selector for timelines and channel extraction.
///
/// `Left` / `Right` are the canonical names of indices 0 / 1; larger indices
/// use `Channel(n)`. `Channel(0)` and `Channel(1)` are not canonical.
#[derive(Debug, Clone, Copy, PartialEq, Eq, Structural, PartialOrd, Ord, Hash)]
pub enum AudioChannel {
    Mono,
    Left,
    Right,
    Channel(u16),
}

impl AudioChannel {
    /// The channel index, `None` for `Mono`.
    pub open spec fn spec_index(self) -> Option<u16> {
        match self {
            AudioChannel::Mono => None,
            AudioChannel::Left => Some(0u16),
            AudioChannel::Right => Some(1u16),
            AudioChannel::Channel(index) => Some(index),
        }
    }

    /// Whether the selector is in canonical form.
    pub open spec fn spec_is_canonical(self) -> bool {
        !(self matches AudioChannel::Channel(index) && index <= 1)
    }

    /// The canonical selector of channel `index`.
    pub open spec fn spec_from_index(index: u16) -> AudioChannel {
        if index == 0 {
            AudioChannel::Left
        } else if index == 1 {
            AudioChannel::Right
        } else {
            AudioChannel::Channel(index)
        }
    }

    /// The stable name used for timeline keys and display.
    pub open spec fn spec_name(self) -> Seq<char> {
        match self {
            AudioChannel::Mono => seq!['m', 'o', 'n', 'o'],
            AudioChannel::Left => seq!['l', 'e', 'f', 't'],
            AudioChannel::Right => seq!['r', 'i', 'g', 'h', 't'],
            AudioChannel::Channel(index) => decimal_digits(index as nat),
        }
    }

    /// 0 → `Left`, 1 → `Right`, any other index → `Channel(index)`.
    pub fn from_index(index: u16) -> (channel: Self)
        ensures
            channel == Self::spec_from_index(index),
    {
        if index == 0 {
            AudioChannel::Left
        } else if index == 1 {
            AudioChannel::Right
        } else {
            AudioChannel::Channel(index)
        }
    }

    /// The channel index; `Mono` has none.
    pub fn index(self) -> (index: Option<u16>)
        ensures
            index == self.spec_index(),
    {
        match self {
            AudioChannel::Mono => None,
            AudioChannel::Left => Some(0),
            AudioChannel::Right => Some(1),
            AudioChannel::Channel(index) => Some(index),
        }
    }

    /// The stable name: `mono`, `left`, `right`, or the decimal index.
    pub fn name(self) -> (name: String)
        ensures
            name@ == self.spec_name(),
    {
        match self {
            AudioChannel::Mono => string_from_chars(&['m', 'o', 'n', 'o']),
            AudioChannel::Left => string_from_chars(&['l', 'e', 'f', 't']),
            AudioChannel::Right => string_from_chars(&['r', 'i', 'g', 'h', 't']),
            AudioChannel::Channel(index) => decimal_string(index as u64),
        }
    }

    /// Whether the selector is canonical: `Channel(0|1)` must be written
    /// `Left` / `Right`.
    pub fn is_canonical(self) -> (b: bool)
        ensures
            b == self.spec_is_canonical(),
    {
        match self {
            AudioChannel::Channel(index) => index > 1,
            _ => true,
        }
    }
}

/// Building a selector from an index gives a canonical selector with that
/// index, and a canonical indexed selector is rebuilt from its index.
pub proof fn lemma_channel_index_round_trip(index: u16, channel: AudioChannel)
    ensures
        AudioChannel::spec_from_index(index).spec_index() == Some(index),
        AudioChannel::spec_from_index(index).spec_is_canonical(),
        channel.spec_is_canonical() && channel.spec_index() is Some ==> AudioChannel::spec_from_index(
            channel.spec_index()->0,
        ) == channel,
{
}

/// The container or raw PCM encoding of a source.
#[derive(Debug, Clone, PartialEq, Eq)]
pub enum AudioEncoding {
    Wav,
    Flac,
    Mp3,
    Ogg,
    PcmS16Le,
    Other(String),
    Unknown,
}

/// The source format before decoding: encoding, sample rate and channels.
#[derive(Debug, Clone, PartialEq, Eq)]
pub struct AudioFormat {
    pub encoding: AudioEncoding,
    pub sample_rate: u32,
    pub channels: u16,
}

impl AudioEncoding {
    /// A copy of the encoding.
    pub fn duplicate(&self) -> (c: Self)
        ensures
            c == *self,
    {
        match self {
            AudioEncoding::Wav => AudioEncoding::Wav,
            AudioEncoding::Flac => AudioEncoding::Flac,
            AudioEncoding::Mp3 => AudioEncoding::Mp3,
            AudioEncoding::Ogg => AudioEncoding::Ogg,
            AudioEncoding::PcmS16Le => AudioEncoding::PcmS16Le,
            AudioEncoding::Other(name) => AudioEncoding::Other(name.clone()),
            AudioEncoding::Unknown => AudioEncoding::Unknown,
        }
    }
}

impl AudioFormat {
    /// A copy of the format.
    pub fn duplicate(&self) -> (c: Self)
        ensures
            c == *self,
    {
        AudioFormat { encoding: self.encoding.duplicate(), sample_rate: self.sample_rate, channels: self.channels }
    }

    /// Mono PCM S16LE at `sample_rate`.
    pub fn pcm16_mono(sample_rate: u32) -> (format: Self)
        ensures
            format.encoding == AudioEncoding::PcmS16Le,
            format.sample_rate == sample_rate,
            format.channels == 1,
    {
        AudioFormat { encoding: AudioEncoding::PcmS16Le, sample_rate, channels: 1 }
    }
}

/// Audio metadata without samples, usually from a probe.
#[derive(Debug, Clone, PartialEq, Eq)]
pub struct AudioInfo {
    /// Sample rate after decoding (or as declared for PCM).
    pub sample_rate: u32,
    /// Number of channels.
    pub channels: u16,
    /// Number of frames in the whole audio.
    pub frame_count: u64,
    /// The source format before decoding.
    pub source_format: AudioFormat,
}

/// `x / d` rounded up.
pub open spec fn ceil_div(x: nat, d: nat) -> nat
    recommends
        d > 0,
{
    if x % d == 0 { x / d } else { x / d + 1 }
}

impl AudioInfo {
    /// A copy of the info.
    pub fn duplicate(&self) -> (c: Self)
        ensures
            c == *self,
    {
        AudioInfo {
            sample_rate: self.sample_rate,
            channels: self.channels,
            frame_count: self.frame_count,
            source_format: self.source_format.duplicate(),
        }
    }

    /// Whole milliseconds covered by the frames: `ceil(frames * 1000 / sample_rate)`,
    /// capped at `u64::MAX`.
    pub open spec fn spec_timeline_duration_ms(self) -> nat {
        let millis = ceil_div((self.frame_count * 1000) as nat, self.sample_rate as nat);
        if millis > u64::MAX { u64::MAX as nat } else { millis }
    }

    /// The timeline duration in whole milliseconds, rounding partial
    /// milliseconds up. A zero sample rate divides by zero.
    pub fn timeline_duration_ms(&self) -> (millis: u64)
        requires
            self.sample_rate > 0,
        ensures
            millis == self.spec_timeline_duration_ms(),
    {
        let numerator: u128 = (self.frame_count as u128) * 1000;
        let rate: u128 = self.sample_rate as u128;
        let quotient = numerator / rate;
        let millis: u128 = if numerator % rate == 0 { quotient } else { quotient + 1 };
        if millis > u64::MAX as u128 {
            u64::MAX
        } else {
            millis as u64
        }
    }
}

/// Frames needed to cover `duration_ms` at `sample_rate`, rounded up, at
/// least one, at most `usize::MAX`.
pub open spec fn spec_frames_for_ms(duration_ms: nat, sample_rate: nat) -> nat {
    let frames = ceil_div(duration_ms * sample_rate, 1000);
    let frames = if frames < 1 { 1 } else { frames };
    if frames > usize::MAX { usize::MAX as nat } else { frames }
}

/// Frames per chunk for a chunk length in milliseconds.
pub fn frames_for_ms(duration_ms: u64, sample_rate: u32) -> (frames: usize)
    ensures
        frames == spec_frames_for_ms(duration_ms as nat, sample_rate as nat),
{
    proof {
        lemma_product_fits(duration_ms as int, sample_rate as int);
    }
    let product: u128 = (duration_ms as u128) * (sample_rate as u128);
    let quotient = product / 1000;
    let frames: u128 = if product % 1000 == 0 { quotient } else { quotient + 1 };
    let frames: u128 = if frames < 1 { 1 } else { frames };
    if frames > usize::MAX as u128 {
        usize::MAX
    } else {
        frames as usize
    }
}

/// `x` capped at `u128::MAX`, the result of a saturating 128-bit product.
pub open spec fn saturate_u128(x: nat) -> nat {
    if x > u128::MAX { u128::MAX as nat } else { x }
}

/// Frames covered by `ticks` packets of time base `numerator / denominator`
/// at `sample_rate`: `ceil(ticks * numerator * sample_rate / denominator)`,
/// with the product saturating at `u128::MAX` and the result capped at
/// `u64::MAX`.
pub open spec fn spec_frames_from_ticks(ticks: nat, numerator: nat, denominator: nat, sample_rate: nat) -> nat {
    let frames = ceil_div(saturate_u128(ticks * numerator * sample_rate), denominator);
    if frames > u64::MAX { u64::MAX as nat } else { frames }
}

proof fn lemma_product_fits(x: int, y: int)
    requires
        0 <= x <= u64::MAX,
        0 <= y <= u64::MAX,
    ensures
        x * y <= u128::MAX,
        0 <= x * y,
{
    assert(x * y <= u64::MAX * u64::MAX) by (nonlinear_arith)
        requires
            0 <= x <= u64::MAX,
            0 <= y <= u64::MAX,
    ;
    assert(0 <= x * y) by (nonlinear_arith)
        requires
            0 <= x,
            0 <= y,
    ;
}

/// `x * y`, or `u128::MAX` when the product does not fit.
fn saturating_mul_u128(x: u128, y: u128) -> (p: u128)
    ensures
        p == saturate_u128((x * y) as nat),
{
    if y == 0 {
        return 0;
    }
    let limit = u128::MAX / y;
    if x > limit {
        assert(x * y > u128::MAX) by (nonlinear_arith)
            requires
                y > 0,
                limit == u128::MAX / y,
                x > limit,
        ;
        u128::MAX
    } else {
        assert(x * y <= u128::MAX) by (nonlinear_arith)
            requires
                y > 0,
                limit == u128::MAX / y,
                x <= limit,
        ;
        x * y
    }
}

/// Converts a track duration in time-base ticks to a frame count. The
/// product is computed in 128 bits and saturates there, as the decoder front
/// end does.
pub fn frames_from_ticks(ticks: u64, numerator: u32, denominator: u32, sample_rate: u32) -> (frames: u64)
    requires
        denominator > 0,
    ensures
        frames == spec_frames_from_ticks(ticks as nat, numerator as nat, denominator as nat, sample_rate as nat),
{
    proof {
        lemma_product_fits(ticks as int, numerator as int);
    }
    let product: u128 = (ticks as u128) * (numerator as u128);
    let product: u128 = saturating_mul_u128(product, sample_rate as u128);
    let rate: u128 = denominator as u128;
    let quotient = product / rate;
    if product % rate != 0 {
        assert(quotient < u128::MAX) by (nonlinear_arith)
            requires
                rate >= 1,
                product % rate != 0,
                quotient == product / rate,
                product <= u128::MAX,
        ;
    }
    let frames: u128 = if product % rate == 0 { quotient } else { quotient + 1 };
    if frames > u64::MAX as u128 {
        u64::MAX
    } else {
        frames as u64
    }
}

/// Errors of waveform construction, chunking and channel handling.
#[derive(Debug, Clone, PartialEq, Eq, Structural)]
pub enum AudioError {
    InvalidSampleRate,
    OddPcmByteLength,
    InvalidChannelCount,
    InvalidChunkSize,
    InvalidChunkRange,
    ChannelIndexOutOfRange,
    IncompleteFrame { samples: usize, channels: u16 },
}

/// Where undecoded audio comes from. Decoding, file reading and downloads
/// happen in the decoder front end; the PCM variant already holds samples.
#[derive(Debug, Clone, PartialEq, Eq)]
pub enum AudioSource {
    /// A local file path.
    Path(String),
    /// An HTTP(S) or `file://` URL.
    Url(String),
    /// Base64 text, optionally with a `data:` prefix.
    Base64(String),
    /// Raw bytes of an encoded container.
    EncodedBytes(Vec<u8>),
    /// Little-endian `i16` PCM with caller-supplied rate and channel count.
    PcmS16Le { bytes: Vec<u8>, sample_rate: u32, channels: u16 },
}

/// Why a source could not be probed.
#[derive(Debug, Clone, PartialEq, Eq)]
pub enum ProbeError {
    /// The PCM sample rate is zero.
    ZeroSampleRate,
    /// The PCM channel count is zero.
    ZeroChannels,
    /// The PCM byte length is not a whole number of frames.
    IncompleteFrames { byte_len: usize, channels: u16 },
    /// The source is a path or URL; its bytes are read by the caller.
    NotInMemory,
    /// The base64 text does not decode; the decoder's message.
    Base64(String),
    /// The container parser rejected the bytes; its message.
    Container(String),
    /// The container has no audio track.
    NoAudioTrack,
    /// The audio track has no audio codec parameters.
    NoAudioParameters,
    /// The audio track does not state its sample rate.
    UnknownSampleRate,
    /// Neither a frame count nor a time base is known.
    DurationUnavailable,
    /// Reading packets to measure the duration failed; the reader's message.
    PacketScan(String),
}

/// `"://"`.
pub open spec fn scheme_separator() -> Seq<char> {
    seq![':', '/', '/']
}

impl AudioSource {
    /// A string holding `://` is a URL, anything else a local path.
    pub fn new(path_or_url: String) -> (source: Self)
        ensures
            contains_seq(path_or_url@, scheme_separator()) ==> source == AudioSource::Url(path_or_url),
            !contains_seq(path_or_url@, scheme_separator()) ==> source == AudioSource::Path(path_or_url),
    {
        let chars = chars_of(path_or_url.as_str());
        if contains_chars(chars.as_slice(), &[':', '/', '/']) {
            AudioSource::Url(path_or_url)
        } else {
            AudioSource::Path(path_or_url)
        }
    }

    /// A local path source.
    pub fn from_path(path: String) -> (source: Self)
        ensures
            source == AudioSource::Path(path),
    {
        AudioSource::Path(path)
    }

    /// A URL source.
    pub fn from_url(url: String) -> (source: Self)
        ensures
            source == AudioSource::Url(url),
    {
        AudioSource::Url(url)
    }

    /// A base64 source.
    pub fn from_base64(data: String) -> (source: Self)
        ensures
            source == AudioSource::Base64(data),
    {
        AudioSource::Base64(data)
    }

    /// An encoded-bytes source.
    pub fn from_encoded_bytes(bytes: Vec<u8>) -> (source: Self)
        ensures
            source == AudioSource::EncodedBytes(bytes),
    {
        AudioSource::EncodedBytes(bytes)
    }

    /// A PCM S16LE source with the given layout.
    pub fn from_pcm_s16le(bytes: Vec<u8>, sample_rate: u32, channels: u16) -> (source: Self)
        ensures
            source == (AudioSource::PcmS16Le { bytes, sample_rate, channels }),
    {
        AudioSource::PcmS16Le { bytes, sample_rate, channels }
    }
}

/// The container kinds recognised from leading magic bytes.
#[derive(Debug, Clone, Copy, PartialEq, Eq, Structural)]
pub enum SniffedContainer {
    Wav,
    Flac,
    Ogg,
    Mp3,
    Unknown,
}

/// `RIFF....WAVE`, `fLaC`, `OggS`, `ID3` or an MPEG frame sync, in that order.
pub open spec fn spec_sniff_container(bytes: Seq<u8>) -> SniffedContainer {
    if starts_with(bytes, seq![0x52u8, 0x49u8, 0x46u8, 0x46u8]) && bytes.len() >= 12
        && bytes.subrange(8, 12) == seq![0x57u8, 0x41u8, 0x56u8, 0x45u8] {
        SniffedContainer::Wav
    } else if starts_with(bytes, seq![0x66u8, 0x4cu8, 0x61u8, 0x43u8]) {
        SniffedContainer::Flac
    } else if starts_with(bytes, seq![0x4fu8, 0x67u8, 0x67u8, 0x53u8]) {
        SniffedContainer::Ogg
    } else if starts_with(bytes, seq![0x49u8, 0x44u8, 0x33u8]) || (bytes.len() >= 2 && bytes[0]
        == 0xffu8 && bytes[1] & 0xe0u8 == 0xe0u8) {
        SniffedContainer::Mp3
    } else {
        SniffedContainer::Unknown
    }
}

/// Recognises a container from its leading magic bytes.
pub fn sniff_container(bytes: &[u8]) -> (kind: SniffedContainer)
    ensures
        kind == spec_sniff_container(bytes@),
{
    let riff = bytes_start_with(bytes, &[0x52u8, 0x49u8, 0x46u8, 0x46u8]);
    let wave = bytes.len() >= 12 && bytes[8] == 0x57u8 && bytes[9] == 0x41u8 && bytes[10] == 0x56u8
        && bytes[11] == 0x45u8;
    proof {
        if bytes@.len() >= 12 {
            let tag = seq![0x57u8, 0x41u8, 0x56u8, 0x45u8];
            if wave {
                assert(bytes@.subrange(8, 12) =~= tag);
            } else {
                assert(bytes@.subrange(8, 12) != tag) by {
                    let sub = bytes@.subrange(8, 12);
                    if sub == tag {
                        assert(sub[0] == tag[0] && sub[1] == tag[1] && sub[2] == tag[2] && sub[3] == tag[3]);
                    }
                }
            }
        }
    }
    if riff && wave {
        SniffedContainer::Wav
    } else if bytes_start_with(bytes, &[0x66u8, 0x4cu8, 0x61u8, 0x43u8]) {
        SniffedContainer::Flac
    } else if bytes_start_with(bytes, &[0x4fu8, 0x67u8, 0x67u8, 0x53u8]) {
        SniffedContainer::Ogg
    } else if bytes_start_with(bytes, &[0x49u8, 0x44u8, 0x33u8]) || (bytes.len() >= 2 && bytes[0]
        == 0xffu8 && bytes[1] & 0xe0u8 == 0xe0u8) {
        SniffedContainer::Mp3
    } else {
        SniffedContainer::Unknown
    }
}

/// The encoding of a sniffed container.
pub open spec fn encoding_of_container(kind: SniffedContainer) -> AudioEncoding {
    match kind {
        SniffedContainer::Wav => AudioEncoding::Wav,
        SniffedContainer::Flac => AudioEncoding::Flac,
        SniffedContainer::Ogg => AudioEncoding::Ogg,
        SniffedContainer::Mp3 => AudioEncoding::Mp3,
        SniffedContainer::Unknown => AudioEncoding::Unknown,
    }
}

/// Guesses the encoding of container bytes from their magic number.
pub fn detect_encoding(bytes: &[u8]) -> (encoding: AudioEncoding)
    ensures
        encoding == encoding_of_container(spec_sniff_container(bytes@)),
{
    match sniff_container(bytes) {
        SniffedContainer::Wav => AudioEncoding::Wav,
        SniffedContainer::Flac => AudioEncoding::Flac,
        SniffedContainer::Ogg => AudioEncoding::Ogg,
        SniffedContainer::Mp3 => AudioEncoding::Mp3,
        SniffedContainer::Unknown => AudioEncoding::Unknown,
    }
}

proof fn lemma_starts_with_bytes(b: Seq<u8>, p: Seq<u8>)
    ensures
        starts_with(b, p) <==> (p.len() <= b.len() && forall|i: int| 0 <= i < p.len() ==> b[i] == p[i]),
{
    if p.len() <= b.len() {
        if forall|i: int| 0 <= i < p.len() ==> b[i] == p[i] {
            assert(b.take(p.len() as int) =~= p);
        }
        if starts_with(b, p) {
            assert forall|i: int| 0 <= i < p.len() implies b[i] == p[i] by {
                assert(b.take(p.len() as int)[i] == b[i]);
            }
        }
    }
}

/// Each container's magic number gives its own encoding, and nothing else
/// does: `RIFF....WAVE` is WAV, `fLaC` is FLAC, `OggS` is Ogg, `ID3` or an
/// MPEG frame sync (`0xFF` then three set high bits) is MP3, checked in
/// that order; bytes with none of them are of unknown encoding.
pub proof fn lemma_detected_encoding(bytes: Seq<u8>)
    ensures
        ({
            let e = encoding_of_container(spec_sniff_container(bytes));
            let wav = bytes.len() >= 12 && bytes[0] == 0x52u8 && bytes[1] == 0x49u8 && bytes[2] == 0x46u8 && bytes[3]
                == 0x46u8 && bytes[8] == 0x57u8 && bytes[9] == 0x41u8 && bytes[10] == 0x56u8 && bytes[11] == 0x45u8;
            let flac = bytes.len() >= 4 && bytes[0] == 0x66u8 && bytes[1] == 0x4cu8 && bytes[2] == 0x61u8 && bytes[3]
                == 0x43u8;
            let ogg = bytes.len() >= 4 && bytes[0] == 0x4fu8 && bytes[1] == 0x67u8 && bytes[2] == 0x67u8 && bytes[3]
                == 0x53u8;
            let id3 = bytes.len() >= 3 && bytes[0] == 0x49u8 && bytes[1] == 0x44u8 && bytes[2] == 0x33u8;
            let sync = bytes.len() >= 2 && bytes[0] == 0xffu8 && bytes[1] & 0xe0u8 == 0xe0u8;
            &&& wav ==> e == AudioEncoding::Wav
            &&& flac ==> e == AudioEncoding::Flac
            &&& ogg ==> e == AudioEncoding::Ogg
            &&& id3 || sync ==> e == AudioEncoding::Mp3
            &&& e == AudioEncoding::Unknown <==> !(wav || flac || ogg || id3 || sync)
        }),
{
    let b = bytes;
    lemma_starts_with_bytes(b, seq![0x52u8, 0x49u8, 0x46u8, 0x46u8]);
    lemma_starts_with_bytes(b, seq![0x66u8, 0x4cu8, 0x61u8, 0x43u8]);
    lemma_starts_with_bytes(b, seq![0x4fu8, 0x67u8, 0x67u8, 0x53u8]);
    lemma_starts_with_bytes(b, seq![0x49u8, 0x44u8, 0x33u8]);
    if b.len() >= 12 {
        if b.subrange(8, 12) == seq![0x57u8, 0x41u8, 0x56u8, 0x45u8] {
            assert(b.subrange(8, 12)[0] == b[8] && b.subrange(8, 12)[3] == b[11]);
        }
        if b[8] == 0x57u8 && b[9] == 0x41u8 && b[10] == 0x56u8 && b[11] == 0x45u8 {
            assert(b.subrange(8, 12) =~= seq![0x57u8, 0x41u8, 0x56u8, 0x45u8]);
        } else {
            assert(b.subrange(8, 12)[0] == b[8] && b.subrange(8, 12)[1] == b[9]);
            assert(b.subrange(8, 12)[2] == b[10] && b.subrange(8, 12)[3] == b[11]);
        }
    }
}

/// The file extension used when exporting embedded bytes of a sniffed kind.
pub open spec fn extension_of_container(kind: SniffedContainer) -> Seq<char> {
    match kind {
        SniffedContainer::Wav => seq!['w', 'a', 'v'],
        SniffedContainer::Flac => seq!['f', 'l', 'a', 'c'],
        SniffedContainer::Ogg => seq!['o', 'g', 'g'],
        SniffedContainer::Mp3 => seq!['m', 'p', '3'],
        SniffedContainer::Unknown => seq!['a', 'u', 'd', 'i', 'o'],
    }
}

/// The export file extension for embedded audio bytes: `wav`, `flac`, `ogg`,
/// `mp3`, or `audio` when the magic number is not recognised.
pub fn detect_extension(bytes: &[u8]) -> (extension: String)
    ensures
        extension@ == extension_of_container(spec_sniff_container(bytes@)),
{
    match sniff_container(bytes) {
        SniffedContainer::Wav => string_from_chars(&['w', 'a', 'v']),
        SniffedContainer::Flac => string_from_chars(&['f', 'l', 'a', 'c']),
        SniffedContainer::Ogg => string_from_chars(&['o', 'g', 'g']),
        SniffedContainer::Mp3 => string_from_chars(&['m', 'p', '3']),
        SniffedContainer::Unknown => string_from_chars(&['a', 'u', 'd', 'i', 'o']),
    }
}

/// The encoding named by a file extension, compared case-insensitively.
pub open spec fn spec_encoding_from_extension(extension: Seq<char>) -> AudioEncoding {
    let lower = ascii_lowercase(extension);
    if lower == seq!['w', 'a', 'v'] || lower == seq!['w', 'a', 'v', 'e'] {
        AudioEncoding::Wav
    } else if lower == seq!['f', 'l', 'a', 'c'] {
        AudioEncoding::Flac
    } else if lower == seq!['m', 'p', '3'] || lower == seq!['m', 'p', 'e', 'g'] {
        AudioEncoding::Mp3
    } else if lower == seq!['o', 'g', 'g'] || lower == seq!['o', 'g', 'a'] || lower == seq![
        'o',
        'p',
        'u',
        's',
    ] {
        AudioEncoding::Ogg
    } else {
        AudioEncoding::Unknown
    }
}

/// The encoding named by a file extension (`wav`/`wave`, `flac`,
/// `mp3`/`mpeg`, `ogg`/`oga`/`opus`), ignoring ASCII case.
pub fn encoding_from_extension(extension: &[char]) -> (encoding: AudioEncoding)
    ensures
        encoding == spec_encoding_from_extension(extension@),
{
    let lower = lowercase_chars(extension);
    let l = lower.as_slice();
    if chars_eq(l, &['w', 'a', 'v']) || chars_eq(l, &['w', 'a', 'v', 'e']) {
        AudioEncoding::Wav
    } else if chars_eq(l, &['f', 'l', 'a', 'c']) {
        AudioEncoding::Flac
    } else if chars_eq(l, &['m', 'p', '3']) || chars_eq(l, &['m', 'p', 'e', 'g']) {
        AudioEncoding::Mp3
    } else if chars_eq(l, &['o', 'g', 'g']) || chars_eq(l, &['o', 'g', 'a']) || chars_eq(
        l,
        &['o', 'p', 'u', 's'],
    ) {
        AudioEncoding::Ogg
    } else {
        AudioEncoding::Unknown
    }
}

/// Lowercases the ASCII letters of a character slice.
fn lowercase_chars(s: &[char]) -> (lower: Vec<char>)
    ensures
        lower@ == ascii_lowercase(s@),
{
    let mut lower: Vec<char> = Vec::new();
    let mut i: usize = 0;
    while i < s.len()
        invariant
            i <= s@.len(),
            lower@ =~= ascii_lowercase(s@.take(i as int)),
        decreases s@.len() - i,
    {
        lower.push(crate::chars::ascii_lower(s[i]));
        i = i + 1;
    }
    assert(s@.take(s@.len() as int) =~= s@);
    lower
}

/// Whether `k` is the index of the first `?` or `#` in `s`, or `s.len()`
/// when there is none.
pub open spec fn is_query_start(s: Seq<char>, k: int) -> bool {
    &&& 0 <= k <= s.len()
    &&& forall|j: int| 0 <= j < k ==> s[j] != '?' && s[j] != '#'
    &&& (k == s.len() || s[k] == '?' || s[k] == '#')
}

/// The part of a URL before its query or fragment.
pub open spec fn url_path_part(url: Seq<char>) -> Seq<char> {
    url.take(choose|k: int| is_query_start(url, k))
}

/// Whether `k` is the index of the last `.` in `s`.
pub open spec fn is_last_dot(s: Seq<char>, k: int) -> bool {
    &&& 0 <= k < s.len()
    &&& s[k] == '.'
    &&& forall|j: int| k < j < s.len() ==> s[j] != '.'
}

/// The text after the last `.` of `s`, if `s` has a dot.
pub open spec fn extension_after_last_dot(s: Seq<char>) -> Option<Seq<char>> {
    if exists|k: int| is_last_dot(s, k) {
        Some(s.skip((choose|k: int| is_last_dot(s, k)) + 1))
    } else {
        None
    }
}

/// The encoding of a downloaded URL: the extension of its path when it names
/// a known encoding, otherwise the magic number of the bytes.
pub open spec fn spec_encoding_from_url(url: Seq<char>, bytes: Seq<u8>) -> AudioEncoding {
    match extension_after_last_dot(url_path_part(url)) {
        Some(extension) if spec_encoding_from_extension(extension) != AudioEncoding::Unknown =>
            spec_encoding_from_extension(extension),
        _ => encoding_of_container(spec_sniff_container(bytes)),
    }
}

/// Index of the first `?` or `#`, or the length.
fn query_start(s: &[char]) -> (k: usize)
    ensures
        is_query_start(s@, k as int),
{
    let mut k: usize = 0;
    while k < s.len()
        invariant
            k <= s@.len(),
            forall|j: int| 0 <= j < k ==> s@[j] != '?' && s@[j] != '#',
        decreases s@.len() - k,
    {
        if s[k] == '?' || s[k] == '#' {
            return k;
        }
        k = k + 1;
    }
    k
}

proof fn lemma_query_start_unique(s: Seq<char>, k1: int, k2: int)
    requires
        is_query_start(s, k1),
        is_query_start(s, k2),
    ensures
        k1 == k2,
{
    if k1 < k2 {
        assert(s[k1] != '?' && s[k1] != '#');
    }
    if k2 < k1 {
        assert(s[k2] != '?' && s[k2] != '#');
    }
}

proof fn lemma_last_dot_unique(s: Seq<char>, k1: int, k2: int)
    requires
        is_last_dot(s, k1),
        is_last_dot(s, k2),
    ensures
        k1 == k2,
{
}

/// Index of the last `.` in `s`, if any.
fn last_dot(s: &[char]) -> (k: Option<usize>)
    ensures
        k is Some ==> is_last_dot(s@, k->0 as int),
        k is None ==> !exists|j: int| is_last_dot(s@, j),
{
    let mut i: usize = s.len();
    while i > 0
        invariant
            i <= s@.len(),
            forall|j: int| i <= j < s@.len() ==> s@[j] != '.',
        decreases i,
    {
        if s[i - 1] == '.' {
            return Some(i - 1);
        }
        i = i - 1;
    }
    assert forall|j: int| !is_last_dot(s@, j) by {
        if is_last_dot(s@, j) {
            assert(s@[j] == '.');
        }
    }
    None
}

/// The encoding of audio downloaded from `url`: the URL path's extension when
/// it names a known encoding, else the bytes' magic number.
pub fn encoding_from_url(url: &str, bytes: &[u8]) -> (encoding: AudioEncoding)
    ensures
        encoding == spec_encoding_from_url(url@, bytes@),
{
    let chars = chars_of(url);
    let k = query_start(chars.as_slice());
    proof {
        lemma_query_start_unique(url@, k as int, choose|j: int| is_query_start(url@, j));
    }
    let path = copy_range(chars.as_slice(), 0, k);
    assert(path@ =~= url_path_part(url@));
    match last_dot(path.as_slice()) {
        Some(dot) => {
            proof {
                lemma_last_dot_unique(path@, dot as int, choose|j: int| is_last_dot(path@, j));
            }
            let extension = copy_range(path.as_slice(), dot + 1, path.len());
            assert(extension@ =~= path@.skip(dot + 1));
            let encoding = encoding_from_extension(extension.as_slice());
            match encoding {
                AudioEncoding::Unknown => detect_encoding(bytes),
                _ => encoding,
            }
        },
        None => detect_encoding(bytes),
    }
}

/// The value of an ASCII hexadecimal digit.
pub open spec fn spec_hex_value(byte: u8) -> Option<u8> {
    if 0x30u8 <= byte <= 0x39u8 {
        Some((byte - 0x30u8) as u8)
    } else if 0x61u8 <= byte <= 0x66u8 {
        Some((byte - 0x61u8 + 10) as u8)
    } else if 0x41u8 <= byte <= 0x46u8 {
        Some((byte - 0x41u8 + 10) as u8)
    } else {
        None
    }
}

/// Parses one hexadecimal digit; anything else is `None`.
pub fn hex_value(byte: u8) -> (value: Option<u8>)
    ensures
        value == spec_hex_value(byte),
        value is Some ==> value->0 < 16,
{
    if 0x30u8 <= byte && byte <= 0x39u8 {
        Some(byte - 0x30u8)
    } else if 0x61u8 <= byte && byte <= 0x66u8 {
        Some(byte - 0x61u8 + 10)
    } else if 0x41u8 <= byte && byte <= 0x46u8 {
        Some(byte - 0x41u8 + 10)
    } else {
        None
    }
}

/// Decodes `%HH` escapes; a `%` not followed by two hex digits stays as is.
pub open spec fn percent_decoded(bytes: Seq<u8>) -> Seq<u8>
    decreases bytes.len(),
{
    if bytes.len() == 0 {
        Seq::empty()
    } else if bytes[0] == 0x25u8 && bytes.len() > 2 && spec_hex_value(bytes[1]) is Some
        && spec_hex_value(bytes[2]) is Some {
        seq![(spec_hex_value(bytes[1])->0 * 16 + spec_hex_value(bytes[2])->0) as u8]
            + percent_decoded(bytes.skip(3))
    } else {
        seq![bytes[0]] + percent_decoded(bytes.skip(1))
    }
}

/// Decodes `%HH` escapes in a byte string.
pub fn percent_decode_bytes(bytes: &[u8]) -> (out: Vec<u8>)
    ensures
        out@ == percent_decoded(bytes@),
{
    let mut out: Vec<u8> = Vec::new();
    let mut i: usize = 0;
    let n = bytes.len();
    assert(bytes@.skip(0) =~= bytes@);
    assert(out@ + percent_decoded(bytes@) =~= percent_decoded(bytes@));
    while i < n
        invariant
            n == bytes@.len(),
            i <= n,
            out@ + percent_decoded(bytes@.skip(i as int)) == percent_decoded(bytes@),
        decreases n - i,
    {
        let ghost rest = bytes@.skip(i as int);
        if bytes[i] == 0x25u8 && n - i > 2 {
            let hi = hex_value(bytes[i + 1]);
            let lo = hex_value(bytes[i + 2]);
            if let (Some(h), Some(l)) = (hi, lo) {
                proof {
                    assert(rest[0] == bytes@[i as int] && rest[1] == bytes@[i + 1] && rest[2] == bytes@[i + 2]);
                    assert(rest.skip(3) =~= bytes@.skip(i + 3));
                    assert(out@.push((h * 16 + l) as u8) + percent_decoded(bytes@.skip(i + 3))
                        =~= out@ + percent_decoded(rest));
                }
                out.push(h * 16 + l);
                i = i + 3;
                continue;
            }
        }
        proof {
            assert(rest[0] == bytes@[i as int]);
            assert(rest.skip(1) =~= bytes@.skip(i + 1));
            assert(out@.push(bytes@[i as int]) + percent_decoded(bytes@.skip(i + 1)) =~= out@
                + percent_decoded(rest));
        }
        out.push(bytes[i]);
        i = i + 1;
    }
    proof {
        assert(bytes@.skip(n as int) =~= Seq::<u8>::empty());
        assert(out@ + Seq::<u8>::empty() =~= out@);
    }
    out
}

/// Decodes `%HH` escapes in a path and reads the result as UTF-8, replacing
/// invalid sequences.
pub fn percent_decode_path(value: &str) -> (path: String)
    ensures
        path@ == utf8_lossy(percent_decoded(value.spec_bytes())),
        vstd::utf8::valid_utf8(percent_decoded(value.spec_bytes())) ==> path@ == vstd::utf8::decode_utf8(
            percent_decoded(value.spec_bytes()),
        ),
{
    let decoded = percent_decode_bytes(value.as_bytes());
    string_from_utf8_lossy(decoded.as_slice())
}

/// The bytes of `"file://"`.
pub open spec fn file_scheme() -> Seq<u8> {
    seq![0x66u8, 0x69u8, 0x6cu8, 0x65u8, 0x3au8, 0x2fu8, 0x2fu8]
}

/// The bytes of `"http://"`.
pub open spec fn http_scheme() -> Seq<u8> {
    seq![0x68u8, 0x74u8, 0x74u8, 0x70u8, 0x3au8, 0x2fu8, 0x2fu8]
}

/// The bytes of `"https://"`.
pub open spec fn https_scheme() -> Seq<u8> {
    seq![0x68u8, 0x74u8, 0x74u8, 0x70u8, 0x73u8, 0x3au8, 0x2fu8, 0x2fu8]
}

/// The local path a `file://` URL or a plain path names; HTTP(S) URLs have none.
pub fn local_path_from_urlish(value: &str) -> (path: Option<String>)
    ensures
        starts_with(value.spec_bytes(), file_scheme()) ==> path is Some && path->0@ == utf8_lossy(
            percent_decoded(value.spec_bytes().skip(7)),
        ),
        starts_with(value.spec_bytes(), file_scheme()) && vstd::utf8::valid_utf8(
            percent_decoded(value.spec_bytes().skip(7)),
        ) ==> path is Some && path->0@ == vstd::utf8::decode_utf8(percent_decoded(value.spec_bytes().skip(7))),
        !starts_with(value.spec_bytes(), file_scheme()) && (starts_with(value.spec_bytes(), http_scheme())
            || starts_with(value.spec_bytes(), https_scheme())) ==> path is None,
        !starts_with(value.spec_bytes(), file_scheme()) && !starts_with(value.spec_bytes(), http_scheme())
            && !starts_with(value.spec_bytes(), https_scheme()) ==> path is Some && path->0@ == value@,
{
    let bytes = value.as_bytes();
    if bytes_start_with(bytes, &[0x66u8, 0x69u8, 0x6cu8, 0x65u8, 0x3au8, 0x2fu8, 0x2fu8]) {
        let rest = copy_range(bytes, 7, bytes.len());
        assert(rest@ =~= value.spec_bytes().skip(7));
        let decoded = percent_decode_bytes(rest.as_slice());
        return Some(string_from_utf8_lossy(decoded.as_slice()));
    }
    if bytes_start_with(bytes, &[0x68u8, 0x74u8, 0x74u8, 0x70u8, 0x3au8, 0x2fu8, 0x2fu8])
        || bytes_start_with(bytes, &[0x68u8, 0x74u8, 0x74u8, 0x70u8, 0x73u8, 0x3au8, 0x2fu8, 0x2fu8]) {
        return None;
    }
    Some(value.to_owned())
}

/// Text without `%` is left unchanged by percent decoding.
pub proof fn lemma_percent_decode_without_escapes(bytes: Seq<u8>)
    requires
        forall|k: int| 0 <= k < bytes.len() ==> bytes[k] != 0x25u8,
    ensures
        percent_decoded(bytes) == bytes,
    decreases bytes.len(),
{
    if bytes.len() > 0 {
        lemma_percent_decode_without_escapes(bytes.skip(1));
        assert(seq![bytes[0]] + bytes.skip(1) =~= bytes);
    }
}

} // verus!
