//! The FASR AudioList container and what one record's metadata says about
//! its audio.
//!
//! A container is the eight-byte magic `FASRAL01` or `FASRAL02`, a
//! big-endian `u64` header length, a JSON header, and then, for each entry of
//! the header's `audios` array, a length-prefixed metadata JSON document and
//! length-prefixed encoded audio bytes.

use vstd::prelude::*;

use crate::audio::AudioEncoding;
use crate::chars::{ascii_lowercase, chars_eq_str, copy_range, to_ascii_lowercase};
use crate::doc::Audio;
use crate::text::{trim, trim_chars};
use crate::chars::{append_chars, chars_of, decimal_digits, string_from_chars};

verus! {

/// How many records a conversion wrote.
#[derive(Debug, Clone, Copy, PartialEq, Eq, Structural)]
pub struct FasrConvertSummary {
    pub records: usize,
}

/// The part of a container that ended early; record parts carry the
/// record's position.
#[derive(Debug, Clone, Copy, PartialEq, Eq, Structural)]
pub enum FasrPart {
    Magic,
    HeaderLength,
    Header,
    MetadataLength(usize),
    Metadata(usize),
    AudioLength(usize),
    Audio(usize),
}

/// Why a container could not be read.
#[derive(Debug, Clone, PartialEq, Eq)]
pub enum FasrError {
    /// The first eight bytes are neither `FASRAL01` nor `FASRAL02`.
    UnsupportedMagic(Vec<u8>),
    /// The bytes end inside the given part.
    Truncated(FasrPart),
    /// The header is not JSON; the parser's message.
    HeaderJson(String),
    /// The header's `format` is not `fasr-audiolist`.
    NotAudioList,
}

/// One record: its metadata JSON and its encoded audio.
#[derive(Debug, Clone, PartialEq, Eq)]
pub struct FasrFrame {
    pub metadata: Vec<u8>,
    pub audio: Vec<u8>,
}

// ---------------------------------------------------------------------------
// JSON lookups

/// The message `serde_json::from_slice::<Value>` reports for `json`, or
/// `None` when `json` is one JSON document.
pub uninterp spec fn json_syntax_error(json: Seq<u8>) -> Option<Seq<char>>;

/// The string at JSON pointer `pointer` of the document `json`, if the
/// pointer reaches a string.
pub uninterp spec fn json_str_at(json: Seq<u8>, pointer: Seq<char>) -> Option<Seq<char>>;

/// The unsigned integer at `pointer` of `json`, if the pointer reaches a
/// number that fits in a `u64`.
pub uninterp spec fn json_u64_at(json: Seq<u8>, pointer: Seq<char>) -> Option<u64>;

/// The length of the array at `pointer` of `json`, if the pointer reaches an
/// array.
pub uninterp spec fn json_array_len_at(json: Seq<u8>, pointer: Seq<char>) -> Option<usize>;

/// Whether the value at `pointer` of `json` is `null`, and its compact JSON
/// text, if the pointer reaches a value.
pub uninterp spec fn json_value_at(json: Seq<u8>, pointer: Seq<char>) -> Option<(bool, Seq<char>)>;

/// Trusted: parses `json` with `serde_json::from_slice` into a `Value`, then
/// follows `Value::pointer` and `Value::as_str`. A parse error gives its
/// display text.
#[verifier::external_body]
fn lookup_str(json: &[u8], pointer: &str) -> (found: Result<Option<String>, String>)
    ensures
        match found {
            Ok(s) => json_syntax_error(json@) is None && match s {
                Some(s) => json_str_at(json@, pointer@) == Some(s@),
                None => json_str_at(json@, pointer@) is None,
            },
            Err(e) => json_syntax_error(json@) == Some(e@),
        },
{
    match serde_json::from_slice::<serde_json::Value>(json) {
        Ok(value) => Ok(value.pointer(pointer).and_then(serde_json::Value::as_str).map(str::to_string)),
        Err(error) => Err(error.to_string()),
    }
}

/// Trusted: parses `json` with `serde_json::from_slice`, then follows
/// `Value::pointer` and `Value::as_u64`.
#[verifier::external_body]
fn lookup_u64(json: &[u8], pointer: &str) -> (found: Result<Option<u64>, String>)
    ensures
        match found {
            Ok(n) => json_syntax_error(json@) is None && n == json_u64_at(json@, pointer@),
            Err(e) => json_syntax_error(json@) == Some(e@),
        },
{
    match serde_json::from_slice::<serde_json::Value>(json) {
        Ok(value) => Ok(value.pointer(pointer).and_then(serde_json::Value::as_u64)),
        Err(error) => Err(error.to_string()),
    }
}

/// Trusted: parses `json` with `serde_json::from_slice`, then follows
/// `Value::pointer`, `Value::as_array` and `Vec::len`.
#[verifier::external_body]
fn lookup_array_len(json: &[u8], pointer: &str) -> (found: Result<Option<usize>, String>)
    ensures
        match found {
            Ok(n) => json_syntax_error(json@) is None && n == json_array_len_at(json@, pointer@),
            Err(e) => json_syntax_error(json@) == Some(e@),
        },
{
    match serde_json::from_slice::<serde_json::Value>(json) {
        Ok(value) => Ok(value.pointer(pointer).and_then(serde_json::Value::as_array).map(Vec::len)),
        Err(error) => Err(error.to_string()),
    }
}

/// Trusted: parses `json` with `serde_json::from_slice`, follows
/// `Value::pointer`, and gives `Value::is_null` and the value's `to_string`.
#[verifier::external_body]
fn lookup_value(json: &[u8], pointer: &str) -> (found: Result<Option<(bool, String)>, String>)
    ensures
        match found {
            Ok(v) => json_syntax_error(json@) is None && match v {
                Some((null, text)) => json_value_at(json@, pointer@) == Some((null, text@)),
                None => json_value_at(json@, pointer@) is None,
            },
            Err(e) => json_syntax_error(json@) == Some(e@),
        },
{
    match serde_json::from_slice::<serde_json::Value>(json) {
        Ok(value) => Ok(value.pointer(pointer).map(|v| (v.is_null(), v.to_string()))),
        Err(error) => Err(error.to_string()),
    }
}

// ---------------------------------------------------------------------------
// Container framing

/// `FASRAL01`.
pub open spec fn magic_v1() -> Seq<u8> {
    seq![70u8, 65u8, 83u8, 82u8, 65u8, 76u8, 48u8, 49u8]
}

/// `FASRAL02`.
pub open spec fn magic_v2() -> Seq<u8> {
    seq![70u8, 65u8, 83u8, 82u8, 65u8, 76u8, 48u8, 50u8]
}

/// The big-endian `u64` in the eight bytes of `bytes` from `pos`.
pub open spec fn be_u64_at(bytes: Seq<u8>, pos: int) -> nat {
    (bytes[pos] as nat) * 0x0100_0000_0000_0000 + (bytes[pos + 1] as nat) * 0x0001_0000_0000_0000
        + (bytes[pos + 2] as nat) * 0x0000_0100_0000_0000 + (bytes[pos + 3] as nat) * 0x0000_0001_0000_0000
        + (bytes[pos + 4] as nat) * 0x0000_0000_0100_0000 + (bytes[pos + 5] as nat) * 0x0000_0000_0001_0000
        + (bytes[pos + 6] as nat) * 0x0000_0000_0000_0100 + (bytes[pos + 7] as nat)
}

/// Reads the big-endian `u64` at `pos`.
fn read_be_u64(bytes: &[u8], pos: usize) -> (v: u64)
    requires
        pos + 8 <= bytes@.len(),
    ensures
        v == be_u64_at(bytes@, pos as int),
{
    (bytes[pos] as u64) * 0x0100_0000_0000_0000 + (bytes[pos + 1] as u64) * 0x0001_0000_0000_0000
        + (bytes[pos + 2] as u64) * 0x0000_0100_0000_0000 + (bytes[pos + 3] as u64) * 0x0000_0001_0000_0000
        + (bytes[pos + 4] as u64) * 0x0000_0000_0100_0000 + (bytes[pos + 5] as u64) * 0x0000_0000_0001_0000
        + (bytes[pos + 6] as u64) * 0x0000_0000_0000_0100 + (bytes[pos + 7] as u64)
}

/// The `count` records from `pos` on, the first of them at position `index`:
/// each a metadata and an audio part, each part a big-endian `u64` length
/// and that many bytes. Bytes after the last record are ignored.
pub open spec fn spec_records(bytes: Seq<u8>, pos: int, index: nat, count: nat) -> Result<Seq<(Seq<u8>, Seq<u8>)>, FasrPart>
    decreases count,
{
    if count == 0 {
        Ok(Seq::empty())
    } else if pos + 8 > bytes.len() {
        Err(FasrPart::MetadataLength(index as usize))
    } else if pos + 8 + be_u64_at(bytes, pos) > bytes.len() {
        Err(FasrPart::Metadata(index as usize))
    } else {
        let meta_end = pos + 8 + be_u64_at(bytes, pos);
        if meta_end + 8 > bytes.len() {
            Err(FasrPart::AudioLength(index as usize))
        } else if meta_end + 8 + be_u64_at(bytes, meta_end) > bytes.len() {
            Err(FasrPart::Audio(index as usize))
        } else {
            let audio_end = meta_end + 8 + be_u64_at(bytes, meta_end);
            let frame = (bytes.subrange(pos + 8, meta_end), bytes.subrange(meta_end + 8, audio_end));
            match spec_records(bytes, audio_end, index + 1, (count - 1) as nat) {
                Ok(rest) => Ok(seq![frame] + rest),
                Err(part) => Err(part),
            }
        }
    }
}

/// The metadata and audio bytes of frames.
pub open spec fn frames_view(frames: Seq<FasrFrame>) -> Seq<(Seq<u8>, Seq<u8>)> {
    frames.map_values(|f: FasrFrame| (f.metadata@, f.audio@))
}

/// `"/format"`.
pub open spec fn format_pointer() -> Seq<char> {
    "/format"@
}

/// `"/audios"`.
pub open spec fn audios_pointer() -> Seq<char> {
    "/audios"@
}

/// What reading a container gives: its records, or the first error met.
/// The header must be JSON whose `format` is `fasr-audiolist`; its `audios`
/// array (none counts as empty) says how many records follow.
pub open spec fn spec_read_fasr(bytes: Seq<u8>, result: Result<Seq<FasrFrame>, FasrError>) -> bool {
    if bytes.len() < 8 {
        result == Err::<Seq<FasrFrame>, FasrError>(FasrError::Truncated(FasrPart::Magic))
    } else if bytes.take(8) != magic_v1() && bytes.take(8) != magic_v2() {
        result matches Err(FasrError::UnsupportedMagic(m)) && m@ == bytes.take(8)
    } else if bytes.len() < 16 {
        result == Err::<Seq<FasrFrame>, FasrError>(FasrError::Truncated(FasrPart::HeaderLength))
    } else if 16 + be_u64_at(bytes, 8) > bytes.len() {
        result == Err::<Seq<FasrFrame>, FasrError>(FasrError::Truncated(FasrPart::Header))
    } else {
        let header_end: int = (16 + be_u64_at(bytes, 8)) as int;
        let header = bytes.subrange(16, header_end);
        match json_syntax_error(header) {
            Some(message) => result matches Err(FasrError::HeaderJson(m)) && m@ == message,
            None => if json_str_at(header, format_pointer()) != Some("fasr-audiolist"@) {
                result == Err::<Seq<FasrFrame>, FasrError>(FasrError::NotAudioList)
            } else {
                let count: nat = match json_array_len_at(header, audios_pointer()) {
                    Some(n) => n as nat,
                    None => 0,
                };
                match spec_records(bytes, header_end, 0, count) {
                    Ok(frames) => result matches Ok(v) && frames_view(v) == frames,
                    Err(part) => result == Err::<Seq<FasrFrame>, FasrError>(FasrError::Truncated(part)),
                }
            }
        }
    }
}

/// Whether the first eight bytes are a known magic.
fn has_fasr_magic(bytes: &[u8]) -> (b: bool)
    requires
        bytes@.len() >= 8,
    ensures
        b == (bytes@.take(8) == magic_v1() || bytes@.take(8) == magic_v2()),
{
    let common = bytes[0] == 70 && bytes[1] == 65 && bytes[2] == 83 && bytes[3] == 82 && bytes[4] == 65
        && bytes[5] == 76 && bytes[6] == 48;
    let b = common && (bytes[7] == 49 || bytes[7] == 50);
    proof {
        if b {
            if bytes[7] == 49 {
                assert(bytes@.take(8) =~= magic_v1());
            } else {
                assert(bytes@.take(8) =~= magic_v2());
            }
        } else {
            if bytes@.take(8) == magic_v1() {
                assert(bytes@.take(8)[7] == 49u8);
            }
            if bytes@.take(8) == magic_v2() {
                assert(bytes@.take(8)[7] == 50u8);
            }
        }
    }
    b
}

/// Reads the `count` records that start at `pos`.
fn read_records(bytes: &[u8], pos: usize, count: usize) -> (result: Result<Vec<FasrFrame>, FasrPart>)
    requires
        pos <= bytes@.len(),
    ensures
        match spec_records(bytes@, pos as int, 0, count as nat) {
            Ok(frames) => result matches Ok(v) && frames_view(v@) == frames,
            Err(part) => result == Err::<Vec<FasrFrame>, FasrPart>(part),
        },
{
    let mut frames: Vec<FasrFrame> = Vec::new();
    let mut at: usize = pos;
    let mut index: usize = 0;
    let ghost whole = spec_records(bytes@, pos as int, 0, count as nat);
    while index < count
        invariant
            index <= count,
            at <= bytes@.len(),
            whole == spec_records(bytes@, pos as int, 0, count as nat),
            whole == match spec_records(bytes@, at as int, index as nat, (count - index) as nat) {
                Ok(rest) => Ok(frames_view(frames@) + rest),
                Err(part) => Err::<Seq<(Seq<u8>, Seq<u8>)>, FasrPart>(part),
            },
        decreases count - index,
    {
        let ghost here = spec_records(bytes@, at as int, index as nat, (count - index) as nat);
        if bytes.len() - at < 8 {
            return Err(FasrPart::MetadataLength(index));
        }
        let meta_len = read_be_u64(bytes, at);
        if ((bytes.len() - at - 8) as u64) < meta_len {
            return Err(FasrPart::Metadata(index));
        }
        let meta_end = at + 8 + meta_len as usize;
        if bytes.len() - meta_end < 8 {
            return Err(FasrPart::AudioLength(index));
        }
        let audio_len = read_be_u64(bytes, meta_end);
        if ((bytes.len() - meta_end - 8) as u64) < audio_len {
            return Err(FasrPart::Audio(index));
        }
        let audio_end = meta_end + 8 + audio_len as usize;
        let metadata = copy_range(bytes, at + 8, meta_end);
        let audio = copy_range(bytes, meta_end + 8, audio_end);
        let ghost frame = (bytes@.subrange(at + 8, meta_end as int), bytes@.subrange(meta_end + 8, audio_end as int));
        let ghost before = frames@;
        frames.push(FasrFrame { metadata, audio });
        proof {
            assert(frames_view(frames@) =~= frames_view(before).push(frame));
            let next = spec_records(bytes@, audio_end as int, (index + 1) as nat, (count - index - 1) as nat);
            assert(here == match next {
                Ok(rest) => Ok(seq![frame] + rest),
                Err(part) => Err::<Seq<(Seq<u8>, Seq<u8>)>, FasrPart>(part),
            });
            match next {
                Ok(rest) => {
                    assert(frames_view(before) + (seq![frame] + rest) =~= frames_view(frames@) + rest);
                },
                Err(part) => {},
            }
        }
        at = audio_end;
        index = index + 1;
    }
    proof {
        assert(frames_view(frames@) + Seq::<(Seq<u8>, Seq<u8>)>::empty() =~= frames_view(frames@));
    }
    Ok(frames)
}

/// Reads a FASR AudioList container into its records.
pub fn read_fasr_audio_list(bytes: &[u8]) -> (result: Result<Vec<FasrFrame>, FasrError>)
    ensures
        spec_read_fasr(bytes@, match result {
            Ok(v) => Ok(v@),
            Err(e) => Err(e),
        }),
{
    if bytes.len() < 8 {
        return Err(FasrError::Truncated(FasrPart::Magic));
    }
    if !has_fasr_magic(bytes) {
        let magic = copy_range(bytes, 0, 8);
        return Err(FasrError::UnsupportedMagic(magic));
    }
    if bytes.len() < 16 {
        return Err(FasrError::Truncated(FasrPart::HeaderLength));
    }
    let header_len = read_be_u64(bytes, 8);
    if ((bytes.len() - 16) as u64) < header_len {
        return Err(FasrError::Truncated(FasrPart::Header));
    }
    let header_end = 16 + header_len as usize;
    let header = copy_range(bytes, 16, header_end);
    let format = match lookup_str(header.as_slice(), "/format") {
        Ok(format) => format,
        Err(message) => return Err(FasrError::HeaderJson(message)),
    };
    proof {
        reveal_strlit("/format");
        reveal_strlit("fasr-audiolist");
    }
    let is_list = match &format {
        Some(f) => chars_eq_str(crate::chars::chars_of(f.as_str()).as_slice(), "fasr-audiolist"),
        None => false,
    };
    if !is_list {
        return Err(FasrError::NotAudioList);
    }
    let count = match lookup_array_len(header.as_slice(), "/audios") {
        Ok(Some(n)) => n,
        Ok(None) => 0,
        Err(message) => return Err(FasrError::HeaderJson(message)),
    };
    proof {
        reveal_strlit("/audios");
    }
    match read_records(bytes, header_end, count) {
        Ok(frames) => Ok(frames),
        Err(part) => Err(FasrError::Truncated(part)),
    }
}

// ---------------------------------------------------------------------------
// Record metadata

/// What one record's metadata says about its audio.
#[derive(Debug, Clone, PartialEq, Eq)]
pub struct FasrRecord {
    /// The record's `id`, else `audio-{index}`.
    pub id: String,
    /// The reference text (`text.reference`, else a string `text`) when it
    /// is not blank.
    pub transcription: Option<String>,
    /// `audio.sample_rate`, else `sample_rate`, else `source.sample_rate`,
    /// when it fits in a `u32`.
    pub sample_rate: Option<u32>,
    /// `audio.channels`, else `channel_count`, when it fits in a `u16`.
    pub channels: Option<u16>,
    /// The encoding named by `source.format`; `Other("unknown")` without one.
    pub encoding: AudioEncoding,
    /// `source.sha256`.
    pub sha256: Option<String>,
    /// `url`.
    pub url: Option<String>,
    /// `fasr_source`, `fasr_storage`, `fasr_extra` and `fasr_channels`, in
    /// that order, with the JSON text of the non-null values of `source`,
    /// `storage`, `extra` and `channels`.
    pub passthrough: Vec<(String, String)>,
}

/// The encodings with a fixed name, by lowercased format name.
pub open spec fn fixed_fasr_encoding(lower: Seq<char>) -> Option<AudioEncoding> {
    if lower == "wav"@ || lower == "wave"@ {
        Some(AudioEncoding::Wav)
    } else if lower == "flac"@ {
        Some(AudioEncoding::Flac)
    } else if lower == "mp3"@ || lower == "mpeg"@ {
        Some(AudioEncoding::Mp3)
    } else if lower == "ogg"@ || lower == "opus"@ {
        Some(AudioEncoding::Ogg)
    } else if lower == "pcm_s16le"@ || lower == "s16le"@ || lower == "pcm16"@ {
        Some(AudioEncoding::PcmS16Le)
    } else {
        None
    }
}

/// Whether `encoding` is what format name `format` denotes, ignoring ASCII
/// case; an unknown name is kept, lowercased, as `Other`.
pub open spec fn is_fasr_encoding(encoding: AudioEncoding, format: Seq<char>) -> bool {
    match fixed_fasr_encoding(ascii_lowercase(format)) {
        Some(e) => encoding == e,
        None => encoding matches AudioEncoding::Other(s) && s@ == ascii_lowercase(format),
    }
}

/// The encoding a FASR `source.format` names.
pub fn audio_encoding_from_fasr(format: &str) -> (encoding: AudioEncoding)
    ensures
        is_fasr_encoding(encoding, format@),
{
    let lower = to_ascii_lowercase(format);
    let l = lower.as_slice();
    proof {
        reveal_strlit("wav");
        reveal_strlit("wave");
        reveal_strlit("flac");
        reveal_strlit("mp3");
        reveal_strlit("mpeg");
        reveal_strlit("ogg");
        reveal_strlit("opus");
        reveal_strlit("pcm_s16le");
        reveal_strlit("s16le");
        reveal_strlit("pcm16");
    }
    if chars_eq_str(l, "wav") || chars_eq_str(l, "wave") {
        AudioEncoding::Wav
    } else if chars_eq_str(l, "flac") {
        AudioEncoding::Flac
    } else if chars_eq_str(l, "mp3") || chars_eq_str(l, "mpeg") {
        AudioEncoding::Mp3
    } else if chars_eq_str(l, "ogg") || chars_eq_str(l, "opus") {
        AudioEncoding::Ogg
    } else if chars_eq_str(l, "pcm_s16le") || chars_eq_str(l, "s16le") || chars_eq_str(l, "pcm16") {
        AudioEncoding::PcmS16Le
    } else {
        AudioEncoding::Other(string_from_chars(l))
    }
}

/// The first of two options that is `Some`.
pub open spec fn first_some<T>(a: Option<T>, b: Option<T>) -> Option<T> {
    if a is Some {
        a
    } else {
        b
    }
}

/// The record id.
pub open spec fn spec_fasr_id(index: nat, metadata: Seq<u8>) -> Seq<char> {
    match json_str_at(metadata, "/id"@) {
        Some(id) => id,
        None => seq!['a', 'u', 'd', 'i', 'o', '-'] + decimal_digits(index),
    }
}

/// The reference text, empty without one.
pub open spec fn spec_fasr_text(metadata: Seq<u8>) -> Seq<char> {
    match first_some(json_str_at(metadata, "/text/reference"@), json_str_at(metadata, "/text"@)) {
        Some(text) => text,
        None => Seq::empty(),
    }
}

/// The sample rate, when the first one given fits in a `u32`.
pub open spec fn spec_fasr_sample_rate(metadata: Seq<u8>) -> Option<u32> {
    match first_some(
        json_u64_at(metadata, "/audio/sample_rate"@),
        first_some(json_u64_at(metadata, "/sample_rate"@), json_u64_at(metadata, "/source/sample_rate"@)),
    ) {
        Some(n) => if n <= u32::MAX {
            Some(n as u32)
        } else {
            None
        },
        None => None,
    }
}

/// The channel count, when the first one given fits in a `u16`.
pub open spec fn spec_fasr_channels(metadata: Seq<u8>) -> Option<u16> {
    match first_some(json_u64_at(metadata, "/audio/channels"@), json_u64_at(metadata, "/channel_count"@)) {
        Some(n) => if n <= u16::MAX {
            Some(n as u16)
        } else {
            None
        },
        None => None,
    }
}

/// The passthrough entry for the value at `pointer`, under `key`, unless it
/// is absent or null.
pub open spec fn passthrough_entry(metadata: Seq<u8>, pointer: Seq<char>, key: Seq<char>) -> Seq<(Seq<char>, Seq<char>)> {
    match json_value_at(metadata, pointer) {
        Some((null, text)) => if null {
            Seq::empty()
        } else {
            seq![(key, text)]
        },
        None => Seq::empty(),
    }
}

/// All passthrough entries, in order.
pub open spec fn spec_passthrough(metadata: Seq<u8>) -> Seq<(Seq<char>, Seq<char>)> {
    passthrough_entry(metadata, "/source"@, "fasr_source"@) + passthrough_entry(metadata, "/storage"@, "fasr_storage"@)
        + passthrough_entry(metadata, "/extra"@, "fasr_extra"@) + passthrough_entry(metadata, "/channels"@, "fasr_channels"@)
}

/// The character views of string pairs.
pub open spec fn pairs_view(pairs: Seq<(String, String)>) -> Seq<(Seq<char>, Seq<char>)> {
    pairs.map_values(|p: (String, String)| (p.0@, p.1@))
}

/// The character view of an optional string.
pub open spec fn opt_view(s: Option<String>) -> Option<Seq<char>> {
    match s {
        Some(s) => Some(s@),
        None => None,
    }
}

/// Whether `record` is what the metadata of record `index` says.
pub open spec fn is_fasr_record(record: FasrRecord, index: nat, metadata: Seq<u8>) -> bool {
    &&& record.id@ == spec_fasr_id(index, metadata)
    &&& opt_view(record.transcription) == if trim(spec_fasr_text(metadata)).len() > 0 {
        Some(spec_fasr_text(metadata))
    } else {
        None
    }
    &&& record.sample_rate == spec_fasr_sample_rate(metadata)
    &&& record.channels == spec_fasr_channels(metadata)
    &&& match json_str_at(metadata, "/source/format"@) {
        Some(format) => is_fasr_encoding(record.encoding, format),
        None => record.encoding matches AudioEncoding::Other(s) && s@ == "unknown"@,
    }
    &&& opt_view(record.sha256) == json_str_at(metadata, "/source/sha256"@)
    &&& opt_view(record.url) == json_str_at(metadata, "/url"@)
    &&& pairs_view(record.passthrough@) == spec_passthrough(metadata)
}

/// Appends the passthrough entry for `pointer` under `key`.
fn push_passthrough(metadata: &[u8], pointer: &str, key: &str, out: &mut Vec<(String, String)>) -> (ok: Result<(), String>)
    requires
        json_syntax_error(metadata@) is None,
    ensures
        ok is Ok,
        pairs_view(final(out)@) == pairs_view(old(out)@) + passthrough_entry(metadata@, pointer@, key@),
{
    let ghost before = out@;
    match lookup_value(metadata, pointer) {
        Ok(Some((null, text))) => {
            if !null {
                out.push((key.to_string(), text));
                assert(pairs_view(out@) =~= pairs_view(before) + passthrough_entry(metadata@, pointer@, key@));
            } else {
                assert(pairs_view(out@) =~= pairs_view(before) + passthrough_entry(metadata@, pointer@, key@));
            }
            Ok(())
        },
        Ok(None) => {
            assert(pairs_view(out@) =~= pairs_view(before) + passthrough_entry(metadata@, pointer@, key@));
            Ok(())
        },
        Err(message) => Err(message),
    }
}

/// Reads what the metadata JSON of record `index` says about its audio. The
/// error is the JSON parser's message.
pub fn fasr_record(index: usize, metadata: &[u8]) -> (result: Result<FasrRecord, String>)
    ensures
        match json_syntax_error(metadata@) {
            Some(message) => result matches Err(m) && m@ == message,
            None => result matches Ok(record) && is_fasr_record(record, index as nat, metadata@),
        },
{
    let id = match lookup_str(metadata, "/id") {
        Ok(Some(id)) => id,
        Ok(None) => Audio::id_for_index(index),
        Err(message) => return Err(message),
    };
    let text = match lookup_str(metadata, "/text/reference") {
        Ok(Some(text)) => text,
        Ok(None) => match lookup_str(metadata, "/text") {
            Ok(Some(text)) => text,
            Ok(None) => String::new(),
            Err(message) => return Err(message),
        },
        Err(message) => return Err(message),
    };
    let trimmed = trim_chars(crate::chars::chars_of(text.as_str()).as_slice());
    let transcription = if trimmed.len() > 0 {
        Some(text)
    } else {
        None
    };
    let rate = match lookup_u64(metadata, "/audio/sample_rate") {
        Ok(Some(n)) => Some(n),
        Ok(None) => match lookup_u64(metadata, "/sample_rate") {
            Ok(Some(n)) => Some(n),
            Ok(None) => match lookup_u64(metadata, "/source/sample_rate") {
                Ok(n) => n,
                Err(message) => return Err(message),
            },
            Err(message) => return Err(message),
        },
        Err(message) => return Err(message),
    };
    let sample_rate: Option<u32> = match rate {
        Some(n) => if n <= 0xFFFF_FFFF {
            Some(n as u32)
        } else {
            None
        },
        None => None,
    };
    let count = match lookup_u64(metadata, "/audio/channels") {
        Ok(Some(n)) => Some(n),
        Ok(None) => match lookup_u64(metadata, "/channel_count") {
            Ok(n) => n,
            Err(message) => return Err(message),
        },
        Err(message) => return Err(message),
    };
    let channels: Option<u16> = match count {
        Some(n) => if n <= 0xFFFF {
            Some(n as u16)
        } else {
            None
        },
        None => None,
    };
    let encoding = match lookup_str(metadata, "/source/format") {
        Ok(Some(format)) => audio_encoding_from_fasr(format.as_str()),
        Ok(None) => {
            proof {
                reveal_strlit("unknown");
            }
            AudioEncoding::Other(string_from_chars(&['u', 'n', 'k', 'n', 'o', 'w', 'n']))
        },
        Err(message) => return Err(message),
    };
    let sha256 = match lookup_str(metadata, "/source/sha256") {
        Ok(s) => s,
        Err(message) => return Err(message),
    };
    let url = match lookup_str(metadata, "/url") {
        Ok(s) => s,
        Err(message) => return Err(message),
    };
    let mut passthrough: Vec<(String, String)> = Vec::new();
    assert(pairs_view(passthrough@) =~= Seq::<(Seq<char>, Seq<char>)>::empty());
    let _ = push_passthrough(metadata, "/source", "fasr_source", &mut passthrough);
    let _ = push_passthrough(metadata, "/storage", "fasr_storage", &mut passthrough);
    let _ = push_passthrough(metadata, "/extra", "fasr_extra", &mut passthrough);
    let _ = push_passthrough(metadata, "/channels", "fasr_channels", &mut passthrough);
    proof {
        assert(Seq::<(Seq<char>, Seq<char>)>::empty() + passthrough_entry(metadata@, "/source"@, "fasr_source"@)
            =~= passthrough_entry(metadata@, "/source"@, "fasr_source"@));
    }
    let record = FasrRecord { id, transcription, sample_rate, channels, encoding, sha256, url, passthrough };
    assert(opt_view(record.transcription) == if trim(spec_fasr_text(metadata@)).len() > 0 {
        Some(spec_fasr_text(metadata@))
    } else {
        None
    });
    assert(match json_str_at(metadata@, "/source/format"@) {
        Some(format) => is_fasr_encoding(record.encoding, format),
        None => record.encoding matches AudioEncoding::Other(s) && s@ == "unknown"@,
    });
    Ok(record)
}

/// The reference timeline of a record for audio of `duration`: no
/// predictions, and, when the record has reference text, one transcription
/// span `ann_{id}` over the whole audio.
pub fn fasr_timeline(record: &FasrRecord, duration: crate::time::DurationMs) -> (t: crate::timeline::Timeline)
    ensures
        t.audio_id@ == record.id@,
        t.duration == duration,
        t.prediction@.len() == 0,
        record.transcription is None ==> t.reference@.len() == 0,
        record.transcription matches Some(text) ==> (t.reference@.len() == 1 && t.reference@[0].id@ == seq![
            'a',
            'n',
            'n',
            '_',
        ] + record.id@ && t.reference@[0].range == crate::time::TimeRange {
            start: crate::time::DurationMs(0),
            end: duration,
        } && t.reference@[0].source is None && (t.reference@[0].annotation matches crate::timeline::Annotation::Transcription(
            x,
        ) && x@ == text@)),
{
    let mut t = crate::timeline::Timeline::new(record.id.clone(), duration);
    match &record.transcription {
        Some(text) => {
            let mut id: Vec<char> = Vec::new();
            id.push('a');
            id.push('n');
            id.push('n');
            id.push('_');
            let tail = chars_of(record.id.as_str());
            append_chars(&mut id, tail.as_slice());
            let span = crate::timeline::TimeSpan {
                id: string_from_chars(id.as_slice()),
                range: crate::time::TimeRange::new(crate::time::DurationMs(0), duration),
                source: None,
                annotation: crate::timeline::Annotation::Transcription(text.clone()),
            };
            t.reference.push(span);
        },
        None => {},
    }
    t
}

} // verus!
