//! Migrating documents of the earlier MessagePack list format: their media
//! assets become sources, and blank ids and annotation sources get defaults.

use vstd::prelude::*;

use crate::audio::{AudioEncoding, AudioSource};
use crate::chars::{contains_seq, string_from_chars};
use crate::doc::{blank, is_blank};
use crate::ids::{is_prefixed_uuid, random_id};
use crate::time::DurationMs;
use crate::timeline::TimeSpan;
use crate::audio::scheme_separator;

verus! {

/// The stated format of a legacy media asset.
#[derive(Debug, Clone, PartialEq, Eq)]
pub struct LegacyAudioFormat {
    pub sample_rate: Option<u32>,
    pub channels: Option<u16>,
    pub encoding: AudioEncoding,
}

/// A legacy media asset: a URI or embedded bytes, with its format,
/// duration and checksum.
#[derive(Debug, Clone, PartialEq, Eq)]
pub enum LegacyAudioAsset {
    Uri { uri: String, format: LegacyAudioFormat, duration: Option<DurationMs>, sha256: Option<String> },
    Embedded { bytes: Vec<u8>, format: LegacyAudioFormat, duration: Option<DurationMs>, sha256: Option<String> },
}

/// What an asset becomes: a source, and what else it stated.
#[derive(Debug, Clone, PartialEq, Eq)]
pub struct MigratedAsset {
    pub source: AudioSource,
    pub duration: Option<DurationMs>,
    pub sha256: Option<String>,
    pub format: LegacyAudioFormat,
}

/// Whether `source` is the source an asset becomes: a URI a URL or path as
/// [`AudioSource::new`] decides; embedded PCM with a stated rate and channel
/// count stays PCM, other embedded bytes are encoded bytes.
pub open spec fn is_migrated_source(asset: LegacyAudioAsset, source: AudioSource) -> bool {
    match asset {
        LegacyAudioAsset::Uri { uri, .. } => if contains_seq(uri@, scheme_separator()) {
            source == AudioSource::Url(uri)
        } else {
            source == AudioSource::Path(uri)
        },
        LegacyAudioAsset::Embedded { bytes, format, .. } => match (format.encoding, format.sample_rate, format.channels) {
            (AudioEncoding::PcmS16Le, Some(sample_rate), Some(channels)) => source == (AudioSource::PcmS16Le {
                bytes,
                sample_rate,
                channels,
            }),
            _ => source == AudioSource::EncodedBytes(bytes),
        },
    }
}

/// Turns a legacy asset into a source, keeping its duration, checksum and
/// format.
pub fn migrate_legacy_asset(asset: LegacyAudioAsset) -> (migrated: MigratedAsset)
    ensures
        is_migrated_source(asset, migrated.source),
        match asset {
            LegacyAudioAsset::Uri { format, duration, sha256, .. } => migrated.format == format && migrated.duration
                == duration && migrated.sha256 == sha256,
            LegacyAudioAsset::Embedded { format, duration, sha256, .. } => migrated.format == format
                && migrated.duration == duration && migrated.sha256 == sha256,
        },
{
    match asset {
        LegacyAudioAsset::Uri { uri, format, duration, sha256 } => MigratedAsset {
            source: AudioSource::new(uri),
            duration,
            sha256,
            format,
        },
        LegacyAudioAsset::Embedded { bytes, format, duration, sha256 } => {
            let source = match (&format.encoding, format.sample_rate, format.channels) {
                (AudioEncoding::PcmS16Le, Some(sample_rate), Some(channels)) => AudioSource::from_pcm_s16le(
                    bytes,
                    sample_rate,
                    channels,
                ),
                _ => AudioSource::from_encoded_bytes(bytes),
            };
            MigratedAsset { source, duration, sha256, format }
        },
    }
}

/// `"audio"`.
pub open spec fn default_audio_id() -> Seq<char> {
    seq!['a', 'u', 'd', 'i', 'o']
}

/// The audio id of a legacy timeline: its own unless blank, else the
/// timeline id unless blank, else `audio`.
pub open spec fn spec_legacy_audio_id(timeline_id: Seq<char>, audio_id: Seq<char>) -> Seq<char> {
    if !is_blank(audio_id) {
        audio_id
    } else if !is_blank(timeline_id) {
        timeline_id
    } else {
        default_audio_id()
    }
}

/// The audio id of a legacy timeline.
pub fn legacy_audio_id(timeline_id: &str, audio_id: String) -> (id: String)
    ensures
        id@ == spec_legacy_audio_id(timeline_id@, audio_id@),
{
    if !blank(audio_id.as_str()) {
        audio_id
    } else if !blank(timeline_id) {
        timeline_id.to_string()
    } else {
        string_from_chars(&['a', 'u', 'd', 'i', 'o'])
    }
}

/// The id of a legacy timeline: its own unless blank, else a fresh `tl_`
/// id.
pub fn legacy_timeline_id(id: String) -> (out: String)
    ensures
        !is_blank(id@) ==> out@ == id@,
        is_blank(id@) ==> is_prefixed_uuid(out@, "tl_"@),
{
    if blank(id.as_str()) {
        random_id("tl_")
    } else {
        id
    }
}

/// The id of a nested legacy document: its own unless blank, else the audio
/// id of its first timeline, else `audio`.
pub open spec fn spec_nested_document_id(id: Seq<char>, first_timeline_audio_id: Option<Seq<char>>) -> Seq<char> {
    if !is_blank(id) {
        id
    } else {
        match first_timeline_audio_id {
            Some(a) => a,
            None => default_audio_id(),
        }
    }
}

/// The id of a nested legacy document.
pub fn nested_document_id(id: String, first_timeline_audio_id: Option<String>) -> (out: String)
    ensures
        out@ == spec_nested_document_id(
            id@,
            match first_timeline_audio_id {
                Some(a) => Some(a@),
                None => None,
            },
        ),
{
    if !blank(id.as_str()) {
        id
    } else {
        match first_timeline_audio_id {
            Some(a) => a,
            None => string_from_chars(&['a', 'u', 'd', 'i', 'o']),
        }
    }
}

/// `"import"`.
pub open spec fn import_source() -> Seq<char> {
    seq!['i', 'm', 'p', 'o', 'r', 't']
}

/// Whether `out` is `span` with a missing or blank source set to `import`.
pub open spec fn is_imported_span(span: TimeSpan, out: TimeSpan) -> bool {
    &&& out.id == span.id
    &&& out.range == span.range
    &&& out.annotation == span.annotation
    &&& match span.source {
        Some(s) => if is_blank(s@) {
            out.source matches Some(o) && o@ == import_source()
        } else {
            out.source == span.source
        },
        None => out.source matches Some(o) && o@ == import_source(),
    }
}

/// Gives every imported annotation without a usable source the source
/// `import`.
pub fn imported_spans(spans: Vec<TimeSpan>) -> (out: Vec<TimeSpan>)
    ensures
        out@.len() == spans@.len(),
        forall|i: int| 0 <= i < spans@.len() ==> is_imported_span(spans@[i], #[trigger] out@[i]),
{
    let mut out: Vec<TimeSpan> = Vec::new();
    let mut rest = spans;
    let ghost spans_in = rest@;
    while rest.len() > 0
        invariant
            rest@ == spans_in.skip(out@.len() as int),
            out@.len() <= spans_in.len(),
            forall|i: int| 0 <= i < out@.len() ==> is_imported_span(spans_in[i], #[trigger] out@[i]),
        decreases rest@.len(),
    {
        let span = rest.remove(0);
        assert(span == spans_in[out@.len() as int]);
        assert(rest@ =~= spans_in.skip(out@.len() as int + 1));
        let source = match span.source {
            Some(s) => if blank(s.as_str()) {
                Some(string_from_chars(&['i', 'm', 'p', 'o', 'r', 't']))
            } else {
                Some(s)
            },
            None => Some(string_from_chars(&['i', 'm', 'p', 'o', 'r', 't'])),
        };
        out.push(TimeSpan { id: span.id, range: span.range, source, annotation: span.annotation });
    }
    out
}

} // verus!
