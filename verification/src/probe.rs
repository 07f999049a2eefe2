//! Probing encoded audio: the container parser reads the default audio
//! track's parameters, and this module turns them into an [`AudioInfo`].

use vstd::prelude::*;


use crate::audio::{
    detect_encoding, encoding_of_container, frames_from_ticks, spec_frames_from_ticks, spec_sniff_container,
    AudioEncoding, AudioFormat, AudioInfo, AudioSource, ProbeError,
};
use crate::chars::{chars_of, chars_start_with, starts_with, string_from_chars};
use crate::text::{split_once, split_once_chars};

verus! {

/// What the container parser reports about a track.
#[derive(Debug, Clone, Copy, PartialEq, Eq)]
pub struct TrackParameters {
    /// The track id that its packets carry.
    pub id: u32,
    /// Sample rate and channel count, when the track has audio codec
    /// parameters.
    pub audio: Option<(Option<u32>, Option<usize>)>,
    /// The number of playable frames, when the container states it.
    pub num_frames: Option<u64>,
    /// The duration in time-base ticks, when the container states it.
    pub duration: Option<u64>,
    /// The time base as numerator and denominator, both non-zero.
    pub time_base: Option<(u32, u32)>,
}

/// The message symphonia's default probe reports for `bytes`, or `None`
/// when it recognises a container.
pub uninterp spec fn container_probe_error(bytes: Seq<u8>) -> Option<Seq<char>>;

/// Id, frame count, duration in ticks and time base of the default audio
/// track symphonia finds in `bytes`, if there is one.
pub uninterp spec fn container_track_timing(bytes: Seq<u8>) -> Option<(u32, Option<u64>, Option<u64>, Option<(u32, u32)>)>;

/// Sample rate and channel count of the audio codec parameters of the
/// default audio track symphonia finds in `bytes`: `None` without such a
/// track, `Some(None)` when the track has no audio parameters.
pub uninterp spec fn container_track_audio(bytes: Seq<u8>) -> Option<Option<(Option<u32>, Option<usize>)>>;

/// The packets symphonia's format reader yields for `bytes`, in order, as
/// track id and duration in ticks; or the text of the first error.
pub uninterp spec fn container_packets(bytes: Seq<u8>) -> Result<Seq<(u32, u64)>, Seq<char>>;

/// Trusted: probes `bytes` with `symphonia::default::get_probe()` (no hint,
/// default options), takes `default_track(TrackType::Audio)` and copies its
/// `id`, `num_frames`, `duration` and `time_base`. `TimeBase` holds `NonZero`
/// fields.
#[verifier::external_body]
fn probe_track_timing(bytes: &[u8]) -> (timing: Result<Option<(u32, Option<u64>, Option<u64>, Option<(u32, u32)>)>, String>)
    ensures
        match timing {
            Ok(t) => container_probe_error(bytes@) is None && t == container_track_timing(bytes@),
            Err(e) => container_probe_error(bytes@) == Some(e@),
        },
        timing matches Ok(Some((_, _, _, Some((n, d))))) ==> n > 0 && d > 0,
{
    let source = symphonia::core::io::MediaSourceStream::new(Box::new(std::io::Cursor::new(bytes.to_vec())), Default::default());
    let hint = symphonia::core::formats::probe::Hint::new();
    let format = symphonia::default::get_probe().probe(&hint, source, Default::default(), Default::default());
    let format = format.map_err(|error| error.to_string())?;
    let track = format.default_track(symphonia::core::formats::TrackType::Audio);
    Ok(track.map(|t| (t.id, t.num_frames, t.duration.map(|d| d.get()), t.time_base.map(|b| (b.numer.get(), b.denom.get())))))
}

/// Trusted: probes `bytes` as [`probe_track_timing`] does and copies the
/// default audio track's `AudioCodecParameters::sample_rate` and
/// `Channels::count`.
#[verifier::external_body]
fn probe_track_audio(bytes: &[u8]) -> (audio: Result<Option<Option<(Option<u32>, Option<usize>)>>, String>)
    ensures
        match audio {
            Ok(a) => container_probe_error(bytes@) is None && a == container_track_audio(bytes@),
            Err(e) => container_probe_error(bytes@) == Some(e@),
        },
{
    let source = symphonia::core::io::MediaSourceStream::new(Box::new(std::io::Cursor::new(bytes.to_vec())), Default::default());
    let hint = symphonia::core::formats::probe::Hint::new();
    let format = symphonia::default::get_probe().probe(&hint, source, Default::default(), Default::default());
    let format = format.map_err(|error| error.to_string())?;
    let track = format.default_track(symphonia::core::formats::TrackType::Audio);
    Ok(track.map(|t| t.codec_params.as_ref().and_then(|p| p.audio()).map(|p| (p.sample_rate, p.channels.as_ref().map(|c| c.count())))))
}

/// Trusted: probes `bytes` as [`probe_track_timing`] does and collects
/// `(track_id, dur)` of every packet `FormatReader::next_packet` yields
/// until it reports the end, or the text of the first error.
#[verifier::external_body]
fn scan_packets(bytes: &[u8]) -> (packets: Result<Vec<(u32, u64)>, String>)
    ensures
        match packets {
            Ok(p) => container_packets(bytes@) == Ok::<Seq<(u32, u64)>, Seq<char>>(p@),
            Err(e) => container_packets(bytes@) == Err::<Seq<(u32, u64)>, Seq<char>>(e@),
        },
{
    let source = symphonia::core::io::MediaSourceStream::new(Box::new(std::io::Cursor::new(bytes.to_vec())), Default::default());
    let hint = symphonia::core::formats::probe::Hint::new();
    let probed = symphonia::default::get_probe().probe(&hint, source, Default::default(), Default::default());
    let mut format = probed.map_err(|error| error.to_string())?;
    let mut packets = Vec::new();
    while let Some(packet) = format.next_packet().map_err(|error| error.to_string())? {
        packets.push((packet.track_id, packet.dur.get()));
    }
    Ok(packets)
}

/// The default audio track of `bytes` as the container parser reports it:
/// the probe's error, or the track (none without an audio track).
pub open spec fn container_audio_track(bytes: Seq<u8>) -> Result<Option<TrackParameters>, Seq<char>> {
    match container_probe_error(bytes) {
        Some(message) => Err(message),
        None => Ok(
            match (container_track_timing(bytes), container_track_audio(bytes)) {
                (Some((id, num_frames, duration, time_base)), Some(audio)) => Some(
                    TrackParameters { id, audio, num_frames, duration, time_base },
                ),
                _ => None,
            },
        ),
    }
}

/// Reads the default audio track of `bytes`.
fn probe_audio_track(bytes: &[u8]) -> (track: Result<Option<TrackParameters>, String>)
    ensures
        match track {
            Ok(t) => container_audio_track(bytes@) == Ok::<Option<TrackParameters>, Seq<char>>(t),
            Err(e) => container_audio_track(bytes@) == Err::<Option<TrackParameters>, Seq<char>>(e@),
        },
        track matches Ok(Some(t)) ==> (t.time_base matches Some((n, d)) ==> n > 0 && d > 0),
{
    let timing = match probe_track_timing(bytes) {
        Ok(timing) => timing,
        Err(message) => return Err(message),
    };
    let audio = match probe_track_audio(bytes) {
        Ok(audio) => audio,
        Err(message) => return Err(message),
    };
    match (timing, audio) {
        (Some((id, num_frames, duration, time_base)), Some(audio)) => Ok(
            Some(TrackParameters { id, audio, num_frames, duration, time_base }),
        ),
        _ => Ok(None),
    }
}

/// The sample rate and channel count of a probed track: the default audio
/// track must exist, have audio parameters and a known sample rate; an
/// unknown channel count counts as one, and the count is truncated to `u16`.
pub open spec fn spec_track_layout(track: Option<TrackParameters>) -> Result<(u32, u16), ProbeError> {
    match track {
        None => Err(ProbeError::NoAudioTrack),
        Some(t) => match t.audio {
            None => Err(ProbeError::NoAudioParameters),
            Some((None, _)) => Err(ProbeError::UnknownSampleRate),
            Some((Some(rate), channels)) => Ok(
                (
                    rate,
                    match channels {
                        Some(n) => n as u16,
                        None => 1u16,
                    },
                ),
            ),
        },
    }
}

/// The sample rate and channel count of a probed track.
pub fn track_layout(track: Option<TrackParameters>) -> (layout: Result<(u32, u16), ProbeError>)
    ensures
        layout == spec_track_layout(track),
{
    match track {
        None => Err(ProbeError::NoAudioTrack),
        Some(t) => match t.audio {
            None => Err(ProbeError::NoAudioParameters),
            Some((None, _)) => Err(ProbeError::UnknownSampleRate),
            Some((Some(rate), channels)) => {
                let count: u16 = match channels {
                    Some(n) => n as u16,
                    None => 1,
                };
                Ok((rate, count))
            },
        },
    }
}

/// The frame count the container states: `num_frames`, else the duration
/// converted through the time base.
pub open spec fn spec_declared_frames(track: TrackParameters, sample_rate: u32) -> Option<u64> {
    match track.num_frames {
        Some(n) => Some(n),
        None => match (track.duration, track.time_base) {
            (Some(ticks), Some((n, d))) => Some(spec_frames_from_ticks(ticks as nat, n as nat, d as nat, sample_rate as nat) as u64),
            _ => None,
        },
    }
}

/// The frame count the container states.
pub fn declared_frames(track: &TrackParameters, sample_rate: u32) -> (frames: Option<u64>)
    requires
        track.time_base matches Some((n, d)) ==> d > 0,
    ensures
        frames == spec_declared_frames(*track, sample_rate),
{
    match track.num_frames {
        Some(n) => Some(n),
        None => match (track.duration, track.time_base) {
            (Some(ticks), Some((n, d))) => Some(frames_from_ticks(ticks, n, d, sample_rate)),
            _ => None,
        },
    }
}

/// The durations of the packets of track `id`, summed with saturation at
/// `u64::MAX`.
pub open spec fn spec_track_ticks(packets: Seq<(u32, u64)>, id: u32) -> nat
    decreases packets.len(),
{
    if packets.len() == 0 {
        0
    } else {
        let before = spec_track_ticks(packets.drop_last(), id);
        let step: nat = if packets.last().0 == id { packets.last().1 as nat } else { 0 };
        if before + step > u64::MAX { u64::MAX as nat } else { before + step }
    }
}

/// The summed packet durations of track `id`.
pub fn track_ticks(packets: &[(u32, u64)], id: u32) -> (ticks: u64)
    ensures
        ticks == spec_track_ticks(packets@, id),
{
    let mut ticks: u64 = 0;
    let mut i: usize = 0;
    while i < packets.len()
        invariant
            i <= packets@.len(),
            ticks == spec_track_ticks(packets@.take(i as int), id),
        decreases packets@.len() - i,
    {
        assert(packets@.take(i + 1).drop_last() =~= packets@.take(i as int));
        let (track, dur) = packets[i];
        if track == id {
            ticks = ticks.saturating_add(dur);
        }
        i = i + 1;
    }
    assert(packets@.take(packets@.len() as int) =~= packets@);
    ticks
}

/// What probing `bytes` gives, reported with
/// `encoding`.
pub open spec fn spec_probe_encoded(
    bytes: Seq<u8>,
    encoding: AudioEncoding,
    result: Result<AudioInfo, ProbeError>,
) -> bool {
    match container_audio_track(bytes) {
        Err(message) => result matches Err(ProbeError::Container(m)) && m@ == message,
        Ok(track) => match spec_track_layout(track) {
            Err(e) => result == Err::<AudioInfo, ProbeError>(e),
            Ok((rate, channels)) => {
                let t = track->Some_0;
                let info_with = |frames: u64|
                    AudioInfo {
                        sample_rate: rate,
                        channels,
                        frame_count: frames,
                        source_format: AudioFormat { encoding, sample_rate: rate, channels },
                    };
                match spec_declared_frames(t, rate) {
                    Some(frames) => result == Ok::<AudioInfo, ProbeError>(info_with(frames)),
                    None => match t.time_base {
                        None => result == Err::<AudioInfo, ProbeError>(ProbeError::DurationUnavailable),
                        Some((n, d)) => match container_packets(bytes) {
                            Err(message) => result matches Err(ProbeError::PacketScan(m)) && m@ == message,
                            Ok(packets) => result == Ok::<AudioInfo, ProbeError>(
                                info_with(
                                    spec_frames_from_ticks(spec_track_ticks(packets, t.id), n as nat, d as nat, rate as nat) as u64,
                                ),
                            ),
                        },
                    },
                }
            },
        },
    }
}

/// Probes encoded `bytes` and reports `encoding` as their source encoding. Without a stated frame
/// count the packets are scanned and their durations summed.
pub fn probe_encoded(bytes: &[u8], encoding: AudioEncoding) -> (result: Result<AudioInfo, ProbeError>)
    ensures
        spec_probe_encoded(bytes@, encoding, result),
{
    let track = match probe_audio_track(bytes) {
        Ok(track) => track,
        Err(message) => return Err(ProbeError::Container(message)),
    };
    let (rate, channels) = match track_layout(track) {
        Ok(layout) => layout,
        Err(e) => return Err(e),
    };
    let t = match track {
        Some(t) => t,
        None => return Err(ProbeError::NoAudioTrack),
    };
    let frames = match declared_frames(&t, rate) {
        Some(frames) => frames,
        None => match t.time_base {
            None => return Err(ProbeError::DurationUnavailable),
            Some((n, d)) => {
                let packets = match scan_packets(bytes) {
                    Ok(packets) => packets,
                    Err(message) => return Err(ProbeError::PacketScan(message)),
                };
                let ticks = track_ticks(packets.as_slice(), t.id);
                frames_from_ticks(ticks, n, d, rate)
            },
        },
    };
    Ok(
        AudioInfo {
            sample_rate: rate,
            channels,
            frame_count: frames,
            source_format: AudioFormat { encoding, sample_rate: rate, channels },
        },
    )
}

/// Probes encoded bytes whose encoding is told by their magic number.
pub fn probe_bytes(bytes: Vec<u8>) -> (result: Result<AudioInfo, ProbeError>)
    ensures
        spec_probe_encoded(bytes@, encoding_of_container(spec_sniff_container(bytes@)), result),
{
    let encoding = detect_encoding(bytes.as_slice());
    probe_encoded(bytes.as_slice(), encoding)
}

/// What the standard base64 engine of the `base64` crate decodes `text`
/// to, or the text of its error.
pub uninterp spec fn base64_standard_decode(text: Seq<char>) -> Result<Seq<u8>, Seq<char>>;

/// Trusted: `base64::engine::general_purpose::STANDARD.decode(text)`, with
/// the error's display text.
#[verifier::external_body]
fn decode_base64(text: &str) -> (bytes: Result<Vec<u8>, String>)
    ensures
        match bytes {
            Ok(b) => base64_standard_decode(text@) == Ok::<Seq<u8>, Seq<char>>(b@),
            Err(e) => base64_standard_decode(text@) == Err::<Seq<u8>, Seq<char>>(e@),
        },
{
    base64::Engine::decode(&base64::engine::general_purpose::STANDARD, text).map_err(|error| error.to_string())
}

/// The base64 text of a source: after the first `,` of a `data:` URL, else
/// all of it.
pub open spec fn base64_payload(data: Seq<char>) -> Seq<char> {
    if starts_with(data, "data:"@) {
        match split_once(data.skip(5), ',') {
            Some((_, payload)) => payload,
            None => data,
        }
    } else {
        data
    }
}

/// The base64 text of a source.
pub fn base64_payload_of(data: &str) -> (payload: String)
    ensures
        payload@ == base64_payload(data@),
{
    let chars = chars_of(data);
    proof {
        reveal_strlit("data:");
    }
    if chars_start_with(chars.as_slice(), &['d', 'a', 't', 'a', ':']) {
        proof {
            assert(seq!['d', 'a', 't', 'a', ':'] =~= "data:"@);
        }
        let rest = crate::chars::copy_range(chars.as_slice(), 5, chars.len());
        assert(rest@ =~= data@.skip(5));
        match split_once_chars(rest.as_slice(), ',') {
            Some((_, payload)) => string_from_chars(payload.as_slice()),
            None => string_from_chars(chars.as_slice()),
        }
    } else {
        proof {
            assert(seq!['d', 'a', 't', 'a', ':'] =~= "data:"@);
        }
        string_from_chars(chars.as_slice())
    }
}

/// What probing in-memory encoded bytes gives.
pub open spec fn spec_probe_bytes(bytes: Seq<u8>, result: Result<AudioInfo, ProbeError>) -> bool {
    spec_probe_encoded(bytes, encoding_of_container(spec_sniff_container(bytes)), result)
}

impl AudioSource {
    /// Probes sample rate, channels and frame count of an in-memory source:
    /// PCM from its declared layout, encoded and base64 sources through the
    /// container parser. Paths and URLs are read by the caller.
    pub fn probe(&self) -> (info: Result<AudioInfo, ProbeError>)
        ensures
            match self {
                AudioSource::PcmS16Le { bytes, sample_rate, channels } => {
                    if *sample_rate == 0 {
                        info == Err::<AudioInfo, ProbeError>(ProbeError::ZeroSampleRate)
                    } else if *channels == 0 {
                        info == Err::<AudioInfo, ProbeError>(ProbeError::ZeroChannels)
                    } else if bytes@.len() % (2 * *channels as nat) != 0 {
                        info == Err::<AudioInfo, ProbeError>(
                            ProbeError::IncompleteFrames { byte_len: bytes@.len() as usize, channels: *channels },
                        )
                    } else {
                        info == Ok::<AudioInfo, ProbeError>(
                            AudioInfo {
                                sample_rate: *sample_rate,
                                channels: *channels,
                                frame_count: (bytes@.len() / 2 / (*channels as nat)) as u64,
                                source_format: AudioFormat {
                                    encoding: AudioEncoding::PcmS16Le,
                                    sample_rate: *sample_rate,
                                    channels: *channels,
                                },
                            },
                        )
                    }
                },
                AudioSource::EncodedBytes(bytes) => spec_probe_bytes(bytes@, info),
                AudioSource::Base64(data) => match base64_standard_decode(base64_payload(data@)) {
                    Err(message) => info matches Err(ProbeError::Base64(m)) && m@ == message,
                    Ok(bytes) => spec_probe_bytes(bytes, info),
                },
                _ => info == Err::<AudioInfo, ProbeError>(ProbeError::NotInMemory),
            },
    {
        match self {
            AudioSource::PcmS16Le { bytes, sample_rate, channels } => {
                if *sample_rate == 0 {
                    return Err(ProbeError::ZeroSampleRate);
                }
                if *channels == 0 {
                    return Err(ProbeError::ZeroChannels);
                }
                let frame_bytes: usize = 2 * (*channels as usize);
                if bytes.len() % frame_bytes != 0 {
                    return Err(ProbeError::IncompleteFrames { byte_len: bytes.len(), channels: *channels });
                }
                let frame_count = bytes.len() / 2 / (*channels as usize);
                Ok(
                    AudioInfo {
                        sample_rate: *sample_rate,
                        channels: *channels,
                        frame_count: frame_count as u64,
                        source_format: AudioFormat {
                            encoding: AudioEncoding::PcmS16Le,
                            sample_rate: *sample_rate,
                            channels: *channels,
                        },
                    },
                )
            },
            AudioSource::EncodedBytes(bytes) => {
                let encoding = detect_encoding(bytes.as_slice());
                probe_encoded(bytes.as_slice(), encoding)
            },
            AudioSource::Base64(data) => {
                let payload = base64_payload_of(data.as_str());
                let bytes = match decode_base64(payload.as_str()) {
                    Ok(bytes) => bytes,
                    Err(message) => return Err(ProbeError::Base64(message)),
                };
                let encoding = detect_encoding(bytes.as_slice());
                probe_encoded(bytes.as_slice(), encoding)
            },
            _ => Err(ProbeError::NotInMemory),
        }
    }
}

} // verus!
