//! An audio document: its source, what probing found, one timeline per
//! channel and JSON metadata, with the rules a stored document obeys.

use vstd::prelude::*;

use crate::audio::{AudioChannel, AudioInfo, AudioSource};
use crate::ordered::text_lt;
use crate::chars::{append_chars, append_str, chars_of, decimal_chars, decimal_digits, spec_is_ascii_alphanumeric, string_from_chars};
use crate::time::DurationMs;
use crate::timeline::{TimeSpan, Timeline};
use crate::unicode::{is_whitespace, spec_is_whitespace};

verus! {

/// A channel written `Channel(0)` or `Channel(1)` instead of `Left` or
/// `Right`.
#[derive(Debug, Clone, Copy, PartialEq, Eq, Structural)]
pub struct AudioChannelError {
    pub index: u16,
}

/// Why a timeline could not be created.
#[derive(Debug, Clone, Copy, PartialEq, Eq, Structural)]
pub enum AudioTimelineError {
    InvalidChannel(AudioChannelError),
    MissingDuration,
    DurationMismatch { expected: DurationMs, found: DurationMs },
}

/// Why a document is invalid.
#[derive(Debug, Clone, PartialEq, Eq)]
pub enum AudioValidationError {
    EmptyAudioId,
    InvalidAudioInfoSampleRate,
    InvalidAudioInfoChannels,
    NonCanonicalChannel { channel: AudioChannel },
    TimelineAudioIdMismatch { channel: AudioChannel, expected: String, found: String },
    TimelineDurationMismatch { channel: AudioChannel, expected: DurationMs, found: DurationMs },
    AnnotationOutOfBounds { channel: AudioChannel, annotation_id: String, end: DurationMs, duration: DurationMs },
    ReferenceAnnotationHasSource { channel: AudioChannel, annotation_id: String },
    PredictionAnnotationMissingSource { channel: AudioChannel, annotation_id: String },
}

/// Rejects `Channel(0)` and `Channel(1)`, which must be written `Left` and
/// `Right`.
pub fn validate_channel(channel: AudioChannel) -> (result: Result<(), AudioChannelError>)
    ensures
        match channel {
            AudioChannel::Channel(index) => if index <= 1 {
                result == Err::<(), AudioChannelError>(AudioChannelError { index })
            } else {
                result is Ok
            },
            _ => result is Ok,
        },
{
    match channel {
        AudioChannel::Channel(index) => if index <= 1 {
            Err(AudioChannelError { index })
        } else {
            Ok(())
        },
        _ => Ok(()),
    }
}

/// The character kept in a sanitized id: ASCII letters, digits and `-_.`
/// stay, anything else becomes `_`.
pub open spec fn sanitized_char(c: char) -> char {
    if spec_is_ascii_alphanumeric(c) || c == '-' || c == '_' || c == '.' { c } else { '_' }
}

/// An id reduced to a portable file stem.
pub open spec fn sanitized(value: Seq<char>) -> Seq<char> {
    value.map_values(|c: char| sanitized_char(c))
}

/// Reduces an id to a portable file stem, character by character.
pub fn sanitize_audio_id(value: &str) -> (out: String)
    ensures
        out@ == sanitized(value@),
{
    let chars = chars_of(value);
    let mut out: Vec<char> = Vec::new();
    let mut i: usize = 0;
    while i < chars.len()
        invariant
            i <= chars@.len(),
            chars@ == value@,
            out@ == sanitized(chars@.take(i as int)),
        decreases chars@.len() - i,
    {
        let c = chars[i];
        let keep = (c >= 'a' && c <= 'z') || (c >= 'A' && c <= 'Z') || (c >= '0' && c <= '9') || c == '-' || c == '_'
            || c == '.';
        out.push(if keep { c } else { '_' });
        assert(sanitized(chars@.take(i + 1)) =~= sanitized(chars@.take(i as int)).push(sanitized_char(c)));
        i = i + 1;
    }
    assert(chars@.take(chars@.len() as int) =~= chars@);
    string_from_chars(out.as_slice())
}

/// Whether every character is whitespace (the text trims to nothing).
pub open spec fn is_blank(s: Seq<char>) -> bool {
    forall|i: int| 0 <= i < s.len() ==> spec_is_whitespace(#[trigger] s[i])
}

/// Whether the text trims to nothing.
pub fn blank(s: &str) -> (b: bool)
    ensures
        b == is_blank(s@),
{
    let chars = chars_of(s);
    let mut i: usize = 0;
    while i < chars.len()
        invariant
            i <= chars@.len(),
            chars@ == s@,
            forall|k: int| 0 <= k < i ==> spec_is_whitespace(#[trigger] chars@[k]),
        decreases chars@.len() - i,
    {
        if !is_whitespace(chars[i]) {
            return false;
        }
        i = i + 1;
    }
    true
}

/// The order of channels in a document: `Mono`, `Left`, `Right`, then
/// numbered channels by index.
pub open spec fn channel_rank(channel: AudioChannel) -> int {
    match channel {
        AudioChannel::Mono => 0,
        AudioChannel::Left => 1,
        AudioChannel::Right => 2,
        AudioChannel::Channel(index) => 3 + index,
    }
}

fn rank(channel: AudioChannel) -> (r: u32)
    ensures
        r == channel_rank(channel),
{
    match channel {
        AudioChannel::Mono => 0,
        AudioChannel::Left => 1,
        AudioChannel::Right => 2,
        AudioChannel::Channel(index) => 3 + index as u32,
    }
}

/// The channels of `timelines`, in order.
pub open spec fn channels_of(timelines: Seq<(AudioChannel, Timeline)>) -> Seq<AudioChannel> {
    timelines.map_values(|e: (AudioChannel, Timeline)| e.0)
}

/// Channels listed once each, in channel order.
pub open spec fn channels_sorted(timelines: Seq<(AudioChannel, Timeline)>) -> bool {
    forall|i: int, j: int|
        0 <= i < j < timelines.len() ==> channel_rank((#[trigger] timelines[i]).0) < channel_rank(
            (#[trigger] timelines[j]).0,
        )
}

/// A random document id: `audio_` and 32 lowercase hexadecimal digits.
pub open spec fn is_random_audio_id(id: Seq<char>) -> bool {
    &&& id.len() == 38
    &&& id.take(6) == seq!['a', 'u', 'd', 'i', 'o', '_']
    &&& forall|i: int| 6 <= i < 38 ==> ('0' <= #[trigger] id[i] <= '9' || 'a' <= id[i] <= 'f')
}

/// A fresh random document id.
fn random_audio_id() -> (id: String)
    ensures
        is_random_audio_id(id@),
{
    let id = crate::ids::random_id("audio_");
    proof {
        reveal_strlit("audio_");
        assert(id@.take(6) =~= seq!['a', 'u', 'd', 'i', 'o', '_']);
        assert forall|i: int| 6 <= i < 38 implies ('0' <= #[trigger] id@[i] <= '9' || 'a' <= id@[i] <= 'f') by {
            assert(id@[i] == id@.skip(6)[i - 6]);
        }
    }
    id
}

/// An audio document.
#[derive(Debug, Clone)]
pub struct Audio {
    pub id: String,
    pub source: AudioSource,
    pub info: AudioInfo,
    /// One timeline per channel, in channel order.
    pub timelines: Vec<(AudioChannel, Timeline)>,
    /// Metadata values as JSON text, by key.
    pub metadata: Vec<(String, String)>,
}

/// The first span, in order, that carries a source; its id.
pub open spec fn first_sourced(spans: Seq<TimeSpan>) -> Option<Seq<char>>
    decreases spans.len(),
{
    if spans.len() == 0 {
        None
    } else if spans[0].source is Some {
        Some(spans[0].id@)
    } else {
        first_sourced(spans.drop_first())
    }
}

/// Whether a prediction lacks a usable source: none, or only whitespace.
pub open spec fn lacks_source(span: TimeSpan) -> bool {
    match span.source {
        Some(s) => is_blank(s@),
        None => true,
    }
}

/// The first span, in order, that lacks a usable source; its id.
pub open spec fn first_unsourced(spans: Seq<TimeSpan>) -> Option<Seq<char>>
    decreases spans.len(),
{
    if spans.len() == 0 {
        None
    } else if lacks_source(spans[0]) {
        Some(spans[0].id@)
    } else {
        first_unsourced(spans.drop_first())
    }
}

/// The first span, in order, that ends after `duration`; its id and end.
pub open spec fn first_past(spans: Seq<TimeSpan>, duration: DurationMs) -> Option<(Seq<char>, DurationMs)>
    decreases spans.len(),
{
    if spans.len() == 0 {
        None
    } else if spans[0].range.end.0 > duration.0 {
        Some((spans[0].id@, spans[0].range.end))
    } else {
        first_past(spans.drop_first(), duration)
    }
}

/// What is wrong with one timeline of a document whose id is `id` and
/// whose timelines must last `expected`, checked in this order: the
/// channel's form, the timeline's audio id, its duration, references with
/// a source, predictions without one, spans (references, then
/// predictions) past the end.
pub open spec fn timeline_problem(
    id: Seq<char>,
    expected: DurationMs,
    channel: AudioChannel,
    t: Timeline,
) -> Option<AudioValidationError> {
    if !channel.spec_is_canonical() {
        Some(AudioValidationError::NonCanonicalChannel { channel })
    } else if t.audio_id@ != id {
        Some(
            AudioValidationError::TimelineAudioIdMismatch {
                channel,
                expected: arbitrary_string(id),
                found: t.audio_id,
            },
        )
    } else if t.duration != expected {
        Some(AudioValidationError::TimelineDurationMismatch { channel, expected, found: t.duration })
    } else if first_sourced(t.reference@) is Some {
        Some(
            AudioValidationError::ReferenceAnnotationHasSource {
                channel,
                annotation_id: arbitrary_string(first_sourced(t.reference@)->0),
            },
        )
    } else if first_unsourced(t.prediction@) is Some {
        Some(
            AudioValidationError::PredictionAnnotationMissingSource {
                channel,
                annotation_id: arbitrary_string(first_unsourced(t.prediction@)->0),
            },
        )
    } else if first_past(t.reference@ + t.prediction@, t.duration) is Some {
        let (annotation_id, end) = first_past(t.reference@ + t.prediction@, t.duration)->0;
        Some(
            AudioValidationError::AnnotationOutOfBounds {
                channel,
                annotation_id: arbitrary_string(annotation_id),
                end,
                duration: t.duration,
            },
        )
    } else {
        None
    }
}

/// Some string holding `s`.
pub open spec fn arbitrary_string(s: Seq<char>) -> String {
    choose|x: String| x@ == s
}

/// Whether `e` is `expected` up to the strings it holds, which are compared
/// by their characters.
pub open spec fn same_error(e: AudioValidationError, expected: AudioValidationError) -> bool {
    match (e, expected) {
        (
            AudioValidationError::TimelineAudioIdMismatch { channel: c1, expected: x1, found: f1 },
            AudioValidationError::TimelineAudioIdMismatch { channel: c2, expected: x2, found: f2 },
        ) => c1 == c2 && x1@ == x2@ && f1@ == f2@,
        (
            AudioValidationError::AnnotationOutOfBounds { channel: c1, annotation_id: a1, end: e1, duration: d1 },
            AudioValidationError::AnnotationOutOfBounds { channel: c2, annotation_id: a2, end: e2, duration: d2 },
        ) => c1 == c2 && a1@ == a2@ && e1 == e2 && d1 == d2,
        (
            AudioValidationError::ReferenceAnnotationHasSource { channel: c1, annotation_id: a1 },
            AudioValidationError::ReferenceAnnotationHasSource { channel: c2, annotation_id: a2 },
        ) => c1 == c2 && a1@ == a2@,
        (
            AudioValidationError::PredictionAnnotationMissingSource { channel: c1, annotation_id: a1 },
            AudioValidationError::PredictionAnnotationMissingSource { channel: c2, annotation_id: a2 },
        ) => c1 == c2 && a1@ == a2@,
        _ => e == expected,
    }
}

/// The first problem among the timelines, in channel order.
pub open spec fn first_problem(
    id: Seq<char>,
    expected: DurationMs,
    timelines: Seq<(AudioChannel, Timeline)>,
) -> Option<AudioValidationError>
    decreases timelines.len(),
{
    if timelines.len() == 0 {
        None
    } else {
        match timeline_problem(id, expected, timelines[0].0, timelines[0].1) {
            Some(e) => Some(e),
            None => first_problem(id, expected, timelines.drop_first()),
        }
    }
}

/// Timelines on canonical channels that carry the document's id and
/// duration and no annotations have no problem.
pub proof fn lemma_empty_timelines_have_no_problem(
    id: Seq<char>,
    expected: DurationMs,
    timelines: Seq<(AudioChannel, Timeline)>,
)
    requires
        forall|k: int|
            0 <= k < timelines.len() ==> (#[trigger] timelines[k]).0.spec_is_canonical() && timelines[k].1.audio_id@ == id
                && timelines[k].1.duration == expected && timelines[k].1.reference@.len() == 0
                && timelines[k].1.prediction@.len() == 0,
    ensures
        first_problem(id, expected, timelines) is None,
    decreases timelines.len(),
{
    if timelines.len() > 0 {
        let t = timelines[0].1;
        assert(t.reference@ + t.prediction@ =~= Seq::<TimeSpan>::empty());
        assert(timeline_problem(id, expected, timelines[0].0, t) is None);
        let rest = timelines.drop_first();
        assert forall|k: int| 0 <= k < rest.len() implies (#[trigger] rest[k]).0.spec_is_canonical() && rest[k].1.audio_id@ == id
            && rest[k].1.duration == expected && rest[k].1.reference@.len() == 0 && rest[k].1.prediction@.len() == 0 by {
            assert(rest[k] == timelines[k + 1]);
        }
        lemma_empty_timelines_have_no_problem(id, expected, rest);
    }
}

/// The id of the first span that carries a source.
fn find_sourced(spans: &[TimeSpan]) -> (found: Option<String>)
    ensures
        match first_sourced(spans@) {
            Some(id) => found matches Some(f) && f@ == id,
            None => found is None,
        },
{
    let mut i: usize = 0;
    assert(spans@.subrange(0, spans@.len() as int) =~= spans@);
    while i < spans.len()
        invariant
            i <= spans@.len(),
            first_sourced(spans@) == first_sourced(spans@.subrange(i as int, spans@.len() as int)),
        decreases spans@.len() - i,
    {
        let ghost rest = spans@.subrange(i as int, spans@.len() as int);
        assert(rest[0] == spans@[i as int]);
        assert(rest.drop_first() =~= spans@.subrange(i + 1, spans@.len() as int));
        if spans[i].source.is_some() {
            return Some(spans[i].id.clone());
        }
        i = i + 1;
    }
    assert(spans@.subrange(i as int, spans@.len() as int).len() == 0);
    None
}

/// Whether a prediction lacks a usable source.
fn span_lacks_source(span: &TimeSpan) -> (b: bool)
    ensures
        b == lacks_source(*span),
{
    match &span.source {
        Some(s) => blank(s.as_str()),
        None => true,
    }
}

/// The id of the first span that lacks a usable source.
fn find_unsourced(spans: &[TimeSpan]) -> (found: Option<String>)
    ensures
        match first_unsourced(spans@) {
            Some(id) => found matches Some(f) && f@ == id,
            None => found is None,
        },
{
    let mut i: usize = 0;
    assert(spans@.subrange(0, spans@.len() as int) =~= spans@);
    while i < spans.len()
        invariant
            i <= spans@.len(),
            first_unsourced(spans@) == first_unsourced(spans@.subrange(i as int, spans@.len() as int)),
        decreases spans@.len() - i,
    {
        let ghost rest = spans@.subrange(i as int, spans@.len() as int);
        assert(rest[0] == spans@[i as int]);
        assert(rest.drop_first() =~= spans@.subrange(i + 1, spans@.len() as int));
        if span_lacks_source(&spans[i]) {
            return Some(spans[i].id.clone());
        }
        i = i + 1;
    }
    assert(spans@.subrange(i as int, spans@.len() as int).len() == 0);
    None
}

/// The id and end of the first span that ends after `duration`.
fn find_past(spans: &[TimeSpan], duration: DurationMs) -> (found: Option<(String, DurationMs)>)
    ensures
        match first_past(spans@, duration) {
            Some((id, end)) => found matches Some(f) && f.0@ == id && f.1 == end,
            None => found is None,
        },
{
    let mut i: usize = 0;
    assert(spans@.subrange(0, spans@.len() as int) =~= spans@);
    while i < spans.len()
        invariant
            i <= spans@.len(),
            first_past(spans@, duration) == first_past(spans@.subrange(i as int, spans@.len() as int), duration),
        decreases spans@.len() - i,
    {
        let ghost rest = spans@.subrange(i as int, spans@.len() as int);
        assert(rest[0] == spans@[i as int]);
        assert(rest.drop_first() =~= spans@.subrange(i + 1, spans@.len() as int));
        if spans[i].range.end.0 > duration.0 {
            return Some((spans[i].id.clone(), spans[i].range.end));
        }
        i = i + 1;
    }
    assert(spans@.subrange(i as int, spans@.len() as int).len() == 0);
    None
}

proof fn lemma_first_past_concat(a: Seq<TimeSpan>, b: Seq<TimeSpan>, duration: DurationMs)
    ensures
        first_past(a + b, duration) == if first_past(a, duration) is Some {
            first_past(a, duration)
        } else {
            first_past(b, duration)
        },
    decreases a.len(),
{
    if a.len() == 0 {
        assert(a + b =~= b);
    } else {
        assert((a + b)[0] == a[0]);
        assert((a + b).drop_first() =~= a.drop_first() + b);
        lemma_first_past_concat(a.drop_first(), b, duration);
    }
}

/// The problem with one timeline, if any.
fn check_timeline(id: &String, expected: DurationMs, channel: AudioChannel, t: &Timeline) -> (problem: Option<
    AudioValidationError,
>)
    ensures
        match timeline_problem(id@, expected, channel, *t) {
            Some(e) => problem matches Some(p) && same_error(p, e),
            None => problem is None,
        },
{
    if !channel.is_canonical() {
        return Some(AudioValidationError::NonCanonicalChannel { channel });
    }
    if t.audio_id != *id {
        return Some(
            AudioValidationError::TimelineAudioIdMismatch { channel, expected: id.clone(), found: t.audio_id.clone() },
        );
    }
    if t.duration.0 != expected.0 {
        return Some(AudioValidationError::TimelineDurationMismatch { channel, expected, found: t.duration });
    }
    match find_sourced(t.reference.as_slice()) {
        Some(annotation_id) => {
            return Some(AudioValidationError::ReferenceAnnotationHasSource { channel, annotation_id });
        },
        None => {},
    }
    match find_unsourced(t.prediction.as_slice()) {
        Some(annotation_id) => {
            return Some(AudioValidationError::PredictionAnnotationMissingSource { channel, annotation_id });
        },
        None => {},
    }
    proof {
        lemma_first_past_concat(t.reference@, t.prediction@, t.duration);
    }
    match find_past(t.reference.as_slice(), t.duration) {
        Some((annotation_id, end)) => {
            return Some(AudioValidationError::AnnotationOutOfBounds { channel, annotation_id, end, duration: t.duration });
        },
        None => {},
    }
    match find_past(t.prediction.as_slice(), t.duration) {
        Some((annotation_id, end)) => {
            return Some(AudioValidationError::AnnotationOutOfBounds { channel, annotation_id, end, duration: t.duration });
        },
        None => {},
    }
    None
}

impl Audio {
    /// The duration every timeline of the document must have.
    pub open spec fn expected_duration(&self) -> DurationMs {
        DurationMs(self.info.spec_timeline_duration_ms() as u64)
    }

    /// What `validate` reports: an empty id, a zero sample rate or channel
    /// count, or the first problem among the timelines.
    pub open spec fn validation_problem(&self) -> Option<AudioValidationError> {
        if is_blank(self.id@) {
            Some(AudioValidationError::EmptyAudioId)
        } else if self.info.sample_rate == 0 {
            Some(AudioValidationError::InvalidAudioInfoSampleRate)
        } else if self.info.channels == 0 {
            Some(AudioValidationError::InvalidAudioInfoChannels)
        } else {
            first_problem(self.id@, self.expected_duration(), self.timelines@)
        }
    }

    /// Checks the id, the info, and each timeline's channel, audio id,
    /// duration, annotation sources and bounds.
    pub fn validate(&self) -> (result: Result<(), AudioValidationError>)
        ensures
            match self.validation_problem() {
                Some(e) => result matches Err(r) && same_error(r, e),
                None => result is Ok,
            },
    {
        if blank(self.id.as_str()) {
            return Err(AudioValidationError::EmptyAudioId);
        }
        if self.info.sample_rate == 0 {
            return Err(AudioValidationError::InvalidAudioInfoSampleRate);
        }
        if self.info.channels == 0 {
            return Err(AudioValidationError::InvalidAudioInfoChannels);
        }
        let expected = DurationMs(self.info.timeline_duration_ms());
        let mut i: usize = 0;
        assert(self.timelines@.subrange(0, self.timelines@.len() as int) =~= self.timelines@);
        while i < self.timelines.len()
            invariant
                i <= self.timelines@.len(),
                !is_blank(self.id@),
                self.info.sample_rate != 0,
                self.info.channels != 0,
                expected == self.expected_duration(),
                first_problem(self.id@, expected, self.timelines@) == first_problem(
                    self.id@,
                    expected,
                    self.timelines@.subrange(i as int, self.timelines@.len() as int),
                ),
            decreases self.timelines@.len() - i,
        {
            let ghost rest = self.timelines@.subrange(i as int, self.timelines@.len() as int);
            assert(rest[0] == self.timelines@[i as int]);
            assert(rest.drop_first() =~= self.timelines@.subrange(i + 1, self.timelines@.len() as int));
            let entry = &self.timelines[i];
            match check_timeline(&self.id, expected, entry.0, &entry.1) {
                Some(problem) => {
                    assert(timeline_problem(self.id@, expected, entry.0, entry.1) is Some);
                    assert(first_problem(self.id@, expected, rest) == timeline_problem(
                        self.id@,
                        expected,
                        entry.0,
                        entry.1,
                    ));
                    assert(self.validation_problem() == first_problem(self.id@, expected, self.timelines@));
                    return Err(problem);
                },
                None => {},
            }
            i = i + 1;
        }
        assert(self.timelines@.subrange(i as int, self.timelines@.len() as int).len() == 0);
        Ok(())
    }
}

/// The fresh timelines of a document with `channels` channels: one mono
/// timeline for one channel, otherwise one per channel index.
pub open spec fn initial_channels(channels: u16) -> Seq<AudioChannel> {
    if channels == 1 {
        seq![AudioChannel::Mono]
    } else {
        Seq::new(channels as nat, |i: int| AudioChannel::spec_from_index(i as u16))
    }
}

/// The position of `channel` among the timelines, or where it would go.
fn channel_slot(timelines: &Vec<(AudioChannel, Timeline)>, channel: AudioChannel) -> (slot: (bool, usize))
    requires
        channels_sorted(timelines@),
    ensures
        slot.1 <= timelines@.len(),
        slot.0 ==> slot.1 < timelines@.len() && timelines@[slot.1 as int].0 == channel,
        !slot.0 ==> forall|k: int| 0 <= k < timelines@.len() ==> (#[trigger] timelines@[k]).0 != channel,
        forall|k: int| 0 <= k < slot.1 ==> channel_rank((#[trigger] timelines@[k]).0) < channel_rank(channel),
        forall|k: int|
            slot.1 <= k < timelines@.len() ==> channel_rank((#[trigger] timelines@[k]).0) >= channel_rank(channel),
{
    let target = rank(channel);
    let mut i: usize = 0;
    while i < timelines.len()
        invariant
            i <= timelines@.len(),
            target == channel_rank(channel),
            channels_sorted(timelines@),
            forall|k: int| 0 <= k < i ==> channel_rank((#[trigger] timelines@[k]).0) < channel_rank(channel),
        decreases timelines@.len() - i,
    {
        let r = rank(timelines[i].0);
        if r >= target {
            proof {
                assert forall|k: int| i <= k < timelines@.len() implies channel_rank((#[trigger] timelines@[k]).0)
                    >= channel_rank(channel) by {
                    if k > i {
                        assert(channel_rank(timelines@[i as int].0) < channel_rank(timelines@[k].0));
                    }
                }
            }
            if r == target {
                proof {
                    lemma_rank_injective(timelines@[i as int].0, channel);
                }
                return (true, i);
            }
            return (false, i);
        }
        i = i + 1;
    }
    (false, i)
}

/// Distinct channels have distinct ranks.
proof fn lemma_rank_injective(a: AudioChannel, b: AudioChannel)
    requires
        channel_rank(a) == channel_rank(b),
    ensures
        a == b,
{
}

impl Audio {
    /// Timelines listed once per channel, in channel order.
    pub open spec fn wf(&self) -> bool {
        channels_sorted(self.timelines@)
    }

    /// A document for `source`, whose probed `info` is known, with an empty
    /// timeline of the full duration for each channel.
    pub fn with_id_from_info(audio_id: String, source: AudioSource, info: &AudioInfo) -> (doc: Self)
        requires
            info.sample_rate > 0,
        ensures
            doc.wf(),
            doc.id == audio_id,
            doc.source == source,
            doc.info == *info,
            doc.metadata@.len() == 0,
            !is_blank(audio_id@) && info.channels > 0 ==> doc.validation_problem() is None,
            channels_of(doc.timelines@) == initial_channels(info.channels),
            forall|k: int|
                0 <= k < doc.timelines@.len() ==> (#[trigger] doc.timelines@[k]).1.audio_id@ == audio_id@
                    && doc.timelines@[k].1.duration == DurationMs(info.spec_timeline_duration_ms() as u64)
                    && doc.timelines@[k].1.reference@.len() == 0 && doc.timelines@[k].1.prediction@.len() == 0,
    {
        let duration = DurationMs(info.timeline_duration_ms());
        let mut timelines: Vec<(AudioChannel, Timeline)> = Vec::new();
        if info.channels == 1 {
            timelines.push((AudioChannel::Mono, Timeline::new(audio_id.clone(), duration)));
            assert(channels_of(timelines@) =~= initial_channels(info.channels));
        } else {
            let mut index: u16 = 0;
            while index < info.channels
                invariant
                    index <= info.channels,
                    info.channels != 1,
                    timelines@.len() == index,
                    channels_of(timelines@) == Seq::new(index as nat, |i: int| AudioChannel::spec_from_index(i as u16)),
                    forall|k: int|
                        0 <= k < timelines@.len() ==> (#[trigger] timelines@[k]).1.audio_id@ == audio_id@
                            && timelines@[k].1.duration == duration && timelines@[k].1.reference@.len() == 0
                            && timelines@[k].1.prediction@.len() == 0,
                    forall|k: int| 0 <= k < timelines@.len() ==> (#[trigger] timelines@[k]).0 == AudioChannel::spec_from_index(k as u16),
                decreases info.channels - index,
            {
                let channel = AudioChannel::from_index(index);
                let ghost before = timelines@;
                timelines.push((channel, Timeline::new(audio_id.clone(), duration)));
                assert(channels_of(timelines@) =~= channels_of(before).push(channel));
                assert(channels_of(timelines@) =~= Seq::new(
                    (index + 1) as nat,
                    |i: int| AudioChannel::spec_from_index(i as u16),
                ));
                index = index + 1;
            }
        }
        proof {
            if info.channels != 1 {
                assert forall|i: int, j: int| 0 <= i < j < timelines@.len() implies channel_rank(
                    (#[trigger] timelines@[i]).0,
                ) < channel_rank((#[trigger] timelines@[j]).0) by {
                    assert(timelines@[i].0 == AudioChannel::spec_from_index(i as u16));
                    assert(timelines@[j].0 == AudioChannel::spec_from_index(j as u16));
                }
            }
        }
        let doc = Audio { id: audio_id, source, info: info.duplicate(), timelines, metadata: Vec::new() };
        proof {
            assert forall|k: int| 0 <= k < doc.timelines@.len() implies (#[trigger] doc.timelines@[k]).0.spec_is_canonical()
                && doc.timelines@[k].1.audio_id@ == doc.id@ && doc.timelines@[k].1.duration == doc.expected_duration()
                && doc.timelines@[k].1.reference@.len() == 0 && doc.timelines@[k].1.prediction@.len() == 0 by {
                assert(channels_of(doc.timelines@)[k] == doc.timelines@[k].0);
                if info.channels != 1 {
                    assert(initial_channels(info.channels)[k] == AudioChannel::spec_from_index(k as u16));
                }
            }
            lemma_empty_timelines_have_no_problem(doc.id@, doc.expected_duration(), doc.timelines@);
        }
        doc
    }

    /// A document with a fresh random id; see [`Audio::with_id_from_info`].
    pub fn from_info(source: AudioSource, info: &AudioInfo) -> (doc: Self)
        requires
            info.sample_rate > 0,
        ensures
            doc.wf(),
            is_random_audio_id(doc.id@),
            doc.source == source,
            doc.info == *info,
            doc.metadata@.len() == 0,
            channels_of(doc.timelines@) == initial_channels(info.channels),
            forall|k: int|
                0 <= k < doc.timelines@.len() ==> (#[trigger] doc.timelines@[k]).1.audio_id@ == doc.id@
                    && doc.timelines@[k].1.duration == DurationMs(info.spec_timeline_duration_ms() as u64)
                    && doc.timelines@[k].1.reference@.len() == 0 && doc.timelines@[k].1.prediction@.len() == 0,
    {
        Self::with_id_from_info(random_audio_id(), source, info)
    }

    /// The stable id of the document at position `index`: `audio-{index}`.
    pub fn id_for_index(index: usize) -> (id: String)
        ensures
            id@ == seq!['a', 'u', 'd', 'i', 'o', '-'] + decimal_digits(index as nat),
    {
        let mut v: Vec<char> = Vec::new();
        v.push('a');
        v.push('u');
        v.push('d');
        v.push('i');
        v.push('o');
        v.push('-');
        let digits = decimal_chars(index as u64);
        append_chars(&mut v, digits.as_slice());
        assert(v@ =~= seq!['a', 'u', 'd', 'i', 'o', '-'] + decimal_digits(index as nat));
        string_from_chars(v.as_slice())
    }

    /// The cleaned id: the id without leading and trailing white space.
    pub fn audio_id(&self) -> (id: String)
        ensures
            id@ == crate::text::trim(self.id@),
    {
        let chars = chars_of(self.id.as_str());
        let trimmed = crate::text::trim_chars(chars.as_slice());
        string_from_chars(trimmed.as_slice())
    }

    /// The duration every timeline of the document must have.
    pub fn timeline_duration(&self) -> (d: Option<DurationMs>)
        requires
            self.info.sample_rate > 0,
        ensures
            d == Some(self.expected_duration()),
    {
        Some(DurationMs(self.info.timeline_duration_ms()))
    }

    /// Sets the document id and the audio id of every timeline.
    pub fn set_audio_id(&mut self, audio_id: String)
        ensures
            final(self).id == audio_id,
            final(self).source == old(self).source,
            final(self).info == old(self).info,
            final(self).metadata == old(self).metadata,
            final(self).timelines@.len() == old(self).timelines@.len(),
            forall|k: int|
                0 <= k < final(self).timelines@.len() ==> (#[trigger] final(self).timelines@[k]).0 == old(
                    self,
                ).timelines@[k].0 && final(self).timelines@[k].1 == (Timeline {
                    audio_id: final(self).timelines@[k].1.audio_id,
                    ..old(self).timelines@[k].1
                }) && final(self).timelines@[k].1.audio_id@ == audio_id@,
    {
        let n = self.timelines.len();
        let mut i: usize = 0;
        while i < n
            invariant
                n == self.timelines@.len(),
                n == old(self).timelines@.len(),
                i <= n,
                self.id == old(self).id,
                self.source == old(self).source,
                self.info == old(self).info,
                self.metadata == old(self).metadata,
                forall|k: int|
                    0 <= k < n ==> (#[trigger] self.timelines@[k]).0 == old(self).timelines@[k].0 && self.timelines@[k].1
                        == (Timeline { audio_id: self.timelines@[k].1.audio_id, ..old(self).timelines@[k].1 }),
                forall|k: int| 0 <= k < i ==> (#[trigger] self.timelines@[k]).1.audio_id@ == audio_id@,
            decreases n - i,
        {
            self.timelines[i].1.audio_id = audio_id.clone();
            i = i + 1;
        }
        self.id = audio_id;
    }

    /// The timeline of `channel`, if the document has one.
    pub fn timeline(&self, channel: AudioChannel) -> (result: Result<Option<&Timeline>, AudioChannelError>)
        requires
            self.wf(),
        ensures
            channel.spec_is_canonical() ==> (result matches Ok(found) && match found {
                Some(t) => exists|k: int|
                    0 <= k < self.timelines@.len() && (#[trigger] self.timelines@[k]).0 == channel && self.timelines@[k].1
                        == *t,
                None => forall|k: int| 0 <= k < self.timelines@.len() ==> (#[trigger] self.timelines@[k]).0 != channel,
            }),
            !channel.spec_is_canonical() ==> (result matches Err(e) && channel == AudioChannel::Channel(e.index)),
    {
        match validate_channel(channel) {
            Err(e) => {
                return Err(e);
            },
            Ok(()) => {},
        }
        let (found, pos) = channel_slot(&self.timelines, channel);
        if found {
            Ok(Some(&self.timelines[pos].1))
        } else {
            Ok(None)
        }
    }

    /// The mono timeline, if the document has one.
    pub fn mono_timeline(&self) -> (found: Option<&Timeline>)
        requires
            self.wf(),
        ensures
            match found {
                Some(t) => exists|k: int|
                    0 <= k < self.timelines@.len() && (#[trigger] self.timelines@[k]).0 == AudioChannel::Mono
                        && self.timelines@[k].1 == *t,
                None => forall|k: int|
                    0 <= k < self.timelines@.len() ==> (#[trigger] self.timelines@[k]).0 != AudioChannel::Mono,
            },
    {
        let (found, pos) = channel_slot(&self.timelines, AudioChannel::Mono);
        if found {
            Some(&self.timelines[pos].1)
        } else {
            None
        }
    }

    /// Removes the timeline of `channel` and returns it.
    pub fn remove_timeline(&mut self, channel: AudioChannel) -> (result: Result<Option<Timeline>, AudioChannelError>)
        requires
            old(self).wf(),
        ensures
            final(self).wf(),
            final(self).id == old(self).id,
            final(self).info == old(self).info,
            !channel.spec_is_canonical() ==> (result matches Err(e) && channel == AudioChannel::Channel(e.index)
                && final(self).timelines@ == old(self).timelines@),
            channel.spec_is_canonical() ==> (result matches Ok(removed) && match removed {
                Some(t) => exists|k: int|
                    0 <= k < old(self).timelines@.len() && (#[trigger] old(self).timelines@[k]).0 == channel
                        && old(self).timelines@[k].1 == t && final(self).timelines@ == old(self).timelines@.remove(k),
                None => final(self).timelines@ == old(self).timelines@ && forall|k: int|
                    0 <= k < old(self).timelines@.len() ==> (#[trigger] old(self).timelines@[k]).0 != channel,
            }),
    {
        match validate_channel(channel) {
            Err(e) => {
                return Err(e);
            },
            Ok(()) => {},
        }
        let (found, pos) = channel_slot(&self.timelines, channel);
        if found {
            let ghost before = self.timelines@;
            let (_, t) = self.timelines.remove(pos);
            proof {
                assert forall|i: int, j: int| 0 <= i < j < self.timelines@.len() implies channel_rank(
                    (#[trigger] self.timelines@[i]).0,
                ) < channel_rank((#[trigger] self.timelines@[j]).0) by {
                    let bi = if i < pos { i } else { i + 1 };
                    let bj = if j < pos { j } else { j + 1 };
                    assert(self.timelines@[i] == before[bi]);
                    assert(self.timelines@[j] == before[bj]);
                }
                assert(before[pos as int].1 == t);
            }
            Ok(Some(t))
        } else {
            Ok(None)
        }
    }

    /// Puts `timeline` on the mono channel, replacing any there, and takes
    /// its audio id as the document id.
    pub fn with_timeline(self, timeline: Timeline) -> (doc: Self)
        requires
            self.wf(),
        ensures
            doc.wf(),
            doc.id == timeline.audio_id,
            doc.info == self.info,
            doc.source == self.source,
            exists|k: int| 0 <= k < doc.timelines@.len() && (#[trigger] doc.timelines@[k]) == (AudioChannel::Mono, timeline),
            doc.timelines@.len() == self.timelines@.len() + if exists|k: int|
                0 <= k < self.timelines@.len() && (#[trigger] self.timelines@[k]).0 == AudioChannel::Mono {
                0int
            } else {
                1int
            },
    {
        let mut doc = self;
        let audio_id = timeline.audio_id.clone();
        doc.set_audio_id(audio_id);
        proof {
            assert forall|i: int, j: int| 0 <= i < j < doc.timelines@.len() implies channel_rank(
                (#[trigger] doc.timelines@[i]).0,
            ) < channel_rank((#[trigger] doc.timelines@[j]).0) by {
                assert(doc.timelines@[i].0 == self.timelines@[i].0);
                assert(doc.timelines@[j].0 == self.timelines@[j].0);
            }
            assert((exists|k: int| 0 <= k < doc.timelines@.len() && (#[trigger] doc.timelines@[k]).0 == AudioChannel::Mono)
                == (exists|k: int| 0 <= k < self.timelines@.len() && (#[trigger] self.timelines@[k]).0 == AudioChannel::Mono))
                by {
                if exists|k: int| 0 <= k < self.timelines@.len() && (#[trigger] self.timelines@[k]).0 == AudioChannel::Mono {
                    let k = choose|k: int| 0 <= k < self.timelines@.len() && (#[trigger] self.timelines@[k]).0 == AudioChannel::Mono;
                    assert(doc.timelines@[k].0 == AudioChannel::Mono);
                }
                if exists|k: int| 0 <= k < doc.timelines@.len() && (#[trigger] doc.timelines@[k]).0 == AudioChannel::Mono {
                    let k = choose|k: int| 0 <= k < doc.timelines@.len() && (#[trigger] doc.timelines@[k]).0 == AudioChannel::Mono;
                    assert(self.timelines@[k].0 == AudioChannel::Mono);
                }
            }
        }
        let (found, pos) = channel_slot(&doc.timelines, AudioChannel::Mono);
        let ghost before = doc.timelines@;
        if found {
            doc.timelines.set(pos, (AudioChannel::Mono, timeline));
            proof {
                assert forall|i: int, j: int| 0 <= i < j < doc.timelines@.len() implies channel_rank(
                    (#[trigger] doc.timelines@[i]).0,
                ) < channel_rank((#[trigger] doc.timelines@[j]).0) by {
                    assert(doc.timelines@[i].0 == before[i].0);
                    assert(doc.timelines@[j].0 == before[j].0);
                }
                assert(doc.timelines@[pos as int] == (AudioChannel::Mono, timeline));
            }
        } else {
            doc.timelines.insert(pos, (AudioChannel::Mono, timeline));
            proof {
                assert forall|i: int, j: int| 0 <= i < j < doc.timelines@.len() implies channel_rank(
                    (#[trigger] doc.timelines@[i]).0,
                ) < channel_rank((#[trigger] doc.timelines@[j]).0) by {
                    if j < pos {
                        assert(doc.timelines@[i] == before[i] && doc.timelines@[j] == before[j]);
                    } else if j == pos {
                        assert(doc.timelines@[i] == before[i]);
                    } else if i < pos {
                        assert(doc.timelines@[i] == before[i] && doc.timelines@[j] == before[j - 1]);
                    } else if i == pos {
                        assert(doc.timelines@[j] == before[j - 1]);
                    } else {
                        assert(doc.timelines@[i] == before[i - 1] && doc.timelines@[j] == before[j - 1]);
                    }
                }
                assert(doc.timelines@[pos as int] == (AudioChannel::Mono, timeline));
            }
        }
        doc
    }
}

/// Whether a given duration differs from the expected one.
pub open spec fn mismatched(duration: Option<DurationMs>, expected: DurationMs) -> bool {
    duration matches Some(d) && d != expected
}

impl Audio {
    /// Makes sure `channel` has a timeline, creating an empty one of the
    /// document's duration when it has none. A given `duration` must equal
    /// that duration.
    pub fn ensure_timeline(&mut self, channel: AudioChannel, duration: Option<DurationMs>) -> (result: Result<(), AudioTimelineError>)
        requires
            old(self).wf(),
            old(self).info.sample_rate > 0,
        ensures
            final(self).wf(),
            final(self).id == old(self).id,
            final(self).info == old(self).info,
            !channel.spec_is_canonical() ==> result == Err::<(), AudioTimelineError>(
                AudioTimelineError::InvalidChannel(AudioChannelError { index: channel->Channel_0 }),
            ) && final(self).timelines@ == old(self).timelines@,
            channel.spec_is_canonical() && mismatched(duration, old(self).expected_duration()) ==> result
                == Err::<(), AudioTimelineError>(
                AudioTimelineError::DurationMismatch { expected: old(self).expected_duration(), found: duration->0 },
            ) && final(self).timelines@ == old(self).timelines@,
            channel.spec_is_canonical() && !mismatched(duration, old(self).expected_duration()) ==> {
                &&& result is Ok
                &&& if exists|k: int|
                    0 <= k < old(self).timelines@.len() && (#[trigger] old(self).timelines@[k]).0 == channel {
                    final(self).timelines@ == old(self).timelines@
                } else {
                    exists|k: int|
                        0 <= k <= old(self).timelines@.len() && final(self).timelines@ == old(self).timelines@.insert(
                            k,
                            (channel, Timeline {
                                audio_id: old(self).id,
                                duration: old(self).expected_duration(),
                                reference: (#[trigger] final(self).timelines@[k]).1.reference,
                                prediction: final(self).timelines@[k].1.prediction,
                            }),
                        ) && final(self).timelines@[k].1.reference@.len() == 0
                            && final(self).timelines@[k].1.prediction@.len() == 0
                }
            },
    {
        match validate_channel(channel) {
            Err(e) => {
                return Err(AudioTimelineError::InvalidChannel(e));
            },
            Ok(()) => {},
        }
        let expected = DurationMs(self.info.timeline_duration_ms());
        match duration {
            Some(found) => {
                if found.0 != expected.0 {
                    return Err(AudioTimelineError::DurationMismatch { expected, found });
                }
            },
            None => {},
        }
        let (found, pos) = channel_slot(&self.timelines, channel);
        if !found {
            let ghost before = self.timelines@;
            let timeline = Timeline::new(self.id.clone(), expected);
            self.timelines.insert(pos, (channel, timeline));
            proof {
                assert forall|i: int, j: int| 0 <= i < j < self.timelines@.len() implies channel_rank(
                    (#[trigger] self.timelines@[i]).0,
                ) < channel_rank((#[trigger] self.timelines@[j]).0) by {
                    if j < pos {
                        assert(self.timelines@[i] == before[i] && self.timelines@[j] == before[j]);
                    } else if j == pos {
                        assert(self.timelines@[i] == before[i]);
                    } else if i < pos {
                        assert(self.timelines@[i] == before[i] && self.timelines@[j] == before[j - 1]);
                    } else if i == pos {
                        assert(self.timelines@[j] == before[j - 1]);
                        assert(channel_rank(before[j - 1].0) != channel_rank(channel)) by {
                            if channel_rank(before[j - 1].0) == channel_rank(channel) {
                                lemma_rank_injective(before[j - 1].0, channel);
                            }
                        }
                    } else {
                        assert(self.timelines@[i] == before[i - 1] && self.timelines@[j] == before[j - 1]);
                    }
                }
                let k = pos as int;
                assert(self.timelines@ == before.insert(
                    k,
                    (channel, Timeline {
                        audio_id: old(self).id,
                        duration: old(self).expected_duration(),
                        reference: self.timelines@[k].1.reference,
                        prediction: self.timelines@[k].1.prediction,
                    }),
                ));
            }
        } else {
            proof {
                assert(old(self).timelines@[pos as int].0 == channel);
            }
        }
        Ok(())
    }

    /// Sets metadata `key` to the JSON text `value`, replacing any value
    /// already there; a new key goes before the first entry whose key is not
    /// smaller.
    pub fn with_metadata_value(self, key: String, value: String) -> (doc: Self)
        ensures
            doc.id == self.id,
            doc.info == self.info,
            doc.source == self.source,
            doc.timelines == self.timelines,
            upserted(entries_view(self.metadata@), key@, value@, entries_view(doc.metadata@)),
    {
        let mut doc = self;
        let ghost old_entries = entries_view(doc.metadata@);
        let mut i: usize = 0;
        let target = key.clone();
        while i < doc.metadata.len()
            invariant
                i <= doc.metadata@.len(),
                doc == self,
                old_entries == entries_view(self.metadata@),
                target@ == key@,
                forall|k: int| 0 <= k < i ==> (#[trigger] doc.metadata@[k]).0@ != key@,
            decreases doc.metadata@.len() - i,
        {
            if doc.metadata[i].0 == target {
                doc.metadata.set(i, (key, value));
                proof {
                    assert(is_first_key(old_entries, key@, i as int));
                    assert(entries_view(doc.metadata@) =~= old_entries.update(i as int, (key@, value@)));
                }
                return doc;
            }
            i = i + 1;
        }
        assert(!has_key(old_entries, key@));
        let mut pos: usize = 0;
        while pos < doc.metadata.len() && crate::ordered::compare_chars(chars_of(doc.metadata[pos].0.as_str()).as_slice(), chars_of(target.as_str()).as_slice()) == crate::ordered::TextOrder::Less
            invariant
                pos <= doc.metadata@.len(),
                doc == self,
                old_entries == entries_view(self.metadata@),
                target@ == key@,
                forall|k: int| 0 <= k < pos ==> text_lt(#[trigger] old_entries[k].0, key@),
            decreases doc.metadata@.len() - pos,
        {
            pos = pos + 1;
        }
        doc.metadata.insert(pos, (key, value));
        proof {
            assert(is_insert_position(old_entries, key@, pos as int));
            assert(entries_view(doc.metadata@) =~= old_entries.insert(pos as int, (key@, value@)));
        }
        doc
    }
}

/// The character views of metadata entries.
pub open spec fn entries_view(entries: Seq<(String, String)>) -> Seq<(Seq<char>, Seq<char>)> {
    entries.map_values(|e: (String, String)| (e.0@, e.1@))
}

/// Whether some entry has `key`.
pub open spec fn has_key(entries: Seq<(Seq<char>, Seq<char>)>, key: Seq<char>) -> bool {
    exists|i: int| 0 <= i < entries.len() && (#[trigger] entries[i]).0 == key
}

/// Whether `i` is the first entry with `key`.
pub open spec fn is_first_key(entries: Seq<(Seq<char>, Seq<char>)>, key: Seq<char>, i: int) -> bool {
    &&& 0 <= i < entries.len()
    &&& entries[i].0 == key
    &&& forall|j: int| 0 <= j < i ==> (#[trigger] entries[j]).0 != key
}

/// Whether `p` is the first position whose key is not smaller than `key`.
pub open spec fn is_insert_position(entries: Seq<(Seq<char>, Seq<char>)>, key: Seq<char>, p: int) -> bool {
    &&& 0 <= p <= entries.len()
    &&& forall|j: int| 0 <= j < p ==> text_lt(#[trigger] entries[j].0, key)
    &&& (p == entries.len() || !text_lt(entries[p].0, key))
}

/// Whether `new` is `old` with `key` set to `value`: the first entry with
/// that key gets the value, or a new entry goes in before the first larger
/// key.
pub open spec fn upserted(
    old: Seq<(Seq<char>, Seq<char>)>,
    key: Seq<char>,
    value: Seq<char>,
    new: Seq<(Seq<char>, Seq<char>)>,
) -> bool {
    if has_key(old, key) {
        exists|i: int| is_first_key(old, key, i) && new == old.update(i, (key, value))
    } else {
        exists|p: int| is_insert_position(old, key, p) && new == old.insert(p, (key, value))
    }
}

/// Whether the keys are strictly ascending.
pub open spec fn keys_ascending(entries: Seq<(Seq<char>, Seq<char>)>) -> bool {
    forall|i: int, j: int| 0 <= i < j < entries.len() ==> text_lt((#[trigger] entries[i]).0, (#[trigger] entries[j]).0)
}

/// Setting a value keeps strictly ascending keys ascending, and the key
/// then holds exactly that value.
pub proof fn lemma_upsert_keeps_keys_ascending(
    old: Seq<(Seq<char>, Seq<char>)>,
    key: Seq<char>,
    value: Seq<char>,
    new: Seq<(Seq<char>, Seq<char>)>,
)
    requires
        keys_ascending(old),
        upserted(old, key, value, new),
    ensures
        keys_ascending(new),
        forall|i: int| 0 <= i < new.len() && (#[trigger] new[i]).0 == key ==> new[i].1 == value,
        has_key(new, key),
{
    if has_key(old, key) {
        let i = choose|i: int| is_first_key(old, key, i) && new == old.update(i, (key, value));
        assert(new[i].0 == key);
        assert forall|a: int| 0 <= a < new.len() && (#[trigger] new[a]).0 == key implies new[a].1 == value by {
            if a != i {
                assert(new[a] == old[a]);
                if a < i {
                    crate::ordered::lemma_text_lt_trichotomy(old[a].0, old[i].0);
                } else {
                    crate::ordered::lemma_text_lt_trichotomy(old[i].0, old[a].0);
                }
            }
        }
    } else {
        let p = choose|p: int| is_insert_position(old, key, p) && new == old.insert(p, (key, value));
        assert(new[p].0 == key);
        assert forall|a: int, b: int| 0 <= a < b < new.len() implies text_lt((#[trigger] new[a]).0, (#[trigger] new[b]).0) by {
            if b < p {
                assert(new[a] == old[a] && new[b] == old[b]);
            } else if b == p {
                assert(new[a] == old[a]);
            } else if a < p {
                assert(new[a] == old[a] && new[b] == old[b - 1]);
                crate::ordered::lemma_text_lt_trichotomy(old[p].0, key);
                if p < b - 1 {
                    crate::ordered::lemma_text_lt_transitive(old[a].0, key, old[p].0);
                    crate::ordered::lemma_text_lt_transitive(old[a].0, old[p].0, old[b - 1].0);
                } else {
                    crate::ordered::lemma_text_lt_transitive(old[a].0, key, old[p].0);
                }
            } else if a == p {
                assert(new[b] == old[b - 1]);
                crate::ordered::lemma_text_lt_trichotomy(old[p].0, key);
                if p < b - 1 {
                    crate::ordered::lemma_text_lt_transitive(key, old[p].0, old[b - 1].0);
                }
            } else {
                assert(new[a] == old[a - 1] && new[b] == old[b - 1]);
            }
        }
        assert forall|a: int| 0 <= a < new.len() && (#[trigger] new[a]).0 == key implies new[a].1 == value by {
            if a < p {
                assert(new[a] == old[a]);
            } else if a > p {
                assert(new[a] == old[a - 1]);
            }
        }
    }
}

} // verus!
