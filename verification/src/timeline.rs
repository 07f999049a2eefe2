//! Annotated time spans on one channel of an audio: reference annotations
//! and predictions from named sources.

use vstd::prelude::*;

use crate::speaker::SpeakerSpan;
use crate::speaker_dataset::{SourcedSpeakerSpan, SpeakerTimeline};
use crate::audio::AudioChannel;
use crate::time::{DurationMs, TimeRange};

verus! {

/// A speaker turn, optionally with what was said.
#[derive(Debug, Clone, PartialEq, Eq)]
pub struct Speaker {
    pub name: String,
    pub transcription: Option<String>,
}

/// What a span says about its stretch of audio.
#[derive(Debug, Clone, PartialEq, Eq)]
pub enum Annotation {
    /// An acoustic event, by name.
    Activity(String),
    /// One recognised token.
    Token(String),
    /// A transcription of the span.
    Transcription(String),
    /// Who speaks.
    Speaker(Speaker),
    /// A sentence of text.
    Sentence(String),
    /// The spoken language, as a tag.
    Language(String),
}

/// An annotation over a time range, with the source that predicted it
/// (reference annotations have none).
#[derive(Debug, Clone, PartialEq, Eq)]
pub struct TimeSpan {
    pub id: String,
    pub range: TimeRange,
    pub source: Option<String>,
    pub annotation: Annotation,
}

/// The reference annotations and predictions of one channel.
#[derive(Debug, Clone, PartialEq, Eq)]
pub struct Timeline {
    pub audio_id: String,
    pub duration: DurationMs,
    pub reference: Vec<TimeSpan>,
    pub prediction: Vec<TimeSpan>,
}

impl Timeline {
    /// An empty timeline of `duration` for audio `audio_id`.
    pub fn new(audio_id: String, duration: DurationMs) -> (t: Self)
        ensures
            t.audio_id == audio_id,
            t.duration == duration,
            t.reference@.len() == 0,
            t.prediction@.len() == 0,
    {
        Timeline { audio_id, duration, reference: Vec::new(), prediction: Vec::new() }
    }
}

/// Whether a span carries text: a transcription, a sentence, or a speaker
/// turn with its transcription.
pub open spec fn spec_is_text_annotation(span: TimeSpan) -> bool {
    match span.annotation {
        Annotation::Transcription(_) | Annotation::Sentence(_) => true,
        Annotation::Speaker(speaker) => speaker.transcription is Some,
        _ => false,
    }
}

/// Whether a span carries text.
pub fn is_text_annotation(span: &TimeSpan) -> (b: bool)
    ensures
        b == spec_is_text_annotation(*span),
{
    match &span.annotation {
        Annotation::Transcription(_) | Annotation::Sentence(_) => true,
        Annotation::Speaker(speaker) => speaker.transcription.is_some(),
        _ => false,
    }
}

/// Whether a span is a speaker turn.
pub fn is_speaker_annotation(span: &TimeSpan) -> (b: bool)
    ensures
        b == (span.annotation is Speaker),
{
    match &span.annotation {
        Annotation::Speaker(_) => true,
        _ => false,
    }
}

/// Whether a span marks an acoustic event.
pub fn is_activity_annotation(span: &TimeSpan) -> (b: bool)
    ensures
        b == (span.annotation is Activity),
{
    match &span.annotation {
        Annotation::Activity(_) => true,
        _ => false,
    }
}

/// The speaker and bounds of a speaker turn; `None` for other spans.
pub fn speaker_span(span: &TimeSpan) -> (turn: Option<SpeakerSpan>)
    ensures
        match span.annotation {
            Annotation::Speaker(speaker) => turn == Some(
                SpeakerSpan { label: speaker.name, start_ms: span.range.start.0, end_ms: span.range.end.0 },
            ),
            _ => turn is None,
        },
{
    match &span.annotation {
        Annotation::Speaker(speaker) => Some(
            SpeakerSpan { label: speaker.name.clone(), start_ms: span.range.start.0, end_ms: span.range.end.0 },
        ),
        _ => None,
    }
}

/// Whether some span satisfies `is_text_annotation`.
pub fn has_text_annotation(spans: &[TimeSpan]) -> (b: bool)
    ensures
        b == exists|i: int| 0 <= i < spans@.len() && spec_is_text_annotation(#[trigger] spans@[i]),
{
    let mut i: usize = 0;
    while i < spans.len()
        invariant
            i <= spans@.len(),
            forall|k: int| 0 <= k < i ==> !spec_is_text_annotation(#[trigger] spans@[k]),
        decreases spans@.len() - i,
    {
        if is_text_annotation(&spans[i]) {
            return true;
        }
        i = i + 1;
    }
    false
}

/// Whether some span marks an acoustic event.
pub fn has_activity_annotation(spans: &[TimeSpan]) -> (b: bool)
    ensures
        b == exists|i: int| 0 <= i < spans@.len() && (#[trigger] spans@[i]).annotation is Activity,
{
    let mut i: usize = 0;
    while i < spans.len()
        invariant
            i <= spans@.len(),
            forall|k: int| 0 <= k < i ==> !((#[trigger] spans@[k]).annotation is Activity),
        decreases spans@.len() - i,
    {
        if is_activity_annotation(&spans[i]) {
            return true;
        }
        i = i + 1;
    }
    false
}

/// The speaker turns among `spans`, in order.
pub open spec fn speaker_turns(spans: Seq<TimeSpan>) -> Seq<SpeakerSpan>
    decreases spans.len(),
{
    if spans.len() == 0 {
        Seq::empty()
    } else {
        let prior = speaker_turns(spans.drop_last());
        match spans.last().annotation {
            Annotation::Speaker(speaker) => prior.push(
                SpeakerSpan {
                    label: speaker.name,
                    start_ms: spans.last().range.start.0,
                    end_ms: spans.last().range.end.0,
                },
            ),
            _ => prior,
        }
    }
}

/// The predicted speaker turns among `spans`, with their sources, in order.
pub open spec fn sourced_speaker_turns(spans: Seq<TimeSpan>) -> Seq<SourcedSpeakerSpan>
    decreases spans.len(),
{
    if spans.len() == 0 {
        Seq::empty()
    } else {
        let prior = sourced_speaker_turns(spans.drop_last());
        match spans.last().annotation {
            Annotation::Speaker(speaker) => prior.push(
                SourcedSpeakerSpan {
                    source: spans.last().source,
                    span: SpeakerSpan {
                        label: speaker.name,
                        start_ms: spans.last().range.start.0,
                        end_ms: spans.last().range.end.0,
                    },
                },
            ),
            _ => prior,
        }
    }
}

fn copy_source(source: &Option<String>) -> (c: Option<String>)
    ensures
        c == *source,
{
    match source {
        Some(s) => Some(s.clone()),
        None => None,
    }
}

/// The speaker turns of a timeline, ready for speaker scoring.
pub fn speaker_timeline(channel: AudioChannel, timeline: &Timeline) -> (out: SpeakerTimeline)
    ensures
        out.channel == channel,
        out.reference@ == speaker_turns(timeline.reference@),
        out.prediction@ == sourced_speaker_turns(timeline.prediction@),
{
    let mut reference: Vec<SpeakerSpan> = Vec::new();
    let mut i: usize = 0;
    while i < timeline.reference.len()
        invariant
            i <= timeline.reference@.len(),
            reference@ == speaker_turns(timeline.reference@.take(i as int)),
        decreases timeline.reference@.len() - i,
    {
        proof {
            assert(timeline.reference@.take(i + 1).drop_last() =~= timeline.reference@.take(i as int));
            assert(timeline.reference@.take(i + 1).last() == timeline.reference@[i as int]);
        }
        match speaker_span(&timeline.reference[i]) {
            Some(turn) => {
                reference.push(turn);
            },
            None => {},
        }
        i = i + 1;
    }
    assert(timeline.reference@.take(timeline.reference@.len() as int) =~= timeline.reference@);
    let mut prediction: Vec<SourcedSpeakerSpan> = Vec::new();
    let mut j: usize = 0;
    while j < timeline.prediction.len()
        invariant
            j <= timeline.prediction@.len(),
            prediction@ == sourced_speaker_turns(timeline.prediction@.take(j as int)),
        decreases timeline.prediction@.len() - j,
    {
        proof {
            assert(timeline.prediction@.take(j + 1).drop_last() =~= timeline.prediction@.take(j as int));
            assert(timeline.prediction@.take(j + 1).last() == timeline.prediction@[j as int]);
        }
        let span = &timeline.prediction[j];
        match speaker_span(span) {
            Some(turn) => {
                prediction.push(SourcedSpeakerSpan { source: copy_source(&span.source), span: turn });
            },
            None => {},
        }
        j = j + 1;
    }
    assert(timeline.prediction@.take(timeline.prediction@.len() as int) =~= timeline.prediction@);
    SpeakerTimeline { channel, reference, prediction }
}

} // verus!
