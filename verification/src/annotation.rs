//! Timelines of annotations with a status and a source, and the transcript
//! their final text annotations make.

use vstd::prelude::*;

use crate::chars::{append_chars, chars_of, string_from_chars};
use crate::ids::{is_prefixed_uuid, random_id};
use crate::text::{trim, trim_chars};
use crate::time::{DurationMs, TimeRange};

verus! {

/// How settled an annotation is.
#[derive(Debug, Clone, Copy, PartialEq, Eq, Structural)]
pub enum AnnotationStatus {
    Partial,
    Final,
    Revised,
    Deleted,
}

/// Who made an annotation.
#[derive(Debug, Clone, PartialEq, Eq)]
pub enum AnnotationSource {
    User,
    Model(String),
    Stage(String),
    System,
}

/// A hotword found in the audio, with its normalised form.
#[derive(Debug, Clone, PartialEq, Eq)]
pub struct HotwordMatch {
    pub text: String,
    pub normalized: Option<String>,
}

/// A non-speech acoustic event, by label.
#[derive(Debug, Clone, PartialEq, Eq)]
pub struct AcousticEvent {
    pub label: String,
}

/// A message from a processing component.
#[derive(Debug, Clone, PartialEq, Eq)]
pub struct Diagnostic {
    pub code: String,
    pub message: String,
    pub component: Option<String>,
}

/// A stretch of text with its tokens and language.
#[derive(Debug, Clone, PartialEq, Eq)]
pub struct TextSpan {
    pub text: String,
    /// The texts of the recognised tokens, in order.
    pub tokens: Vec<String>,
    pub language: Option<String>,
}

/// The text of a whole timeline and the spans it was joined from.
#[derive(Debug, Clone, Default, PartialEq, Eq)]
pub struct Transcript {
    pub text: String,
    pub language: Option<String>,
    pub segments: Vec<TextSpan>,
}

/// What an annotation says.
#[derive(Debug, Clone, PartialEq, Eq)]
pub enum AnnotationPayload {
    Speech,
    Silence,
    /// One recognised token's text.
    Token(String),
    Transcription(TextSpan),
    Sentence(TextSpan),
    Speaker(String),
    Language(String),
    Hotword(HotwordMatch),
    AcousticEvent(AcousticEvent),
    Diagnostic(Diagnostic),
}

/// A payload over a time range, with its status and source.
#[derive(Debug, Clone, PartialEq, Eq)]
pub struct Annotation {
    pub id: String,
    pub range: TimeRange,
    pub status: AnnotationStatus,
    pub source: AnnotationSource,
    pub payload: AnnotationPayload,
}

/// The annotations of one audio.
#[derive(Debug, Clone, PartialEq, Eq)]
pub struct Timeline {
    pub id: String,
    pub audio_id: String,
    pub duration: Option<DurationMs>,
    pub annotations: Vec<Annotation>,
}

/// The character view of an optional string.
pub open spec fn opt_chars(s: Option<String>) -> Option<Seq<char>> {
    match s {
        Some(s) => Some(s@),
        None => None,
    }
}

/// The contents of a text span.
pub struct SpanView {
    pub text: Seq<char>,
    pub tokens: Seq<Seq<char>>,
    pub language: Option<Seq<char>>,
}

/// The contents of `span`.
pub open spec fn span_view(span: TextSpan) -> SpanView {
    SpanView {
        text: span.text@,
        tokens: span.tokens@.map_values(|t: String| t@),
        language: opt_chars(span.language),
    }
}

/// A copy of an optional string.
fn copy_opt(s: &Option<String>) -> (c: Option<String>)
    ensures
        opt_chars(c) == opt_chars(*s),
{
    match s {
        Some(s) => Some(s.clone()),
        None => None,
    }
}

impl TextSpan {
    /// A span of `text` with no tokens and no language.
    pub fn new(text: String) -> (span: Self)
        ensures
            span.text == text,
            span.tokens@.len() == 0,
            span.language is None,
    {
        TextSpan { text, tokens: Vec::new(), language: None }
    }

    /// A copy of the span.
    pub fn duplicate(&self) -> (c: Self)
        ensures
            span_view(c) == span_view(*self),
    {
        let mut tokens: Vec<String> = Vec::new();
        let mut i: usize = 0;
        while i < self.tokens.len()
            invariant
                i <= self.tokens@.len(),
                tokens@.len() == i,
                forall|j: int| 0 <= j < i ==> (#[trigger] tokens@[j])@ == self.tokens@[j]@,
            decreases self.tokens@.len() - i,
        {
            tokens.push(self.tokens[i].clone());
            i = i + 1;
        }
        let c = TextSpan { text: self.text.clone(), tokens, language: copy_opt(&self.language) };
        assert(c.tokens@.map_values(|t: String| t@) =~= self.tokens@.map_values(|t: String| t@));
        c
    }
}

impl Annotation {
    /// An annotation with a fresh id `ann_` and a random UUID.
    pub fn new(range: TimeRange, payload: AnnotationPayload, source: AnnotationSource, status: AnnotationStatus) -> (a: Self)
        ensures
            is_prefixed_uuid(a.id@, "ann_"@),
            a.range == range,
            a.payload == payload,
            a.source == source,
            a.status == status,
    {
        Annotation { id: random_id("ann_"), range, status, source, payload }
    }
}

/// The annotations of status `status`, in order.
pub open spec fn with_status(annotations: Seq<Annotation>, status: AnnotationStatus) -> Seq<Annotation>
    decreases annotations.len(),
{
    if annotations.len() == 0 {
        Seq::empty()
    } else {
        let rest = with_status(annotations.drop_last(), status);
        if annotations.last().status == status {
            rest.push(annotations.last())
        } else {
            rest
        }
    }
}

/// The text spans of the final transcription and sentence annotations, in
/// order, keyed by their start.
pub open spec fn final_text_spans(annotations: Seq<Annotation>) -> Seq<(u64, SpanView)>
    decreases annotations.len(),
{
    if annotations.len() == 0 {
        Seq::empty()
    } else {
        let rest = final_text_spans(annotations.drop_last());
        let a = annotations.last();
        if a.status == AnnotationStatus::Final {
            match a.payload {
                AnnotationPayload::Transcription(t) => rest.push((a.range.start.0, span_view(t))),
                AnnotationPayload::Sentence(t) => rest.push((a.range.start.0, span_view(t))),
                _ => rest,
            }
        } else {
            rest
        }
    }
}

/// `item` inserted into `sorted` after every entry whose key is not larger.
pub open spec fn insert_by_key<T>(sorted: Seq<(u64, T)>, item: (u64, T)) -> Seq<(u64, T)>
    decreases sorted.len(),
{
    if sorted.len() == 0 {
        seq![item]
    } else if sorted.last().0 <= item.0 {
        sorted.push(item)
    } else {
        insert_by_key(sorted.drop_last(), item).push(sorted.last())
    }
}

/// `items` sorted by key, entries with equal keys keeping their order.
pub open spec fn stable_sort_by_key<T>(items: Seq<(u64, T)>) -> Seq<(u64, T)>
    decreases items.len(),
{
    if items.len() == 0 {
        Seq::empty()
    } else {
        insert_by_key(stable_sort_by_key(items.drop_last()), items.last())
    }
}

/// The trimmed texts of `spans` that are not empty, joined by single spaces.
pub open spec fn joined_text(spans: Seq<SpanView>) -> Seq<char>
    decreases spans.len(),
{
    if spans.len() == 0 {
        Seq::empty()
    } else {
        let head = joined_text(spans.drop_last());
        let t = trim(spans.last().text);
        if t.len() == 0 {
            head
        } else if head.len() == 0 {
            t
        } else {
            head + seq![' '] + t
        }
    }
}

/// The first language a span states.
pub open spec fn first_language(spans: Seq<SpanView>) -> Option<Seq<char>>
    decreases spans.len(),
{
    if spans.len() == 0 {
        None
    } else if spans[0].language is Some {
        spans[0].language
    } else {
        first_language(spans.drop_first())
    }
}

/// The values of keyed entries.
pub open spec fn values_of<T>(items: Seq<(u64, T)>) -> Seq<T> {
    items.map_values(|e: (u64, T)| e.1)
}

/// The keyed views of keyed spans.
pub open spec fn keyed_views(items: Seq<(u64, TextSpan)>) -> Seq<(u64, SpanView)> {
    items.map_values(|e: (u64, TextSpan)| (e.0, span_view(e.1)))
}

/// Inserting at `j` is `insert_by_key` when every entry from `j` on has a
/// larger key and the one before it does not.
proof fn lemma_insert_at<T>(sorted: Seq<(u64, T)>, item: (u64, T), j: int)
    requires
        0 <= j <= sorted.len(),
        forall|i: int| j <= i < sorted.len() ==> (#[trigger] sorted[i]).0 > item.0,
        j > 0 ==> sorted[j - 1].0 <= item.0,
    ensures
        insert_by_key(sorted, item) == sorted.insert(j, item),
    decreases sorted.len() - j,
{
    if sorted.len() == 0 {
        assert(sorted.insert(j, item) =~= seq![item]);
    } else if j == sorted.len() {
        assert(sorted.insert(j, item) =~= sorted.push(item));
    } else {
        assert(sorted.last().0 > item.0);
        lemma_insert_at(sorted.drop_last(), item, j);
        assert(sorted.drop_last().insert(j, item).push(sorted.last()) =~= sorted.insert(j, item));
    }
}

impl Timeline {
    /// An empty timeline for `audio_id`, with a fresh id `tl_` and a random
    /// UUID and no duration.
    pub fn new(audio_id: String) -> (t: Self)
        ensures
            is_prefixed_uuid(t.id@, "tl_"@),
            t.audio_id == audio_id,
            t.duration is None,
            t.annotations@.len() == 0,
    {
        Timeline { id: random_id("tl_"), audio_id, duration: None, annotations: Vec::new() }
    }

    /// Appends an annotation.
    pub fn push(&mut self, annotation: Annotation)
        ensures
            final(self).annotations@ == old(self).annotations@.push(annotation),
            final(self).id == old(self).id,
            final(self).audio_id == old(self).audio_id,
            final(self).duration == old(self).duration,
    {
        self.annotations.push(annotation);
    }

    /// Appends annotations, in order.
    pub fn extend(&mut self, annotations: Vec<Annotation>)
        ensures
            final(self).annotations@ == old(self).annotations@ + annotations@,
            final(self).id == old(self).id,
            final(self).audio_id == old(self).audio_id,
            final(self).duration == old(self).duration,
    {
        let mut rest = annotations;
        self.annotations.append(&mut rest);
    }

    /// The annotations of status `status`, in order.
    pub fn by_status(&self, status: AnnotationStatus) -> (found: Vec<&Annotation>)
        ensures
            found@.map_values(|a: &Annotation| *a) == with_status(self.annotations@, status),
    {
        let mut found: Vec<&Annotation> = Vec::new();
        let mut i: usize = 0;
        while i < self.annotations.len()
            invariant
                i <= self.annotations@.len(),
                found@.map_values(|a: &Annotation| *a) == with_status(self.annotations@.take(i as int), status),
            decreases self.annotations@.len() - i,
        {
            assert(self.annotations@.take(i + 1).drop_last() =~= self.annotations@.take(i as int));
            let a = &self.annotations[i];
            let ghost before = found@;
            if a.status == status {
                found.push(a);
                assert(found@.map_values(|a: &Annotation| *a) =~= before.map_values(|a: &Annotation| *a).push(*a));
            }
            i = i + 1;
        }
        assert(self.annotations@.take(self.annotations@.len() as int) =~= self.annotations@);
        found
    }

    /// The final transcription and sentence spans ordered by start (equal
    /// starts keep their order), their trimmed non-empty texts joined by
    /// spaces, and the first language they state.
    pub fn transcript(&self) -> (t: Transcript)
        ensures
            t.segments@.map_values(|s: TextSpan| span_view(s)) == values_of(stable_sort_by_key(final_text_spans(self.annotations@))),
            t.text@ == joined_text(values_of(stable_sort_by_key(final_text_spans(self.annotations@)))),
            opt_chars(t.language) == first_language(values_of(stable_sort_by_key(final_text_spans(self.annotations@)))),
    {
        let ghost anns = self.annotations@;
        let mut sorted: Vec<(u64, TextSpan)> = Vec::new();
        let mut i: usize = 0;
        while i < self.annotations.len()
            invariant
                i <= anns.len(),
                anns == self.annotations@,
                keyed_views(sorted@) == stable_sort_by_key(final_text_spans(anns.take(i as int))),
            decreases anns.len() - i,
        {
            assert(anns.take(i + 1).drop_last() =~= anns.take(i as int));
            assert(anns.take(i + 1).last() == anns[i as int]);
            let a = &self.annotations[i];
            if a.status == AnnotationStatus::Final {
                let span = match &a.payload {
                    AnnotationPayload::Transcription(t) => Some(t.duplicate()),
                    AnnotationPayload::Sentence(t) => Some(t.duplicate()),
                    _ => None,
                };
                if let Some(span) = span {
                    let key = a.range.start.0;
                    let ghost item = (key, span_view(span));
                    let mut j: usize = sorted.len();
                    while j > 0 && sorted[j - 1].0 > key
                        invariant
                            j <= sorted@.len(),
                            forall|m: int| j <= m < sorted@.len() ==> (#[trigger] sorted@[m]).0 > key,
                        decreases j,
                    {
                        j = j - 1;
                    }
                    let ghost before = sorted@;
                    proof {
                        assert(forall|m: int| j <= m < before.len() ==> (#[trigger] keyed_views(before)[m]).0 > key);
                        lemma_insert_at(keyed_views(before), item, j as int);
                    }
                    sorted.insert(j, (key, span));
                    proof {
                        assert(keyed_views(sorted@) =~= keyed_views(before).insert(j as int, item));
                        let rest = final_text_spans(anns.take(i as int));
                        assert(final_text_spans(anns.take(i + 1)) == rest.push(item));
                        assert(rest.push(item).drop_last() =~= rest);
                        assert(stable_sort_by_key(rest.push(item)) == insert_by_key(stable_sort_by_key(rest), item));
                    }
                }
            }
            i = i + 1;
        }
        assert(anns.take(anns.len() as int) =~= anns);
        let ghost order = values_of(stable_sort_by_key(final_text_spans(anns)));
        let mut segments: Vec<TextSpan> = Vec::new();
        let mut text: Vec<char> = Vec::new();
        let mut language: Option<String> = None;
        let mut k: usize = 0;
        while k < sorted.len()
            invariant
                k <= sorted@.len(),
                order == values_of(keyed_views(sorted@)),
                segments@.map_values(|s: TextSpan| span_view(s)) == order.take(k as int),
                text@ == joined_text(order.take(k as int)),
                opt_chars(language) == first_language(order.take(k as int)),
            decreases sorted@.len() - k,
        {
            let ghost prefix = order.take(k as int);
            assert(order.take(k + 1).drop_last() =~= prefix);
            let span = sorted[k].1.duplicate();
            assert(span_view(span) == order[k as int]);
            let trimmed = trim_chars(chars_of(span.text.as_str()).as_slice());
            if trimmed.len() > 0 {
                if text.len() > 0 {
                    text.push(' ');
                }
                append_chars(&mut text, trimmed.as_slice());
            }
            proof {
                lemma_first_language_push(prefix, order[k as int]);
                assert(order.take(k + 1) =~= prefix.push(order[k as int]));
            }
            if language.is_none() {
                language = copy_opt(&span.language);
            }
            let ghost seg_before = segments@;
            segments.push(span);
            assert(segments@.map_values(|s: TextSpan| span_view(s)) =~= seg_before.map_values(|s: TextSpan| span_view(s)).push(span_view(span)));
            k = k + 1;
        }
        assert(order.take(sorted@.len() as int) =~= order);
        Transcript { text: string_from_chars(text.as_slice()), language, segments }
    }
}

/// Appending a span keeps the first language found, or takes the span's.
proof fn lemma_first_language_push(spans: Seq<SpanView>, span: SpanView)
    ensures
        first_language(spans.push(span)) == if first_language(spans) is Some {
            first_language(spans)
        } else {
            span.language
        },
    decreases spans.len(),
{
    if spans.len() > 0 {
        assert(spans.push(span)[0] == spans[0]);
        assert(spans.push(span).drop_first() =~= spans.drop_first().push(span));
        lemma_first_language_push(spans.drop_first(), span);
    } else {
        assert(spans.push(span)[0] == span);
        assert(spans.push(span).drop_first() =~= Seq::<SpanView>::empty());
        assert(first_language(Seq::<SpanView>::empty()) is None);
    }
}

/// Whether the keys of `items` never decrease.
pub open spec fn keys_ascending<T>(items: Seq<(u64, T)>) -> bool {
    forall|i: int, j: int| 0 <= i <= j < items.len() ==> (#[trigger] items[i]).0 <= (#[trigger] items[j]).0
}

proof fn lemma_insert_keeps_ascending<T>(sorted: Seq<(u64, T)>, item: (u64, T))
    requires
        keys_ascending(sorted),
    ensures
        keys_ascending(insert_by_key(sorted, item)),
        insert_by_key(sorted, item).len() == sorted.len() + 1,
        forall|i: int| 0 <= i < insert_by_key(sorted, item).len() ==> (#[trigger] insert_by_key(sorted, item)[i]).0 == item.0 || exists|j: int| 0 <= j < sorted.len() && sorted[j].0 == insert_by_key(sorted, item)[i].0,
    decreases sorted.len(),
{
    if sorted.len() == 0 {
    } else if sorted.last().0 <= item.0 {
        let r = sorted.push(item);
        assert forall|i: int| 0 <= i < r.len() implies (#[trigger] r[i]).0 == item.0 || exists|j: int| 0 <= j < sorted.len() && sorted[j].0 == r[i].0 by {
            if i < sorted.len() {
                assert(sorted[i].0 == r[i].0);
            }
        }
    } else {
        let rest = sorted.drop_last();
        lemma_insert_keeps_ascending(rest, item);
        let inner = insert_by_key(rest, item);
        let r = inner.push(sorted.last());
        assert forall|i: int| 0 <= i < r.len() implies (#[trigger] r[i]).0 == item.0 || exists|j: int| 0 <= j < sorted.len() && sorted[j].0 == r[i].0 by {
            if i == r.len() - 1 {
                assert(sorted[sorted.len() - 1].0 == r[i].0);
            } else {
                assert(r[i] == inner[i]);
                if inner[i].0 != item.0 {
                    let j = choose|j: int| 0 <= j < rest.len() && rest[j].0 == inner[i].0;
                    assert(sorted[j] == rest[j]);
                }
            }
        }
        assert forall|i: int, j: int| 0 <= i <= j < r.len() implies (#[trigger] r[i]).0 <= (#[trigger] r[j]).0 by {
            if j == r.len() - 1 && i < j {
                assert(r[i] == inner[i]);
                if inner[i].0 != item.0 {
                    let k = choose|k: int| 0 <= k < rest.len() && rest[k].0 == inner[i].0;
                    assert(sorted[k] == rest[k]);
                    assert(sorted[k].0 <= sorted[sorted.len() - 1].0);
                }
            } else if j < r.len() - 1 {
                assert(r[i] == inner[i] && r[j] == inner[j]);
            }
        }
    }
}

/// A stable sort by key leaves the keys ascending and the length unchanged.
pub proof fn lemma_stable_sort_ascending<T>(items: Seq<(u64, T)>)
    ensures
        keys_ascending(stable_sort_by_key(items)),
        stable_sort_by_key(items).len() == items.len(),
    decreases items.len(),
{
    if items.len() > 0 {
        lemma_stable_sort_ascending(items.drop_last());
        lemma_insert_keeps_ascending(stable_sort_by_key(items.drop_last()), items.last());
    }
}

/// The segments of a transcript come in the order in which their final
/// annotations start: the keyed spans it is built from are sorted by start
/// and are as many as the final text annotations.
pub proof fn lemma_transcript_in_start_order(annotations: Seq<Annotation>)
    ensures
        keys_ascending(stable_sort_by_key(final_text_spans(annotations))),
        stable_sort_by_key(final_text_spans(annotations)).len() == final_text_spans(annotations).len(),
{
    lemma_stable_sort_ascending(final_text_spans(annotations));
}

} // verus!
