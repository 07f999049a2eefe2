use asr_data::annotation::{
    Annotation, AnnotationPayload, AnnotationSource, AnnotationStatus, TextSpan, Timeline,
};
use asr_data::time::{DurationMs, TimeRange};

fn span(text: &str, language: Option<&str>) -> TextSpan {
    let mut s = TextSpan::new(text.to_string());
    s.language = language.map(str::to_string);
    s
}

fn at(start: u64, payload: AnnotationPayload, status: AnnotationStatus) -> Annotation {
    Annotation::new(
        TimeRange::new(DurationMs(start), DurationMs(start + 10)),
        payload,
        AnnotationSource::User,
        status,
    )
}

#[test]
fn transcript_joins_final_text_in_time_order() {
    let mut timeline = Timeline::new("a1".to_string());
    timeline.push(at(500, AnnotationPayload::Transcription(span(" world ", Some("en"))), AnnotationStatus::Final));
    timeline.push(at(100, AnnotationPayload::Sentence(span("hello", None)), AnnotationStatus::Final));
    timeline.push(at(0, AnnotationPayload::Transcription(span("draft", Some("fr"))), AnnotationStatus::Partial));
    timeline.push(at(0, AnnotationPayload::Speech, AnnotationStatus::Final));
    timeline.push(at(100, AnnotationPayload::Transcription(span("   ", None)), AnnotationStatus::Final));
    let transcript = timeline.transcript();
    assert_eq!(transcript.text, "hello world");
    assert_eq!(transcript.language.as_deref(), Some("en"));
    let texts: Vec<&str> = transcript.segments.iter().map(|s| s.text.as_str()).collect();
    assert_eq!(texts, vec!["hello", "   ", " world "]);
}

#[test]
fn annotations_are_found_by_status() {
    let mut timeline = Timeline::new("a1".to_string());
    timeline.extend(vec![
        at(0, AnnotationPayload::Speech, AnnotationStatus::Final),
        at(5, AnnotationPayload::Silence, AnnotationStatus::Deleted),
        at(9, AnnotationPayload::Speech, AnnotationStatus::Final),
    ]);
    let finals = timeline.by_status(AnnotationStatus::Final);
    assert_eq!(finals.len(), 2);
    assert_eq!(finals[1].range.start, DurationMs(9));
    assert!(timeline.by_status(AnnotationStatus::Revised).is_empty());
}

#[test]
fn new_ids_carry_their_prefix() {
    let timeline = Timeline::new("a1".to_string());
    assert!(timeline.id.starts_with("tl_"));
    assert_eq!(timeline.id.len(), 35);
    let a = at(0, AnnotationPayload::Speech, AnnotationStatus::Final);
    assert!(a.id.starts_with("ann_"));
    assert!(a.id[4..].chars().all(|c| c.is_ascii_hexdigit() && !c.is_ascii_uppercase()));
}
