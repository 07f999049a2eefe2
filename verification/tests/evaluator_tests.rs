use asr_data::audio::AudioChannel;
use asr_data::cer::CerStats;
use asr_data::evaluation::{TimelineEvalConfig, TranscriptionEvaluation, TranscriptionNormalization};
use asr_data::evaluator::{DatasetEvaluator, TimelineOutcome};

fn config(sources: Option<Vec<String>>) -> TimelineEvalConfig {
    TimelineEvalConfig {
        transcription_sources: sources,
        activity_sources: None,
        transcription_normalization: TranscriptionNormalization::Disabled,
        traditional_to_simple: false,
        full_to_half: false,
        remove_erhua: false,
        remove_interjections: false,
        remove_puncts: false,
    }
}

fn scored(source: &str, errors: usize) -> (String, TranscriptionEvaluation) {
    let stats = CerStats { substitutions: errors, deletions: 0, insertions: 0, reference_chars: 4 };
    (source.to_string(), TranscriptionEvaluation { stats, hypothesis_chars: 4, exact_match: errors == 0 })
}

fn outcome(channel: AudioChannel, has_reference: bool, sources: Vec<(String, TranscriptionEvaluation)>) -> TimelineOutcome {
    TimelineOutcome {
        channel,
        has_text_reference: has_reference,
        transcription: sources,
        has_activity_reference: false,
        activity: Vec::new(),
    }
}

#[test]
fn summaries_account_for_every_eligible_timeline() {
    let mut ev = DatasetEvaluator::new(config(Some(vec!["asr".to_string()])));
    ev.push("b", &[outcome(AudioChannel::Mono, true, vec![scored("asr", 1), scored("other", 0)])]);
    ev.push(
        "a",
        &[
            outcome(AudioChannel::Left, true, vec![]),
            outcome(AudioChannel::Right, true, vec![scored("asr", 0)]),
            outcome(AudioChannel::Channel(2), false, vec![]),
        ],
    );
    let result = ev.finish().unwrap();
    assert_eq!((result.documents, result.timelines), (2, 4));
    assert!(result.activity.is_empty());
    assert_eq!(result.transcription.len(), 1);
    let (source, summary) = &result.transcription[0];
    assert_eq!(source, "asr");
    assert_eq!(summary.evaluated_timelines, 2);
    assert_eq!(summary.missing_predictions, 1);
    assert_eq!(summary.missing_prediction_ids, vec!["a:left".to_string()]);
    assert_eq!(summary.evaluated_timelines + summary.missing_predictions, 3);
}

#[test]
fn a_selected_source_never_seen_is_an_error() {
    let mut ev = DatasetEvaluator::new(config(Some(vec!["asr".to_string(), "zzz".to_string()])));
    ev.push("a", &[outcome(AudioChannel::Mono, true, vec![scored("asr", 0)])]);
    assert!(ev.finish().is_err());
}

#[test]
fn without_a_selection_every_source_is_scored() {
    let mut ev = DatasetEvaluator::new(config(None));
    ev.push("a", &[outcome(AudioChannel::Mono, true, vec![scored("asr", 1), scored("other", 0)])]);
    let result = ev.finish().unwrap();
    let names: Vec<&str> = result.transcription.iter().map(|(name, _)| name.as_str()).collect();
    assert_eq!(names, vec!["asr", "other"]);
    assert!(result.transcription.iter().all(|(_, s)| s.evaluated_timelines == 1 && s.missing_predictions == 0));
}
