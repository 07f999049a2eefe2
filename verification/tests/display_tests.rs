use asr_data::audio::{AudioEncoding, AudioFormat, AudioInfo, AudioSource};
use asr_data::display::timeline_lines;
use asr_data::doc::Audio;
use asr_data::audio::AudioChannel;
use asr_data::display::{centered_title, channel_label, format_time, grouped_number, truncate_columns};

#[test]
fn numbers_and_times_are_formatted() {
    assert_eq!(grouped_number(1234567), "1,234,567");
    assert_eq!(grouped_number(999), "999");
    assert_eq!(format_time(0), "00:00");
    assert_eq!(format_time(1500), "00:01");
    assert_eq!(format_time(65_000), "01:05");
    assert_eq!(format_time(3_723_000), "01:02:03");
    assert_eq!(format_time(360_000_000), "100:00:00");
}

#[test]
fn wide_characters_count_two_columns() {
    assert_eq!(truncate_columns("你好世界", 5), "你好…");
    assert_eq!(truncate_columns("abc", 10), "abc");
}

#[test]
fn titles_fill_the_width() {
    let title = centered_title(20, "Audio");
    assert_eq!(title.chars().count(), 20);
    assert!(title.contains("Audio"));
    assert!(!channel_label(AudioChannel::Left).is_empty());
}

use asr_data::display::{annotation_box, annotation_detail_lines, annotation_label, annotation_section, card_line};
use asr_data::time::{DurationMs, TimeRange};
use asr_data::timeline::{Annotation, Speaker, TimeSpan};

fn span(id: &str, start: u64, end: u64, source: Option<&str>, annotation: Annotation) -> TimeSpan {
    TimeSpan {
        id: id.to_string(),
        range: TimeRange::new(DurationMs(start), DurationMs(end)),
        source: source.map(str::to_string),
        annotation,
    }
}

#[test]
fn annotation_details_show_time_and_label() {
    let said = span("a", 250, 1500, None, Annotation::Transcription("你好".to_string()));
    assert_eq!(annotation_label(&said), "“你好”");
    assert_eq!(annotation_detail_lines(&said), vec!["00:00–00:01  “你好”".to_string()]);
    let speaker = span(
        "b",
        0,
        1000,
        None,
        Annotation::Speaker(Speaker { name: "female0".to_string(), transcription: Some("hi".to_string()) }),
    );
    assert_eq!(
        annotation_detail_lines(&speaker),
        vec!["00:00–00:01  female0".to_string(), "“hi”".to_string()]
    );
}

#[test]
fn cards_pad_to_their_width() {
    assert_eq!(card_line(10, "ab"), "│ ab     │");
    assert_eq!(card_line(8, "abcdefgh"), "│ abc… │");
}

#[test]
fn boxes_frame_their_members() {
    let spans = vec![span("a", 0, 1000, None, Annotation::Activity("speech".to_string()))];
    let lines = annotation_box("Reference · Activity", &spans, &[0], 30);
    assert_eq!(lines.len(), 3);
    assert!(lines[0].starts_with("╭─ Reference · Activity ─"));
    assert_eq!(lines[0].chars().count(), 30);
    assert!(lines[1].contains("00:00–00:01  speech"));
    assert_eq!(lines[2], format!("╰{}╯", "─".repeat(28)));
}

#[test]
fn sections_list_a_track_and_a_box_per_group() {
    let spans = vec![
        span("a", 0, 500, Some("vad"), Annotation::Activity("speech".to_string())),
        span("b", 500, 1000, Some("vad"), Annotation::Activity("music".to_string())),
    ];
    let lines = annotation_section("Prediction", &spans, 1000, 10, 40, "", false);
    assert_eq!(lines.len(), 5);
    assert!(lines[0].starts_with("Prediction · Activity · vad"));
    assert_eq!(lines[0].chars().count(), 38);
    assert!(lines[0].ends_with("╰───╯╰───╯"));
}

#[test]
fn timeline_view_lists_axis_channels_and_footer() {
    let info = AudioInfo {
        sample_rate: 8,
        channels: 1,
        frame_count: 8,
        source_format: AudioFormat { encoding: AudioEncoding::Wav, sample_rate: 8, channels: 1 },
    };
    let audio = Audio::with_id_from_info("audio_test".to_string(), AudioSource::from_encoded_bytes(vec![1]), &info);
    let lines = timeline_lines(&audio, 64, &["▁".repeat(36)], Some(8), false);
    assert_eq!(lines.len(), 5);
    assert_eq!(lines[0], "");
    assert!(lines[1].starts_with(&" ".repeat(28)));
    assert!(lines[1].contains("00:00") && lines[1].contains("00:01"));
    assert!(lines[3].starts_with("Mono"));
    assert!(lines[4].contains(" 8 samples "));
}
