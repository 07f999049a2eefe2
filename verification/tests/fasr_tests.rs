use asr_data::fasr::fasr_timeline;
use asr_data::time::{DurationMs, TimeRange};
use asr_data::timeline::Annotation;
use asr_data::audio::AudioEncoding;
use asr_data::fasr::{audio_encoding_from_fasr, fasr_record, read_fasr_audio_list, FasrError, FasrPart};

fn part(bytes: &[u8]) -> Vec<u8> {
    let mut v = (bytes.len() as u64).to_be_bytes().to_vec();
    v.extend_from_slice(bytes);
    v
}

fn container(magic: &[u8], header: &str, records: &[(&str, &[u8])]) -> Vec<u8> {
    let mut v = magic.to_vec();
    v.extend(part(header.as_bytes()));
    for (meta, audio) in records {
        v.extend(part(meta.as_bytes()));
        v.extend(part(audio));
    }
    v
}

#[test]
fn container_records_are_read_in_order() {
    let bytes = container(
        b"FASRAL02",
        r#"{"format":"fasr-audiolist","audios":[1,2]}"#,
        &[(r#"{"id":"a"}"#, &[1, 2, 3]), (r#"{"id":"b"}"#, &[])],
    );
    let frames = read_fasr_audio_list(&bytes).unwrap();
    assert_eq!(frames.len(), 2);
    assert_eq!(frames[0].metadata, br#"{"id":"a"}"#.to_vec());
    assert_eq!(frames[0].audio, vec![1, 2, 3]);
    assert_eq!(frames[1].audio, Vec::<u8>::new());
}

#[test]
fn header_without_audios_has_no_records() {
    let bytes = container(b"FASRAL01", r#"{"format":"fasr-audiolist"}"#, &[]);
    assert_eq!(read_fasr_audio_list(&bytes).unwrap().len(), 0);
}

#[test]
fn container_errors_name_what_went_wrong() {
    assert_eq!(read_fasr_audio_list(b"FAS"), Err(FasrError::Truncated(FasrPart::Magic)));
    assert_eq!(
        read_fasr_audio_list(b"NOTFASR!xxxxxxxx"),
        Err(FasrError::UnsupportedMagic(b"NOTFASR!".to_vec()))
    );
    assert_eq!(
        read_fasr_audio_list(b"FASRAL01\x00\x00"),
        Err(FasrError::Truncated(FasrPart::HeaderLength))
    );
    let wrong = container(b"FASRAL01", r#"{"format":"other"}"#, &[]);
    assert_eq!(read_fasr_audio_list(&wrong), Err(FasrError::NotAudioList));
    let not_json = container(b"FASRAL01", "{", &[]);
    assert!(matches!(read_fasr_audio_list(&not_json), Err(FasrError::HeaderJson(_))));
    let mut short = container(
        b"FASRAL01",
        r#"{"format":"fasr-audiolist","audios":[1]}"#,
        &[("{}", &[9, 9, 9, 9])],
    );
    short.truncate(short.len() - 2);
    assert_eq!(read_fasr_audio_list(&short), Err(FasrError::Truncated(FasrPart::Audio(0))));
}

#[test]
fn record_metadata_is_read_with_fallbacks() {
    let meta = br#"{"text":{"reference":" hello "},"sample_rate":16000,"source":{"format":"WAVE","sha256":"abc","sample_rate":8000},"channel_count":2,"url":"u","extra":null,"storage":{"k":1}}"#;
    let record = fasr_record(3, meta).unwrap();
    assert_eq!(record.id, "audio-3");
    assert_eq!(record.transcription.as_deref(), Some(" hello "));
    assert_eq!(record.sample_rate, Some(16000));
    assert_eq!(record.channels, Some(2));
    assert_eq!(record.encoding, AudioEncoding::Wav);
    assert_eq!(record.sha256.as_deref(), Some("abc"));
    assert_eq!(record.url.as_deref(), Some("u"));
    assert_eq!(
        record.passthrough,
        vec![
            ("fasr_source".to_string(), r#"{"format":"WAVE","sample_rate":8000,"sha256":"abc"}"#.to_string()),
            ("fasr_storage".to_string(), r#"{"k":1}"#.to_string()),
        ]
    );
}

#[test]
fn blank_text_and_oversized_numbers_are_dropped() {
    let record = fasr_record(0, br#"{"id":"x","text":"  ","audio":{"sample_rate":5000000000,"channels":70000}}"#).unwrap();
    assert_eq!(record.id, "x");
    assert_eq!(record.transcription, None);
    assert_eq!(record.sample_rate, None);
    assert_eq!(record.channels, None);
    assert_eq!(record.encoding, AudioEncoding::Other("unknown".to_string()));
    assert!(fasr_record(0, b"not json").is_err());
}

#[test]
fn fasr_format_names_map_to_encodings() {
    assert_eq!(audio_encoding_from_fasr("FLAC"), AudioEncoding::Flac);
    assert_eq!(audio_encoding_from_fasr("s16le"), AudioEncoding::PcmS16Le);
    assert_eq!(audio_encoding_from_fasr("Opus"), AudioEncoding::Ogg);
    assert_eq!(audio_encoding_from_fasr("AAC"), AudioEncoding::Other("aac".to_string()));
}

#[test]
fn record_timeline_spans_the_whole_audio() {
    let record = fasr_record(3, br#"{"text":"hi"}"#).unwrap();
    let timeline = fasr_timeline(&record, DurationMs(1500));
    assert_eq!(timeline.audio_id, "audio-3");
    assert_eq!(timeline.duration, DurationMs(1500));
    assert_eq!(timeline.reference.len(), 1);
    assert_eq!(timeline.reference[0].id, "ann_audio-3");
    assert_eq!(timeline.reference[0].range, TimeRange::new(DurationMs(0), DurationMs(1500)));
    assert_eq!(timeline.reference[0].annotation, Annotation::Transcription("hi".to_string()));
    let silent = fasr_record(0, br#"{"id":"x"}"#).unwrap();
    assert!(fasr_timeline(&silent, DurationMs(10)).reference.is_empty());
}
