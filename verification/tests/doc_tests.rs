use asr_data::audio::{AudioChannel, AudioEncoding, AudioFormat, AudioInfo, AudioSource};
use asr_data::doc::{sanitize_audio_id, validate_channel, Audio, AudioChannelError};

fn info() -> AudioInfo {
    AudioInfo {
        sample_rate: 16000,
        channels: 1,
        frame_count: 3,
        source_format: AudioFormat { encoding: AudioEncoding::Unknown, sample_rate: 16000, channels: 1 },
    }
}

#[test]
fn exported_filename_uses_audio_id() {
    let audio = Audio::with_id_from_info(
        "record-12".to_string(),
        AudioSource::from_encoded_bytes(vec![1, 2, 3]),
        &info(),
    );
    assert_eq!(audio.audio_id(), "record-12");
}

#[test]
fn index_ids_and_random_ids() {
    assert_eq!(Audio::id_for_index(3), "audio-3");
    let audio = Audio::from_info(AudioSource::from_encoded_bytes(vec![1]), &info());
    assert!(audio.id.starts_with("audio_"));
    assert_eq!(audio.id.len(), 38);
}

#[test]
fn channels_must_be_canonical() {
    assert_eq!(validate_channel(AudioChannel::Mono), Ok(()));
    assert_eq!(validate_channel(AudioChannel::Channel(0)), Err(AudioChannelError { index: 0 }));
    assert_eq!(validate_channel(AudioChannel::Channel(4)), Ok(()));
}

#[test]
fn audio_ids_are_sanitized_for_file_names() {
    assert_eq!(sanitize_audio_id("record-12"), "record-12");
    assert_eq!(sanitize_audio_id("a/b c"), "a_b_c");
}

#[test]
fn a_fresh_document_is_valid_and_takes_metadata() {
    let audio = Audio::with_id_from_info("x".to_string(), AudioSource::from_encoded_bytes(vec![1]), &info());
    assert!(audio.validate().is_ok());
    let audio = audio.with_metadata_value("b".to_string(), "1".to_string());
    let audio = audio.with_metadata_value("a".to_string(), "2".to_string());
    let audio = audio.with_metadata_value("b".to_string(), "3".to_string());
    assert_eq!(
        audio.metadata,
        vec![("a".to_string(), "2".to_string()), ("b".to_string(), "3".to_string())]
    );
}

#[test]
fn audio_id_drops_outer_white_space() {
    let audio = Audio::with_id_from_info(" rec-1 ".to_string(), AudioSource::from_encoded_bytes(vec![1]), &info());
    assert_eq!(audio.audio_id(), "rec-1");
    assert_eq!(sanitize_audio_id(" rec-1 "), "_rec-1_");
}
