use asr_data::audio::{AudioEncoding, AudioSource};
use asr_data::legacy::{
    imported_spans, legacy_audio_id, legacy_timeline_id, migrate_legacy_asset, nested_document_id,
    LegacyAudioAsset, LegacyAudioFormat,
};
use asr_data::time::{DurationMs, TimeRange};
use asr_data::timeline::{Annotation, TimeSpan};

fn format(encoding: AudioEncoding, sample_rate: Option<u32>, channels: Option<u16>) -> LegacyAudioFormat {
    LegacyAudioFormat { sample_rate, channels, encoding }
}

#[test]
fn assets_become_sources() {
    let pcm = migrate_legacy_asset(LegacyAudioAsset::Embedded {
        bytes: vec![1, 2],
        format: format(AudioEncoding::PcmS16Le, Some(16000), Some(1)),
        duration: Some(DurationMs(5)),
        sha256: Some("h".to_string()),
    });
    assert_eq!(pcm.source, AudioSource::PcmS16Le { bytes: vec![1, 2], sample_rate: 16000, channels: 1 });
    assert_eq!(pcm.duration, Some(DurationMs(5)));
    assert_eq!(pcm.sha256.as_deref(), Some("h"));
    let pcm_without_rate = migrate_legacy_asset(LegacyAudioAsset::Embedded {
        bytes: vec![1, 2],
        format: format(AudioEncoding::PcmS16Le, None, Some(1)),
        duration: None,
        sha256: None,
    });
    assert_eq!(pcm_without_rate.source, AudioSource::EncodedBytes(vec![1, 2]));
    let url = migrate_legacy_asset(LegacyAudioAsset::Uri {
        uri: "https://x/a.wav".to_string(),
        format: format(AudioEncoding::Wav, None, None),
        duration: None,
        sha256: None,
    });
    assert_eq!(url.source, AudioSource::Url("https://x/a.wav".to_string()));
    let path = migrate_legacy_asset(LegacyAudioAsset::Uri {
        uri: "/a.wav".to_string(),
        format: format(AudioEncoding::Wav, None, None),
        duration: None,
        sha256: None,
    });
    assert_eq!(path.source, AudioSource::Path("/a.wav".to_string()));
}

#[test]
fn blank_ids_get_defaults() {
    assert_eq!(legacy_audio_id("tl1", "a1".to_string()), "a1");
    assert_eq!(legacy_audio_id("tl1", " ".to_string()), "tl1");
    assert_eq!(legacy_audio_id(" ", String::new()), "audio");
    assert_eq!(legacy_timeline_id("keep".to_string()), "keep");
    let fresh = legacy_timeline_id("  ".to_string());
    assert!(fresh.starts_with("tl_") && fresh.len() == 35);
    assert_eq!(nested_document_id("d".to_string(), Some("t".to_string())), "d");
    assert_eq!(nested_document_id("".to_string(), Some("t".to_string())), "t");
    assert_eq!(nested_document_id("".to_string(), None), "audio");
}

#[test]
fn imported_annotations_get_a_source() {
    let span = |id: &str, source: Option<&str>| TimeSpan {
        id: id.to_string(),
        range: TimeRange::new(DurationMs(0), DurationMs(1)),
        source: source.map(str::to_string),
        annotation: Annotation::Activity("speech".to_string()),
    };
    let out = imported_spans(vec![span("a", None), span("b", Some(" ")), span("c", Some("asr"))]);
    let sources: Vec<Option<&str>> = out.iter().map(|s| s.source.as_deref()).collect();
    assert_eq!(sources, vec![Some("import"), Some("import"), Some("asr")]);
    assert_eq!(out[2].id, "c");
}
