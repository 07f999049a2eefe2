use asr_data::audio::{
    detect_encoding, detect_extension, encoding_from_url, frames_for_ms, frames_from_ticks,
    local_path_from_urlish, percent_decode_path, AudioChannel, AudioEncoding, AudioFormat,
    AudioInfo, AudioSource, ProbeError,
};
use asr_data::probe::probe_bytes;

fn wav_bytes(sample_rate: u32, frames: u32) -> Vec<u8> {
    let data_len = frames * 2;
    let mut v = Vec::new();
    v.extend_from_slice(b"RIFF");
    v.extend_from_slice(&(36 + data_len).to_le_bytes());
    v.extend_from_slice(b"WAVE");
    v.extend_from_slice(b"fmt ");
    v.extend_from_slice(&16u32.to_le_bytes());
    v.extend_from_slice(&1u16.to_le_bytes());
    v.extend_from_slice(&1u16.to_le_bytes());
    v.extend_from_slice(&sample_rate.to_le_bytes());
    v.extend_from_slice(&(sample_rate * 2).to_le_bytes());
    v.extend_from_slice(&2u16.to_le_bytes());
    v.extend_from_slice(&16u16.to_le_bytes());
    v.extend_from_slice(b"data");
    v.extend_from_slice(&data_len.to_le_bytes());
    for i in 0..frames {
        v.extend_from_slice(&((i as i16) * 100).to_le_bytes());
    }
    v
}

#[test]
fn urlish_local_path_detection_supports_file_urls_and_plain_paths() {
    assert_eq!(
        local_path_from_urlish("file:///tmp/audio.wav").as_deref(),
        Some("/tmp/audio.wav")
    );
    assert_eq!(
        local_path_from_urlish("file:///tmp/audio%20%281%29.wav").as_deref(),
        Some("/tmp/audio (1).wav")
    );
    assert_eq!(
        local_path_from_urlish("/tmp/audio.wav").as_deref(),
        Some("/tmp/audio.wav")
    );
    assert!(local_path_from_urlish("https://example.com/audio.wav").is_none());
}

#[test]
fn percent_decoding_keeps_unescaped_text() {
    assert_eq!(percent_decode_path("/tmp/plain.wav"), "/tmp/plain.wav");
    assert_eq!(percent_decode_path("a%2Fb%zz"), "a/b%zz");
}

#[test]
fn channel_index_round_trip() {
    assert_eq!(AudioChannel::from_index(0), AudioChannel::Left);
    assert_eq!(AudioChannel::from_index(1), AudioChannel::Right);
    assert_eq!(AudioChannel::from_index(5), AudioChannel::Channel(5));
    assert_eq!(AudioChannel::from_index(5).index(), Some(5));
    assert_eq!(AudioChannel::Mono.index(), None);
    assert_eq!(AudioChannel::Channel(7).name(), "7");
    assert_eq!(AudioChannel::Left.name(), "left");
    assert!(!AudioChannel::Channel(1).is_canonical());
    assert!(AudioChannel::Channel(2).is_canonical());
}

#[test]
fn source_new_tells_urls_from_paths() {
    assert_eq!(
        AudioSource::new("https://a.example/x.wav".to_string()),
        AudioSource::Url("https://a.example/x.wav".to_string())
    );
    assert_eq!(
        AudioSource::new("/data/x.wav".to_string()),
        AudioSource::Path("/data/x.wav".to_string())
    );
}

#[test]
fn frame_formulas_round_up() {
    assert_eq!(frames_for_ms(10, 16000), 160);
    assert_eq!(frames_for_ms(1, 44100), 45);
    assert_eq!(frames_for_ms(0, 16000), 1);
    assert_eq!(frames_from_ticks(3, 1, 1000, 16000), 48);
    assert_eq!(frames_from_ticks(1, 1, 3, 1), 1);
}

#[test]
fn timeline_duration_rounds_partial_milliseconds_up() {
    let info = AudioInfo {
        sample_rate: 3,
        channels: 1,
        frame_count: 1,
        source_format: AudioFormat::pcm16_mono(3),
    };
    assert_eq!(info.timeline_duration_ms(), 334);
}

#[test]
fn encodings_are_told_by_magic_and_extension() {
    assert_eq!(detect_encoding(&wav_bytes(8000, 1)), AudioEncoding::Wav);
    assert_eq!(detect_encoding(b"fLaC...."), AudioEncoding::Flac);
    assert_eq!(detect_encoding(b"????"), AudioEncoding::Unknown);
    assert_eq!(detect_extension(b"OggS...."), "ogg");
    assert_eq!(detect_extension(b"????"), "audio");
    assert_eq!(encoding_from_url("https://x/a.MP3?x=1", b"????"), AudioEncoding::Mp3);
}

#[test]
fn pcm_probe_reports_layout_and_errors() {
    let ok = AudioSource::from_pcm_s16le(vec![0; 8], 16000, 2).probe().unwrap();
    assert_eq!(ok.frame_count, 2);
    assert_eq!(ok.channels, 2);
    assert_eq!(ok.source_format.encoding, AudioEncoding::PcmS16Le);
    assert_eq!(
        AudioSource::from_pcm_s16le(vec![0; 8], 0, 2).probe(),
        Err(ProbeError::ZeroSampleRate)
    );
    assert_eq!(
        AudioSource::from_pcm_s16le(vec![0; 8], 16000, 0).probe(),
        Err(ProbeError::ZeroChannels)
    );
    assert_eq!(
        AudioSource::from_pcm_s16le(vec![0; 6], 16000, 2).probe(),
        Err(ProbeError::IncompleteFrames { byte_len: 6, channels: 2 })
    );
    assert_eq!(
        AudioSource::from_path("/tmp/x.wav".to_string()).probe(),
        Err(ProbeError::NotInMemory)
    );
}

#[test]
fn encoded_bytes_are_probed_by_the_container_parser() {
    let info = probe_bytes(wav_bytes(8000, 8)).unwrap();
    assert_eq!(info.sample_rate, 8000);
    assert_eq!(info.channels, 1);
    assert_eq!(info.frame_count, 8);
    assert_eq!(info.source_format.encoding, AudioEncoding::Wav);
    let via_source = AudioSource::from_encoded_bytes(wav_bytes(8000, 8)).probe().unwrap();
    assert_eq!(via_source, info);
}

#[test]
fn garbage_bytes_fail_to_probe() {
    let result = probe_bytes(vec![1, 2, 3, 4, 5, 6, 7, 8]);
    assert!(matches!(result, Err(ProbeError::Container(_))));
}

#[test]
fn base64_sources_are_decoded_before_probing() {
    let data = wav_bytes(8000, 4);
    let alphabet = b"ABCDEFGHIJKLMNOPQRSTUVWXYZabcdefghijklmnopqrstuvwxyz0123456789+/";
    let mut text = String::new();
    for chunk in data.chunks(3) {
        let b = [chunk[0], *chunk.get(1).unwrap_or(&0), *chunk.get(2).unwrap_or(&0)];
        let n = ((b[0] as u32) << 16) | ((b[1] as u32) << 8) | b[2] as u32;
        text.push(alphabet[(n >> 18) as usize & 63] as char);
        text.push(alphabet[(n >> 12) as usize & 63] as char);
        text.push(if chunk.len() > 1 { alphabet[(n >> 6) as usize & 63] as char } else { '=' });
        text.push(if chunk.len() > 2 { alphabet[n as usize & 63] as char } else { '=' });
    }
    let info = AudioSource::from_base64(format!("data:audio/wav;base64,{text}"))
        .probe()
        .unwrap();
    assert_eq!(info.frame_count, 4);
    let bad = AudioSource::from_base64("!!!".to_string()).probe();
    assert!(matches!(bad, Err(ProbeError::Base64(_))));
}
