use asr_data::audio::{AudioEncoding, AudioFormat, AudioInfo, AudioSource};
use asr_data::doc::Audio;
use asr_data::extract::plan_extraction;

fn doc(id: &str, source: AudioSource) -> Audio {
    let info = AudioInfo {
        sample_rate: 16000,
        channels: 1,
        frame_count: 1,
        source_format: AudioFormat { encoding: AudioEncoding::Unknown, sample_rate: 16000, channels: 1 },
    };
    Audio::with_id_from_info(id.to_string(), source, &info)
}

#[test]
fn exported_names_are_unique_and_skip_unembedded_audio() {
    let wav = b"RIFF\0\0\0\0WAVEfmt ".to_vec();
    let audios = vec![
        doc("a", AudioSource::from_encoded_bytes(wav.clone())),
        doc("a", AudioSource::from_encoded_bytes(wav.clone())),
        doc(" b ", AudioSource::from_pcm_s16le(vec![0, 0], 16000, 1)),
        doc("c", AudioSource::from_path("/c.wav".to_string())),
        doc("a", AudioSource::from_encoded_bytes(vec![1, 2, 3])),
        doc("a", AudioSource::from_encoded_bytes(wav)),
    ];
    let (files, skipped) = plan_extraction(&audios);
    let names: Vec<(usize, &str)> = files.iter().map(|f| (f.index, f.filename.as_str())).collect();
    assert_eq!(
        names,
        vec![(0, "a.wav"), (1, "a_1.wav"), (2, "b.pcm"), (4, "a.audio"), (5, "a_2.wav")]
    );
    assert_eq!(skipped, 1);
}
