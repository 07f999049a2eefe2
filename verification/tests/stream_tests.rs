use asr_data::audio::AudioError;
use asr_data::stream::AudioBytesStream;
use asr_data::time::{DurationMs, TimeRange};

#[test]
fn pushed_bytes_are_cut_into_whole_chunks() {
    let mut stream = AudioBytesStream::new(1000, 1, 10);
    let bytes: Vec<u8> = (0..45).collect();
    let chunks = stream.push(&bytes).unwrap();
    assert_eq!(chunks.len(), 2);
    assert_eq!(chunks[0].bytes, bytes[0..20].to_vec());
    assert_eq!(chunks[1].bytes, bytes[20..40].to_vec());
    assert!(chunks[0].is_start);
    assert!(!chunks[1].is_start);
    assert_eq!(chunks[0].range, TimeRange { start: DurationMs(0), end: DurationMs(10) });
    assert_eq!(chunks[1].range, TimeRange { start: DurationMs(10), end: DurationMs(20) });
    assert!(chunks[0].stream_id.starts_with("stream_"));
    assert_eq!(chunks[0].stream_id.len(), 39);
    assert_eq!(stream.pending_bytes(), 5);

    let last = stream.flush().unwrap();
    assert_eq!(last.len(), 1);
    assert_eq!(last[0].bytes, bytes[40..44].to_vec());
    assert!(last[0].is_last);
    assert_eq!(last[0].range, TimeRange { start: DurationMs(20), end: DurationMs(22) });
    assert_eq!(stream.pending_bytes(), 0);
    assert!(stream.flush().unwrap().is_empty());
}

#[test]
fn invalid_layouts_are_rejected() {
    assert_eq!(AudioBytesStream::new(0, 1, 10).push(&[0, 0]), Err(AudioError::InvalidSampleRate));
    assert_eq!(AudioBytesStream::new(1000, 0, 10).push(&[0, 0]), Err(AudioError::InvalidChannelCount));
    assert_eq!(AudioBytesStream::new(1000, 1, 0).flush(), Err(AudioError::InvalidChunkSize));
}

#[test]
fn a_partial_frame_fails_the_flush() {
    let mut stream = AudioBytesStream::new(1000, 3, 10);
    assert!(stream.push(&[1, 2, 3, 4]).unwrap().is_empty());
    assert_eq!(
        stream.flush(),
        Err(AudioError::IncompleteFrame { samples: 2, channels: 3 })
    );
    assert_eq!(stream.pending_bytes(), 0);
}

#[test]
fn pending_bytes_are_the_remainder_of_whole_chunks() {
    // 1000 Hz, one channel, 2 ms: chunks of 4 bytes.
    let mut stream = AudioBytesStream::new(1000, 1, 2);
    assert_eq!(stream.push(&[0; 6]).unwrap().len(), 1);
    assert_eq!(stream.pending_bytes(), 2);
    assert_eq!(stream.push(&[0; 3]).unwrap().len(), 1);
    assert_eq!(stream.pending_bytes(), 1);
    assert_eq!(stream.push(&[0; 11]).unwrap().len(), 3);
    assert_eq!(stream.pending_bytes(), 0);
    stream.push(&[0; 3]).unwrap();
    stream.flush().unwrap();
    assert_eq!(stream.pending_bytes(), 0);
}
