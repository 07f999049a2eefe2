use asr_data::audio::AudioError;
use asr_data::frames::{chunk_bounds, channel_samples, pcm_samples, slice_bounds, ChunkBounds};

#[test]
fn pcm_bytes_decode_little_endian() {
    assert_eq!(pcm_samples(&[0x01, 0x00, 0xff, 0xff, 0x00, 0x80, 0xff, 0x7f], 2), Ok(vec![1, -1, i16::MIN, i16::MAX]));
    assert_eq!(pcm_samples(&[1, 2, 3], 1), Err(AudioError::OddPcmByteLength));
    assert_eq!(pcm_samples(&[1, 2], 0), Err(AudioError::InvalidChannelCount));
    assert_eq!(pcm_samples(&[0; 6], 2), Err(AudioError::IncompleteFrame { samples: 3, channels: 2 }));
}

#[test]
fn one_channel_is_picked_out_of_interleaved_samples() {
    assert_eq!(channel_samples(&[1, 2, 3, 4, 5, 6], 2, 1), Ok(vec![2, 4, 6]));
    assert_eq!(channel_samples(&[1, 2, 3], 1, 0), Ok(vec![1, 2, 3]));
    assert_eq!(channel_samples(&[1, 2], 2, 2), Err(AudioError::ChannelIndexOutOfRange));
    assert_eq!(channel_samples::<u8>(&[], 0, 0), Err(AudioError::InvalidChannelCount));
}

#[test]
fn slices_round_outward_to_whole_frames() {
    assert_eq!(slice_bounds(20, 1000, 2, 2, 5), (4, 10));
    assert_eq!(slice_bounds(20, 1500, 2, 1, 2), (2, 6));
    assert_eq!(slice_bounds(20, 1000, 2, 5, 5), (0, 0));
    assert_eq!(slice_bounds(20, 1000, 2, 50, 60), (20, 20));
}

#[test]
fn chunks_cover_the_buffer_in_order() {
    let chunks = chunk_bounds(10, 1000, 2, 2).unwrap();
    assert_eq!(
        chunks,
        vec![
            ChunkBounds { index: 0, start: 0, end: 4, offset_ms: 0, is_final: false },
            ChunkBounds { index: 1, start: 4, end: 8, offset_ms: 2, is_final: false },
            ChunkBounds { index: 2, start: 8, end: 10, offset_ms: 4, is_final: true },
        ]
    );
    assert_eq!(chunk_bounds(10, 1000, 2, 0), Err(AudioError::InvalidChunkSize));
    assert_eq!(chunk_bounds(10, 0, 2, 5), Err(AudioError::InvalidSampleRate));
    assert_eq!(chunk_bounds(10, 1000, 0, 5), Err(AudioError::InvalidChannelCount));
    assert!(chunk_bounds(0, 1000, 1, 5).unwrap().is_empty());
}
