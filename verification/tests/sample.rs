use tunes::sample::{int_sample_width, missing_sample_indices, FrameRangeError, IntSampleWidth, SampleFrames};

const SAMPLE_RATE: f32 = 44100.0;

/// Plays a sample the way time-based playback does: the time is turned into a
/// frame position, the position into the frame played, and a missing value
/// into silence.
fn play(sample: &SampleFrames<f32>, time: f32, playback_rate: f32) -> (f32, f32) {
    let index = (time * playback_rate * SAMPLE_RATE) as usize;
    match sample.frame_position(index) {
        Some(frame) => {
            let (left, right) = sample.stereo_values(frame);
            (left.unwrap_or(0.0), right.unwrap_or(0.0))
        }
        None => (0.0, 0.0),
    }
}

#[test]
fn test_mono_sample_playback() {
    let data = vec![0.0, 0.5, 1.0, 0.5, 0.0, -0.5, -1.0];
    let sample = SampleFrames::from_mono(data);

    let (left, right) = play(&sample, 0.0, 1.0);
    assert_eq!(left, 0.0);
    assert_eq!(right, 0.0);

    let (left, right) = play(&sample, 2.0 / 44100.0, 1.0);
    assert_eq!(left, 1.0);
    assert_eq!(right, 1.0);
}

#[test]
fn test_stereo_sample_playback() {
    let data = vec![1.0, 0.0, 0.5, 0.5, 0.0, 1.0];
    let sample = SampleFrames::from_interleaved(data, 2);
    assert_eq!(sample.num_frames(), 3);

    let (left, right) = play(&sample, 0.0, 1.0);
    assert_eq!(left, 1.0);
    assert_eq!(right, 0.0);

    let (left, right) = play(&sample, 1.0 / 44100.0, 1.0);
    assert_eq!(left, 0.5);
    assert_eq!(right, 0.5);
}

#[test]
fn test_playback_rate() {
    let data = vec![0.0, 0.5, 1.0, 0.5];
    let sample = SampleFrames::from_mono(data);

    let (left, _) = play(&sample, 1.0 / 44100.0, 2.0);
    assert_eq!(left, 1.0);
}

#[test]
fn test_bounds_checking() {
    let data = vec![1.0, 2.0, 3.0];
    let sample = SampleFrames::from_mono(data);

    let (left, right) = play(&sample, 10.0, 1.0);
    assert_eq!(left, 0.0);
    assert_eq!(right, 0.0);
}

#[test]
fn test_reverse() {
    let data = vec![1.0, 2.0, 3.0, 4.0];
    let sample = SampleFrames::from_mono(data);

    let reversed = sample.reverse();
    let (left, _) = play(&reversed, 0.0, 1.0);
    assert_eq!(left, 4.0);
}

#[test]
fn test_slice() {
    let data = vec![1.0, 2.0, 3.0, 4.0, 5.0];
    let sample = SampleFrames::from_mono(data);

    let sliced = sample.slice_frames(1, 4).unwrap();
    assert_eq!(sliced.num_frames(), 3);
    let (left, _) = play(&sliced, 0.0, 1.0);
    assert_eq!(left, 2.0);
}

#[test]
fn test_looping() {
    let data = vec![1.0, 2.0, 3.0, 4.0, 5.0];
    let sample = SampleFrames::from_mono(data).with_loop_frames(1, 4).unwrap();

    assert!(sample.is_looping());
    assert_eq!(sample.loop_points(), Some((1, 4)));

    let (left, _) = play(&sample, 4.0 / 44100.0, 1.0);
    assert_eq!(left, 2.0);
}

#[test]
fn stereo_reverse_keeps_channel_order() {
    let sample = SampleFrames::from_interleaved(vec![1, 2, 3, 4, 5, 6], 2);
    let reversed = sample.reverse();
    assert_eq!(reversed.data(), &vec![5, 6, 3, 4, 1, 2]);
    assert_eq!(reversed.num_frames(), 3);
    assert_eq!(reversed.reverse().data(), &vec![1, 2, 3, 4, 5, 6]);
}

#[test]
fn multichannel_reverse_and_partial_frame() {
    // Three channels, two whole frames and one trailing value.
    let sample = SampleFrames::from_interleaved(vec![1, 2, 3, 4, 5, 6, 7], 3);
    assert_eq!(sample.num_frames(), 2);
    let reversed = sample.reverse();
    assert_eq!(reversed.data(), &vec![4, 5, 6, 1, 2, 3]);
}

#[test]
fn slice_errors() {
    let sample = SampleFrames::from_interleaved(vec![0u8; 10], 2);
    assert_eq!(sample.slice_frames(3, 3).err(), Some(FrameRangeError::StartNotBeforeEnd));
    assert_eq!(sample.slice_frames(4, 2).err(), Some(FrameRangeError::StartNotBeforeEnd));
    assert_eq!(
        sample.slice_frames(1, 6).err(),
        Some(FrameRangeError::EndBeyondLength { end: 6, length: 5 })
    );
    let stereo = SampleFrames::from_interleaved(vec![1, 2, 3, 4, 5, 6], 2);
    let middle = stereo.slice_frames(1, 2).unwrap();
    assert_eq!(middle.data(), &vec![3, 4]);
    assert_eq!(middle.channels(), 2);
}

#[test]
fn loop_errors_and_clearing() {
    let sample = SampleFrames::from_mono(vec![0i16; 5]);
    assert_eq!(
        SampleFrames::from_mono(vec![0i16; 5]).with_loop_frames(2, 2).err(),
        Some(FrameRangeError::StartNotBeforeEnd)
    );
    assert_eq!(
        SampleFrames::from_mono(vec![0i16; 5]).with_loop_frames(2, 6).err(),
        Some(FrameRangeError::EndBeyondLength { end: 6, length: 5 })
    );
    let looped = sample.with_loop_frames(0, 5).unwrap();
    assert!(looped.is_looping());
    let cleared = looped.without_loop();
    assert!(!cleared.is_looping());
    assert_eq!(cleared.loop_points(), None);
}

#[test]
fn loop_wraps_far_positions() {
    let sample = SampleFrames::from_mono(vec![10, 11, 12, 13, 14, 15])
        .with_loop_frames(2, 5)
        .unwrap();
    // Before the loop end positions play as they are.
    assert_eq!(sample.frame_position(0), Some(0));
    assert_eq!(sample.frame_position(4), Some(4));
    // From the loop end on they cycle through frames 2, 3, 4.
    assert_eq!(sample.frame_position(5), Some(2));
    assert_eq!(sample.frame_position(6), Some(3));
    assert_eq!(sample.frame_position(7), Some(4));
    assert_eq!(sample.frame_position(8), Some(2));
    assert_eq!(sample.frame_position(1_000_000), Some(2 + (1_000_000 - 2) % 3));
}

#[test]
fn interpolation_falls_back_at_the_end() {
    let sample = SampleFrames::from_mono(vec![1, 2, 3]);
    assert_eq!(sample.interpolation_position(0), Some(0));
    assert_eq!(sample.interpolation_position(1), Some(1));
    assert_eq!(sample.interpolation_position(2), None);
    assert_eq!(sample.interpolation_position(9), None);
    let looped = SampleFrames::from_mono(vec![1, 2, 3]).with_loop_frames(0, 2).unwrap();
    assert_eq!(looped.interpolation_position(2), Some(0));
    assert_eq!(looped.interpolation_position(3), Some(1));
}

#[test]
fn multichannel_values_use_first_two_channels() {
    let sample = SampleFrames::from_interleaved(vec![1, 2, 3, 4, 5, 6], 3);
    assert_eq!(sample.stereo_values(0), (Some(1), Some(2)));
    assert_eq!(sample.stereo_values(1), (Some(4), Some(5)));
    let mono = SampleFrames::from_mono(vec![7, 8]);
    assert_eq!(mono.stereo_values(1), (Some(8), Some(8)));
}

#[test]
fn with_samples_keeps_layout() {
    let sample = SampleFrames::from_interleaved(vec![1, 2, 3, 4], 2)
        .with_loop_frames(0, 1)
        .unwrap();
    let scaled = sample.with_samples(vec![2, 4, 6, 8]);
    assert_eq!(scaled.data(), &vec![2, 4, 6, 8]);
    assert_eq!(scaled.channels(), 2);
    assert_eq!(scaled.num_frames(), 2);
    assert_eq!(scaled.loop_points(), Some((0, 1)));
}

#[test]
fn missing_samples_are_listed_in_order() {
    assert_eq!(missing_sample_indices(&vec![true, false, true, false]), vec![1, 3]);
    assert!(missing_sample_indices(&vec![true, true]).is_empty());
    assert!(missing_sample_indices(&vec![]).is_empty());
}

#[test]
fn int_sample_widths() {
    assert_eq!(int_sample_width(16), Some(IntSampleWidth::Bits16));
    assert_eq!(int_sample_width(24), Some(IntSampleWidth::Bits24));
    assert_eq!(int_sample_width(32), Some(IntSampleWidth::Bits32));
    assert_eq!(int_sample_width(8), None);
    assert_eq!(int_sample_width(0), None);
}
