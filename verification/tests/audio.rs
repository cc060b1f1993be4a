use rpc::audio::{AudioFormat, FrameShape, Playback};

fn stereo(samples_per_channel: u32) -> FrameShape {
    FrameShape { sample_rate: 48000, num_channels: 2, samples_per_channel }
}

#[test]
fn captured_shape_divides_by_channels() {
    let shape = FrameShape::captured(960, 48000, 2);
    assert_eq!(shape, FrameShape { sample_rate: 48000, num_channels: 2, samples_per_channel: 480 });
    assert_eq!(FrameShape::captured(7, 8000, 2).samples_per_channel, 3);
    assert_eq!(FrameShape::captured(0, 8000, 1).samples_per_channel, 0);
}

#[test]
fn first_frame_announces_format() {
    let mut playback = Playback::new();
    assert_eq!(playback.render(0), Vec::<i16>::new());
    let announced = playback.receive(&[1, 2, 3, 4], stereo(2));
    assert_eq!(announced, Some(AudioFormat { channels: 2, sample_rate: 48000, buffer_size: 4 }));
    assert_eq!(playback.render(4), vec![1, 2, 3, 4]);
}

#[test]
fn same_format_is_not_announced_again() {
    let mut playback = Playback::new();
    let _ = playback.receive(&[1, 2, 3, 4], stereo(2));
    assert_eq!(playback.receive(&[5, 6, 7, 8], stereo(2)), None);
    assert_eq!(playback.render(4), vec![5, 6, 7, 8]);
}

#[test]
fn changed_format_is_announced() {
    let mut playback = Playback::new();
    let _ = playback.receive(&[1, 2, 3, 4], stereo(2));
    let announced = playback.receive(&[9, 9], stereo(1));
    assert_eq!(announced, Some(AudioFormat { channels: 2, sample_rate: 48000, buffer_size: 2 }));
    assert_eq!(playback.render(2), vec![9, 9]);
    let mono = FrameShape { sample_rate: 16000, num_channels: 1, samples_per_channel: 2 };
    let announced = playback.receive(&[3, 4], mono);
    assert_eq!(announced, Some(AudioFormat { channels: 1, sample_rate: 16000, buffer_size: 2 }));
}

#[test]
fn frame_of_wrong_length_plays_silence() {
    let mut playback = Playback::new();
    let _ = playback.receive(&[1, 2, 3], stereo(2));
    assert_eq!(playback.render(4), vec![0, 0, 0, 0]);
}

#[test]
fn device_asking_for_another_length_gets_silence() {
    let mut playback = Playback::new();
    let _ = playback.receive(&[1, 2, 3, 4], stereo(2));
    assert_eq!(playback.render(3), vec![0, 0, 0]);
    assert_eq!(playback.render(6), vec![0; 6]);
    assert_eq!(playback.render(4), vec![1, 2, 3, 4]);
}
