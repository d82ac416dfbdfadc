use meetily_audio::mixer::ClockedMixer;
use meetily_audio::source::DeviceType;

fn bits(value: f32, n: usize) -> Vec<u32> {
    vec![value.to_bits(); n]
}

fn floats(samples: Vec<u32>) -> Vec<f32> {
    samples.into_iter().map(f32::from_bits).collect()
}

/// The sample count that `active_seconds` of clock time reaches.
fn target(active_seconds: f64, sample_rate: u32) -> usize {
    (active_seconds * sample_rate as f64) as usize
}

fn pop(mixer: &mut ClockedMixer, active_seconds: f64) -> Option<(Vec<f32>, Vec<f32>, f64)> {
    mixer
        .pop_until(target(active_seconds, 1000))
        .map(|(mic, system, start)| (floats(mic), floats(system), start as f64 / 1000.0))
}

#[test]
fn sources_share_one_timeline_and_gaps_are_silence() {
    let mut mixer = ClockedMixer::new(1000);
    mixer.push(DeviceType::Microphone, bits(0.2, 50));
    mixer.push(DeviceType::System, bits(0.4, 50));
    let (mic, app, timestamp) = pop(&mut mixer, 0.05).unwrap();
    assert_eq!((mic, app, timestamp), (vec![0.2; 50], vec![0.4; 50], 0.0));
    assert!(pop(&mut mixer, 0.05).is_none());
    let (mic, app, timestamp) = pop(&mut mixer, 0.1).unwrap();
    assert_eq!((mic, app, timestamp), (vec![0.0; 50], vec![0.0; 50], 0.05));
    mixer.push(DeviceType::System, bits(0.7, 50));
    let (mic, app, timestamp) = pop(&mut mixer, 0.15).unwrap();
    assert_eq!((mic, app, timestamp), (vec![0.0; 50], vec![0.7; 50], 0.1));
}

#[test]
fn pause_discards_queued_audio_without_advancing_time() {
    let mut mixer = ClockedMixer::new(1000);
    mixer.push(DeviceType::System, bits(0.5, 50));
    mixer.clear_pending();
    assert!(pop(&mut mixer, 0.0).is_none());
    let (_, app, timestamp) = pop(&mut mixer, 0.05).unwrap();
    assert_eq!((app, timestamp), (vec![0.0; 50], 0.0));
}

#[test]
fn only_the_newest_half_second_waits() {
    let mut mixer = ClockedMixer::new(1000);
    let samples: Vec<u32> = (0..700u32).collect();
    mixer.push(DeviceType::Microphone, samples);
    let mut kept = Vec::new();
    for k in 1..=10 {
        let (mic, _, _) = mixer.pop_until(50 * k).unwrap();
        kept.extend(mic);
    }
    let expected: Vec<u32> = (200..700u32).collect();
    assert_eq!(kept, expected);
    let (mic, _, start) = mixer.pop_until(550).unwrap();
    assert_eq!(mic, vec![0; 50]);
    assert_eq!(start, 500);
}

#[test]
fn short_queue_is_padded_with_silence() {
    let mut mixer = ClockedMixer::new(1000);
    mixer.push(DeviceType::Microphone, vec![1, 2, 3]);
    let (mic, system, start) = mixer.pop_until(50).unwrap();
    let mut expected = vec![1, 2, 3];
    expected.extend(vec![0; 47]);
    assert_eq!(mic, expected);
    assert_eq!(system, vec![0; 50]);
    assert_eq!(start, 0);
}

#[test]
fn windows_follow_the_sample_rate() {
    let mut mixer = ClockedMixer::new(48000);
    assert!(mixer.pop_until(2399).is_none());
    let (mic, system, start) = mixer.pop_until(2400).unwrap();
    assert_eq!((mic.len(), system.len(), start), (2400, 2400, 0));
    let (_, _, start) = mixer.pop_until(usize::MAX).unwrap();
    assert_eq!(start, 2400);
}

#[test]
fn windows_start_fifty_milliseconds_apart() {
    let mut mixer = ClockedMixer::new(1000);
    let mut starts = Vec::new();
    mixer.push(DeviceType::Microphone, vec![1; 120]);
    while let Some((mic, system, start)) = mixer.pop_until(200) {
        assert_eq!((mic.len(), system.len()), (50, 50));
        starts.push(start);
        mixer.clear_pending();
    }
    assert_eq!(starts, vec![0, 50, 100, 150]);
    let (_, _, start) = mixer.pop_until(250).unwrap();
    assert_eq!(start, 200);
}
