use meetily_audio::snapshot::ResolvedApplication;
use meetily_audio::source::{ApplicationIdentity, DeviceType, SourceState};
use meetily_audio::supervisor::{open, processor, Step, Supervisor, SupervisorEvent, BATCH};

fn resolved(running: bool, processes: Vec<(u32, u32)>) -> ResolvedApplication {
    ResolvedApplication { running, processes, output_device: 0, output_sample_rate: 48000 }
}

fn zoom() -> ApplicationIdentity {
    ApplicationIdentity {
        bundle_id: "us.zoom.xos".into(),
        bundle_path: "/Applications/zoom.us.app".into(),
        name: "Zoom".into(),
    }
}

fn status(step: &Step) -> Option<(SourceState, Option<String>)> {
    step.status.as_ref().map(|s| (s.state, s.message.clone()))
}

#[test]
fn absent_audio_waits_without_creating_any_tap() {
    for running in [false, true] {
        assert!(open(&ResolvedApplication {
            running,
            processes: vec![],
            output_device: 0,
            output_sample_rate: 48000
        })
        .is_none());
    }
}

#[test]
fn allowlist_holds_hal_ids() {
    assert_eq!(open(&resolved(true, vec![(3, 10), (7, 11)])), Some(vec![3, 7]));
    assert_eq!(open(&resolved(false, vec![(3, 10)])), None);
    let format = processor(44100);
    assert_eq!((format.sample_rate, format.channels, format.device_type), (44100, 1, DeviceType::System));
}

#[test]
fn start_fails_when_application_is_not_running() {
    let err = Supervisor::start(&zoom(), resolved(false, vec![])).err().unwrap();
    assert_eq!(err, "Open Zoom before starting the recording.");
}

#[test]
fn start_waits_when_application_is_silent() {
    let (_, step) = Supervisor::start(&zoom(), resolved(true, vec![])).ok().unwrap();
    assert!(step.open_tap.is_none());
    assert_eq!(status(&step), Some((SourceState::Waiting, Some("Waiting for Zoom to produce audio".to_string()))));
}

#[test]
fn failed_first_tap_fails_the_start() {
    let (mut s, step) = Supervisor::start(&zoom(), resolved(true, vec![(3, 10)])).ok().unwrap();
    assert_eq!(step.open_tap, Some(vec![3]));
    let step = s.handle(SupervisorEvent::TapFailed("denied".into()));
    assert!(step.stop);
    assert_eq!(
        step.failure.as_deref(),
        Some("Cannot capture Zoom: denied. Check system audio recording permission in System Settings.")
    );
}

#[test]
fn samples_are_batched_and_paused_samples_dropped() {
    let (mut s, _) = Supervisor::start(&zoom(), resolved(true, vec![(3, 10)])).ok().unwrap();
    let step = s.handle(SupervisorEvent::TapOpened);
    assert!(step.status.is_none());
    for i in 0..10u32 {
        assert!(s.handle(SupervisorEvent::Sample { sample: i, active: true }).flush.is_none());
    }
    assert!(s.handle(SupervisorEvent::Sample { sample: 99, active: false }).flush.is_none());
    let mut flushed = None;
    for i in 0..BATCH as u32 {
        let step = s.handle(SupervisorEvent::Sample { sample: i, active: true });
        if step.flush.is_some() {
            assert_eq!(i, BATCH as u32 - 1);
            flushed = step.flush;
        }
    }
    assert_eq!(flushed, Some((0..BATCH as u32).collect::<Vec<u32>>()));
}

#[test]
fn changed_resolution_tears_down_before_reopening() {
    let (mut s, _) = Supervisor::start(&zoom(), resolved(true, vec![(3, 10)])).ok().unwrap();
    s.handle(SupervisorEvent::TapOpened);
    let same = s.handle(SupervisorEvent::Resolved(resolved(true, vec![(3, 10)])));
    assert!(!same.close_tap && same.open_tap.is_none() && same.status.is_none());
    let step = s.handle(SupervisorEvent::Resolved(resolved(true, vec![(3, 10), (8, 12)])));
    assert!(step.close_tap);
    assert_eq!(step.open_tap, Some(vec![3, 8]));
    let step = s.handle(SupervisorEvent::TapOpened);
    assert_eq!(status(&step), Some((SourceState::Capturing, None)));
    let step = s.handle(SupervisorEvent::Resolved(resolved(false, vec![])));
    assert!(step.close_tap && step.open_tap.is_none());
    assert_eq!(
        status(&step),
        Some((SourceState::Waiting, Some("Waiting for Zoom — reconnecting automatically".to_string())))
    );
}

#[test]
fn errors_are_reported_and_retried() {
    let (mut s, _) = Supervisor::start(&zoom(), resolved(true, vec![(3, 10)])).ok().unwrap();
    s.handle(SupervisorEvent::TapOpened);
    let step = s.handle(SupervisorEvent::ResolveFailed("no snapshot".into()));
    assert!(step.close_tap);
    assert_eq!(
        status(&step),
        Some((SourceState::Error, Some("Cannot verify Zoom audio: no snapshot. Retrying automatically.".to_string())))
    );
    let step = s.handle(SupervisorEvent::Resolved(resolved(true, vec![(3, 10)])));
    assert_eq!(step.open_tap, Some(vec![3]));
    let step = s.handle(SupervisorEvent::TapFailed("busy".into()));
    assert!(!step.stop);
    assert_eq!(
        status(&step),
        Some((
            SourceState::Error,
            Some("Cannot capture Zoom: busy. Check system audio permission; retrying automatically.".to_string())
        ))
    );
}

#[test]
fn ended_stream_waits_and_stop_is_final() {
    let (mut s, _) = Supervisor::start(&zoom(), resolved(true, vec![(3, 10)])).ok().unwrap();
    s.handle(SupervisorEvent::TapOpened);
    let step = s.handle(SupervisorEvent::StreamEnded);
    assert!(step.close_tap);
    assert_eq!(
        status(&step),
        Some((SourceState::Waiting, Some("Waiting for Zoom — audio stream ended".to_string())))
    );
    assert!(s.handle(SupervisorEvent::RecordingStopped).stop);
    let after = s.handle(SupervisorEvent::Resolved(resolved(true, vec![(3, 10)])));
    assert!(after.stop && after.open_tap.is_none());
}
