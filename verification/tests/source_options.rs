use meetily_audio::source::{
    get_audio_capture_capabilities, ApplicationIdentity, AudioSource, RecordingSourceOptions, SourceError,
};

fn application(bundle_id: &str, bundle_path: &str) -> RecordingSourceOptions {
    RecordingSourceOptions {
        source: AudioSource::Application {
            application: ApplicationIdentity {
                bundle_id: bundle_id.into(),
                bundle_path: bundle_path.into(),
                name: "Zoom".into(),
            },
        },
        microphone_enabled: false,
    }
}

#[test]
fn default_options_record_system_audio_and_microphone() {
    let options = RecordingSourceOptions::default();
    assert_eq!(options.source, AudioSource::System);
    assert!(options.microphone_enabled);
    assert_eq!(AudioSource::default(), AudioSource::System);
}

#[test]
fn capabilities_explain_missing_support() {
    let supported = get_audio_capture_capabilities(true);
    assert!(supported.application_audio);
    assert!(supported.reason.is_none());
    let unsupported = get_audio_capture_capabilities(false);
    assert!(!unsupported.application_audio);
    assert_eq!(
        unsupported.reason.as_deref(),
        Some("Application audio requires macOS 14.2 or later with Core Audio taps.")
    );
}

#[test]
fn system_source_is_always_valid() {
    let options = RecordingSourceOptions::default();
    assert_eq!(options.validate(&get_audio_capture_capabilities(false)), Ok(()));
    assert_eq!(options.validate(&get_audio_capture_capabilities(true)), Ok(()));
}

#[test]
fn application_source_needs_support() {
    let options = application("us.zoom.xos", "/Applications/zoom.us.app");
    assert_eq!(
        options.validate(&get_audio_capture_capabilities(false)),
        Err(SourceError::ApplicationAudioUnavailable)
    );
    assert_eq!(options.validate(&get_audio_capture_capabilities(true)), Ok(()));
    assert_eq!(
        SourceError::ApplicationAudioUnavailable.message(),
        "Application audio requires macOS 14.2 or later with Core Audio taps."
    );
}

#[test]
fn application_source_needs_bundle_identity() {
    let caps = get_audio_capture_capabilities(true);
    assert_eq!(
        application("", "/Applications/zoom.us.app").validate(&caps),
        Err(SourceError::NoApplicationSelected)
    );
    assert_eq!(
        application("us.zoom.xos", "Applications/zoom.us.app").validate(&caps),
        Err(SourceError::NoApplicationSelected)
    );
    assert_eq!(application("us.zoom.xos", "").validate(&caps), Err(SourceError::NoApplicationSelected));
    assert_eq!(
        SourceError::NoApplicationSelected.message(),
        "Select a running application before recording."
    );
}

#[test]
fn options_clone_equal() {
    let options = application("us.zoom.xos", "/Applications/zoom.us.app");
    assert_eq!(options.clone(), options);
}
