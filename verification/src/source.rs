//! Recording intent, separate from hardware devices: which source to capture,
//! whether the microphone is recorded, and the status a recording reports.
use vstd::prelude::*;
use crate::paths::{is_absolute, path_is_absolute};

verus! {

/// What an application selection means to the user when application capture is
/// not available on this machine.
pub const APPLICATION_AUDIO_UNAVAILABLE: &'static str = "Application audio requires macOS 14.2 or later with Core Audio taps.";

/// What a selection without a usable application means to the user.
pub const SELECT_APPLICATION: &'static str = "Select a running application before recording.";

/// The persistent identity of an application: its bundle, never a PID.
#[derive(Debug, PartialEq, Eq)]
pub struct ApplicationIdentity {
    pub bundle_id: String,
    pub bundle_path: String,
    pub name: String,
}

impl Clone for ApplicationIdentity {
    fn clone(&self) -> (r: Self)
        ensures
            r == *self,
    {
        ApplicationIdentity {
            bundle_id: self.bundle_id.clone(),
            bundle_path: self.bundle_path.clone(),
            name: self.name.clone(),
        }
    }
}

/// Where recorded non-microphone audio comes from.
#[derive(Debug, PartialEq, Eq)]
pub enum AudioSource {
    System,
    Application { application: ApplicationIdentity },
}

impl Clone for AudioSource {
    fn clone(&self) -> (r: Self)
        ensures
            r == *self,
    {
        match self {
            AudioSource::System => AudioSource::System,
            AudioSource::Application { application } => AudioSource::Application {
                application: application.clone(),
            },
        }
    }
}

impl Default for AudioSource {
    fn default() -> (r: Self)
        ensures
            r == AudioSource::System,
    {
        AudioSource::System
    }
}

/// The source and microphone choice of a recording.
#[derive(Debug, PartialEq, Eq)]
pub struct RecordingSourceOptions {
    pub source: AudioSource,
    pub microphone_enabled: bool,
}

impl Clone for RecordingSourceOptions {
    fn clone(&self) -> (r: Self)
        ensures
            r == *self,
    {
        RecordingSourceOptions { source: self.source.clone(), microphone_enabled: self.microphone_enabled }
    }
}

impl Default for RecordingSourceOptions {
    /// All system audio, with the microphone recorded.
    fn default() -> (r: Self)
        ensures
            r.source == AudioSource::System,
            r.microphone_enabled,
    {
        RecordingSourceOptions { source: AudioSource::System, microphone_enabled: true }
    }
}

/// Which input a stream of samples comes from.
#[derive(Debug, Clone, Copy, PartialEq, Eq, Structural)]
pub enum DeviceType {
    Microphone,
    System,
}

/// What the capture of the selected source is doing.
#[derive(Debug, Clone, Copy, PartialEq, Eq, Structural)]
pub enum SourceState {
    Capturing,
    Waiting,
    Error,
}

/// The source of a recording session as shown to the user.
#[derive(Debug, PartialEq, Eq)]
pub struct SourceStatus {
    pub session_id: String,
    pub options: RecordingSourceOptions,
    pub state: SourceState,
    pub message: Option<String>,
}

/// Whether this machine can capture a single application's audio, and if not, why.
#[derive(Debug)]
pub struct CaptureCapabilities {
    pub application_audio: bool,
    pub reason: Option<String>,
}

/// A running application offered for selection.
#[derive(Debug)]
pub struct AudioApplication {
    pub identity: ApplicationIdentity,
    pub audio_active: bool,
}

/// Why a selection cannot be recorded.
#[derive(Debug, Clone, Copy, PartialEq, Eq, Structural)]
pub enum SourceError {
    /// Application capture is not available on this machine.
    ApplicationAudioUnavailable,
    /// The selected application has no bundle identifier or no absolute bundle path.
    NoApplicationSelected,
}

impl SourceError {
    /// The message shown to the user.
    pub fn message(&self) -> (r: &'static str)
        ensures
            r@ == match self {
                SourceError::ApplicationAudioUnavailable => APPLICATION_AUDIO_UNAVAILABLE@,
                SourceError::NoApplicationSelected => SELECT_APPLICATION@,
            },
    {
        match self {
            SourceError::ApplicationAudioUnavailable => APPLICATION_AUDIO_UNAVAILABLE,
            SourceError::NoApplicationSelected => SELECT_APPLICATION,
        }
    }
}

/// The capabilities reported for a machine on which application capture is or is not
/// supported.
pub fn get_audio_capture_capabilities(supported: bool) -> (r: CaptureCapabilities)
    ensures
        r.application_audio == supported,
        r.reason is Some <==> !supported,
        r.reason matches Some(reason) ==> reason@ == APPLICATION_AUDIO_UNAVAILABLE@,
{
    let reason = if supported {
        None
    } else {
        Some(String::from_str(APPLICATION_AUDIO_UNAVAILABLE))
    };
    CaptureCapabilities { application_audio: supported, reason }
}

/// The outcome of validating `options` on a machine where application capture is
/// `supported` or not: a system source is always accepted; an application needs
/// capture support, a bundle identifier and an absolute bundle path.
pub open spec fn validation(options: RecordingSourceOptions, supported: bool) -> Result<(), SourceError> {
    match options.source {
        AudioSource::System => Ok(()),
        AudioSource::Application { application } => if !supported {
            Err(SourceError::ApplicationAudioUnavailable)
        } else if application.bundle_id@.len() == 0 || !is_absolute(application.bundle_path@) {
            Err(SourceError::NoApplicationSelected)
        } else {
            Ok(())
        },
    }
}

impl RecordingSourceOptions {
    /// Checks that these options can be recorded with the given capabilities.
    pub fn validate(&self, capabilities: &CaptureCapabilities) -> (r: Result<(), SourceError>)
        ensures
            r == validation(*self, capabilities.application_audio),
    {
        if let AudioSource::Application { application } = &self.source {
            if !capabilities.application_audio {
                return Err(SourceError::ApplicationAudioUnavailable);
            }
            if application.bundle_id.as_str().is_empty() || !path_is_absolute(application.bundle_path.as_str()) {
                return Err(SourceError::NoApplicationSelected);
            }
        }
        Ok(())
    }
}

} // verus!
